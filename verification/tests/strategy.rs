use enyo::military::military;
use enyo::nation::{FER, LIEN, TERROIR};
use enyo::path::Ground;
use enyo::proto::{Building, Command, Rejection, UnitKind};
use enyo::realm::Realm;
use enyo::strategy::{plan, research_pick, Outlook};
use enyo::text::ViewArgs;
use enyo::tile::TileKind;
use enyo::unit::Unit;

fn open_land(w: u32, h: u32) -> Realm {
    Realm::new(w, h, &vec![TileKind::Land; (w * h) as usize])
}

fn level_ground(r: &Realm) -> Vec<Ground> {
    r.plots
        .iter()
        .map(|p| Ground { kind: p.kind, rugged_pts: 0, rain_pts: 0, sea_rain_pts: 0, ravage_pts: 0, freezing: false })
        .collect()
}

fn quiet(r: &Realm) -> Outlook {
    Outlook { rank: vec![0; r.plots.len()], populous: vec![false; r.plots.len()], grievance: None, can_research: false }
}

#[test]
fn research_picks_the_lowest_branch() {
    let mut r = open_land(10, 10);
    assert_eq!(research_pick(&r, 0), None, "no nation, no research");
    r.settle(1, 1, 0, 100);
    // All at tier 0: the lowest pushed branch, growth (0).
    assert_eq!(research_pick(&r, 0), Some((0, 0)));
    r.nations[0].tech = [2, 1, 0, 3];
    // Iron (2) is not pushed without barracks: the land branch at tier 1.
    assert_eq!(research_pick(&r, 0), Some((TERROIR as u8, 1)));
    r.plots[11].building = Some(Building::Military);
    assert_eq!(research_pick(&r, 0), Some((FER as u8, 0)));
    r.nations[0].tech = [1, 1, 1, 1];
    assert_eq!(research_pick(&r, 0), Some((0, 1)));
    r.nations[0].tech = [5, 5, 9, 4];
    assert_eq!(research_pick(&r, 0), Some((LIEN as u8, 4)));
}

#[test]
fn plan_researches_when_it_can_pay() {
    let mut r = open_land(10, 10);
    r.settle(1, 1, 0, 100);
    let mut o = quiet(&r);
    o.can_research = true;
    let cmds = plan(&r, 0, &o, &level_ground(&r));
    assert_eq!(cmds[0], Command::Research { nation: 0, branch: 0 });
    o.can_research = false;
    let cmds = plan(&r, 0, &o, &level_ground(&r));
    assert!(!cmds.iter().any(|c| matches!(c, Command::Research { .. })));
}

#[test]
fn plan_declares_war_on_grievance_or_nearest_rival() {
    let mut r = open_land(20, 10);
    r.settle(2, 2, 0, 100);
    r.settle(10, 2, 1, 100);
    r.settle(18, 8, 2, 100);
    let g = level_ground(&r);
    // At peace, without barracks: no war.
    let cmds = plan(&r, 0, &quiet(&r), &g);
    assert!(!cmds.iter().any(|c| matches!(c, Command::DeclareWar { .. })));
    // A grievance past the threshold: war on its target.
    let mut o = quiet(&r);
    o.grievance = Some(2);
    let cmds = plan(&r, 0, &o, &g);
    assert!(cmds.contains(&Command::DeclareWar { nation: 0, target: 2 }));
    // With barracks: conquest of the nearest rival (X wraps: nation 2 is 10
    // tiles away, nation 1 only 8).
    r.plots[2 * 20 + 2].building = Some(Building::Military);
    let cmds = plan(&r, 0, &quiet(&r), &g);
    assert!(cmds.contains(&Command::DeclareWar { nation: 0, target: 1 }));
    // Already at war with someone: no new war.
    r.declare_war(0, 2);
    let cmds = plan(&r, 0, &quiet(&r), &g);
    assert!(!cmds.iter().any(|c| matches!(c, Command::DeclareWar { .. })));
}

#[test]
fn military_recruits_and_marches_at_war() {
    let mut r = open_land(20, 6);
    r.settle(2, 2, 0, 100);
    r.settle(3, 2, 0, 100);
    r.settle(12, 2, 1, 100);
    r.plots[2 * 20 + 2].building = Some(Building::Military);
    r.nations[0].money = 5000;
    r.nations[0].manpower = 1000;
    let g = level_ground(&r);
    // At peace: nothing to fight, no order.
    assert!(military(&r, 0, &g).is_empty());
    r.declare_war(0, 1);
    let cmds = military(&r, 0, &g);
    assert_eq!(cmds[0], Command::CreateUnit { x: 2, y: 2, nation: 0, kind: UnitKind::Infantry });
    // The recruit then marches on the enemy.
    r.create_unit(2, 2, 0, UnitKind::Infantry);
    let id = r.units[0].id;
    let cmds = military(&r, 0, &g);
    assert!(cmds.iter().any(|c| matches!(c, Command::MoveUnit { unit, .. } if *unit == id)));
    // Every order is one the rules accept.
    for c in cmds {
        if let Command::MoveUnit { unit, to_x, to_y } = c {
            let ev = r.move_unit(unit, to_x, to_y, &g);
            assert!(!matches!(ev[0], enyo::proto::Event::CommandRejected { .. }), "{:?}", ev);
        }
    }
}

#[test]
fn director_grievances_need_two_real_nations() {
    let mut r = open_land(6, 6);
    r.settle(1, 1, 0, 10);
    r.settle(4, 4, 1, 10);
    assert_eq!(r.grievance_refusal(0, 1), None);
    assert_eq!(r.grievance_refusal(1, 1), Some(Rejection::InvalidGrievance));
    assert_eq!(r.grievance_refusal(0, 7), Some(Rejection::InvalidGrievance));
}

#[test]
fn view_args_read_options() {
    let raw: Vec<String> = ["--nations", "4", "--headless", "--shot", "a.png", "--px", "x", "--zzz"]
        .iter()
        .map(|s| s.to_string())
        .collect();
    let a = ViewArgs::from_args(raw);
    assert_eq!(a.seed, 2026);
    assert_eq!(a.nations, 4);
    assert_eq!(a.player, 0);
    assert_eq!(a.pre_turns, 120);
    assert_eq!(a.px, 16, "a number that does not parse leaves the setting");
    assert!(a.headless);
    assert_eq!(a.shot, Some("a.png".to_string()));
    assert_eq!(a.ignored, vec!["--zzz".to_string()]);
}

#[test]
fn military_recruits_only_what_it_can_pay() {
    let mut r = open_land(20, 6);
    for x in 2..5 {
        r.settle(x, 2, 0, 100);
        r.plots[2 * 20 + x as usize].building = Some(Building::Military);
    }
    r.settle(12, 2, 1, 100);
    // Money for two foot soldiers (60 each), manpower for many.
    r.nations[0].money = 130;
    r.nations[0].manpower = 1000;
    r.declare_war(0, 1);
    let g = level_ground(&r);
    let cmds = military(&r, 0, &g);
    assert_eq!(cmds[0], Command::CreateUnit { x: 2, y: 2, nation: 0, kind: UnitKind::Infantry });
    assert_eq!(cmds[1], Command::CreateUnit { x: 3, y: 2, nation: 0, kind: UnitKind::Infantry });
    assert_eq!(cmds.iter().filter(|c| matches!(c, Command::CreateUnit { .. })).count(), 2);
}

#[test]
fn military_attacks_the_nearest_enemy_in_range() {
    let mut r = open_land(20, 6);
    r.settle(5, 4, 0, 100);
    r.settle(15, 4, 1, 100);
    r.declare_war(0, 1);
    let units = [
        Unit { id: 1, owner: 0, kind: UnitKind::Archer, x: 5, y: 2, hp: 70, moves_left: 25 },
        Unit { id: 2, owner: 1, kind: UnitKind::Infantry, x: 7, y: 2, hp: 100, moves_left: 0 },
        Unit { id: 3, owner: 1, kind: UnitKind::Infantry, x: 6, y: 2, hp: 100, moves_left: 0 },
        Unit { id: 4, owner: 1, kind: UnitKind::Infantry, x: 4, y: 2, hp: 100, moves_left: 0 },
    ];
    for u in units {
        r.units.push(u);
    }
    r.next_unit_id = 5;
    let g = level_ground(&r);
    let cmds = military(&r, 0, &g);
    // Two enemies at distance 1: the one with the smaller x is attacked.
    assert!(cmds.contains(&Command::AttackUnit { unit: 1, x: 4, y: 2 }));
    let own: Vec<&Command> = cmds
        .iter()
        .filter(|c| matches!(c, Command::AttackUnit { unit: 1, .. } | Command::MoveUnit { unit: 1, .. }))
        .collect();
    assert_eq!(own.len(), 1);
}

#[test]
fn military_boards_a_unit_next_to_a_galley() {
    let (w, h) = (20u32, 6u32);
    let mut kinds = vec![TileKind::Land; (w * h) as usize];
    for x in 6..12 {
        kinds[(2 * w + x) as usize] = TileKind::Ocean;
    }
    let mut r = Realm::new(w, h, &kinds);
    r.settle(5, 4, 0, 100);
    r.settle(15, 4, 1, 100);
    r.declare_war(0, 1);
    r.units.push(Unit { id: 1, owner: 0, kind: UnitKind::Infantry, x: 5, y: 2, hp: 100, moves_left: 30 });
    r.units.push(Unit { id: 2, owner: 0, kind: UnitKind::Galley, x: 6, y: 2, hp: 80, moves_left: 40 });
    r.next_unit_id = 3;
    let g = level_ground(&r);
    let cmds = military(&r, 0, &g);
    assert!(cmds.contains(&Command::Embark { unit: 1, transport: 2 }));
    let steering: Vec<&Command> = cmds
        .iter()
        .filter(|c| matches!(c, Command::Embark { transport: 2, .. } | Command::Disembark { transport: 2, .. }
            | Command::MoveUnit { unit: 2, .. }))
        .collect();
    assert_eq!(steering.len(), 1);
}

#[test]
fn military_marches_land_units_out_of_range() {
    let mut r = open_land(20, 6);
    r.settle(3, 2, 0, 100);
    r.settle(15, 2, 1, 100);
    r.declare_war(0, 1);
    r.units.push(Unit { id: 1, owner: 0, kind: UnitKind::Infantry, x: 4, y: 2, hp: 100, moves_left: 30 });
    r.next_unit_id = 2;
    let g = level_ground(&r);
    let cmds = military(&r, 0, &g);
    let moves: Vec<&Command> = cmds.iter().filter(|c| matches!(c, Command::MoveUnit { unit: 1, .. })).collect();
    assert_eq!(moves.len(), 1);
    if let Command::MoveUnit { to_x, to_y, .. } = *moves[0] {
        // Closer to the enemy (the map wraps east-west), and a move the rules grant.
        let dist = |x: u32, y: u32| {
            let dx = (x as i64 - 15).abs();
            dx.min(20 - dx) + (y as i64 - 2).abs()
        };
        assert!(dist(to_x, to_y) < dist(4, 2));
        let ev = r.move_unit(1, to_x, to_y, &g);
        assert!(!matches!(ev[0], enyo::proto::Event::CommandRejected { .. }), "{:?}", ev);
    }
}

#[test]
fn military_orders_each_unit_once_across_the_wrapped_edge() {
    let mut r = open_land(40, 30);
    r.units.push(Unit { id: 1, owner: 0, kind: UnitKind::Archer, x: 1, y: 5, hp: 70, moves_left: 25 });
    r.units.push(Unit { id: 2, owner: 1, kind: UnitKind::Infantry, x: 39, y: 5, hp: 100, moves_left: 30 });
    r.next_unit_id = 3;
    r.declare_war(0, 1);
    let g = level_ground(&r);
    assert_eq!(military(&r, 0, &g), vec![Command::AttackUnit { unit: 1, x: 39, y: 5 }]);
}
