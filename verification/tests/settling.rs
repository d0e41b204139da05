use enyo::ai::spawn_nations;
use enyo::connect::provinces;
use enyo::nation::FER;
use enyo::path::Ground;
use enyo::proto::{Building, Command, Event, Rejection};
use enyo::realm::{Realm, Terrain};
use enyo::strategy::{plan, Outlook};
use enyo::tile::TileKind;

fn land_realm(w: u32, h: u32) -> Realm {
    Realm::new(w, h, &vec![TileKind::Land; (w * h) as usize])
}

fn flat(r: &Realm) -> Vec<Ground> {
    r.plots
        .iter()
        .map(|p| Ground { kind: p.kind, rugged_pts: 0, rain_pts: 0, sea_rain_pts: 0, ravage_pts: 0, freezing: false })
        .collect()
}

fn calm(r: &Realm) -> Vec<Terrain> {
    let t = Terrain { vegetation_pts: 0, rugged_pts: 0, weather_pts: 0, freezing: false, forest: false, rough: false };
    vec![t; r.plots.len()]
}

fn tile_of(r: &Realm, x: u32, y: u32) -> usize {
    (y * r.width + x) as usize
}

/// Two adjacent land tiles (the first in row order).
fn land_pair_of(r: &Realm) -> ((u32, u32), (u32, u32)) {
    for y in 0..r.height {
        for x in 0..r.width {
            if r.plots[tile_of(r, x, y)].kind != TileKind::Land {
                continue;
            }
            let right = ((x + 1) % r.width, y);
            if right != (x, y) && r.plots[tile_of(r, right.0, right.1)].kind == TileKind::Land {
                return ((x, y), right);
            }
        }
    }
    panic!("no pair of adjacent land tiles");
}

/// Provinces of the realm: (owner, number of tiles) per connected territory.
fn provinces_of(r: &Realm) -> Vec<(u16, usize)> {
    let (_, provs) = provinces(&r.plots, r.width, r.height);
    provs.iter().map(|p| (p.owner, p.tiles as usize)).collect()
}

#[test]
fn settle_on_water_is_rejected() {
    let mut kinds = vec![TileKind::Land; 12 * 8];
    kinds[3] = TileKind::Ocean;
    let mut r = Realm::new(12, 8, &kinds);
    let ev = r.settle(3, 0, 0, 100);
    assert!(matches!(ev[0], Event::CommandRejected { .. }));
    assert_eq!(ev[0], Event::CommandRejected { reason: Rejection::WaterTile });
    let ev = r.settle(12, 0, 0, 100);
    assert_eq!(ev[0], Event::CommandRejected { reason: Rejection::OutOfMap });
}

#[test]
fn swarm_requires_threshold_then_succeeds() {
    let mut r = land_realm(20, 10);
    let g = flat(&r);
    let ((x, y), near) = land_pair_of(&r);
    // Under a thousand people: refused.
    r.settle(x, y, 0, 200);
    let ev = r.swarm(x, y, near.0, near.1, false, &g);
    assert!(matches!(ev[0], Event::CommandRejected { .. }), "must refuse under 1000");
    // Above a thousand and within reach of an adjacent tile: done.
    r.settle(x, y, 0, 2000);
    let ev = r.swarm(x, y, near.0, near.1, true, &g);
    assert!(matches!(ev[0], Event::Swarmed { .. }), "must swarm");
    assert_eq!(r.plots[tile_of(&r, near.0, near.1)].owner, Some(0));
    assert_eq!(r.nations[0].influence, 60 - 10, "a swarm costs influence");
}

#[test]
fn contested_swarm_raises_grievance() {
    let mut r = land_realm(20, 10);
    let g = flat(&r);
    let ((ax, ay), (bx, by)) = land_pair_of(&r);
    r.settle(ax, ay, 0, 2000);
    r.settle(bx, by, 1, 100);
    let ev = r.swarm(ax, ay, bx, by, true, &g);
    assert!(matches!(ev[0], Event::GrievanceRaised { .. }));
    assert_eq!(ev[0], Event::GrievanceRaised { from: 0, to: 1, x: bx, y: by });
    assert_eq!(r.plots[tile_of(&r, bx, by)].owner, Some(1), "the foreign tile is not taken");
}

#[test]
fn connected_tiles_form_one_province() {
    let mut r = land_realm(30, 20);
    let g = flat(&r);
    let ((x, y), near) = land_pair_of(&r);
    r.settle(x, y, 0, 2000);
    assert_eq!(provinces_of(&r).len(), 1);
    assert_eq!(provinces_of(&r)[0].1, 1);
    let ev = r.swarm(x, y, near.0, near.1, true, &g);
    assert!(matches!(ev[0], Event::Swarmed { .. }));
    let provs = provinces_of(&r);
    assert_eq!(provs.len(), 1, "two adjacent tiles -> one province");
    assert_eq!(provs[0].1, 2);
    assert_eq!(provs[0].0, 0);
}

#[test]
fn distant_settlements_form_separate_provinces() {
    let mut r = land_realm(40, 30);
    r.settle(0, 0, 0, 100);
    // A land tile clearly far away (not connected).
    let mut far = None;
    'outer: for yy in (0..r.height).rev() {
        for xx in (0..r.width).rev() {
            let d = (xx as i64).abs() + (yy as i64).abs();
            if d > 10 {
                far = Some((xx, yy));
                break 'outer;
            }
        }
    }
    let (fx, fy) = far.expect("a far land tile");
    r.settle(fx, fy, 0, 100);
    let provs = provinces_of(&r);
    assert_eq!(provs.len(), 2, "two distant settlements -> two provinces");
    assert!(provs.iter().all(|p| p.0 == 0 && p.1 == 1));
}

#[test]
fn spawn_places_requested_nations() {
    let r = land_realm(60, 40);
    let level = vec![5u8; r.plots.len()];
    let settles = spawn_nations(&r, 7, 4, 0, &level, 6)
        .iter()
        .filter(|c| matches!(c, Command::Settle { .. }))
        .count();
    assert_eq!(settles, 4);
}

#[test]
fn spawn_is_seeded() {
    let r = land_realm(60, 40);
    let level = vec![5u8; r.plots.len()];
    let a = spawn_nations(&r, 7, 3, 0, &level, 6);
    let b = spawn_nations(&r, 7, 3, 0, &level, 6);
    assert_eq!(a, b, "same seed, same sites");
    // Three settlements, three cities, two endowments (not the player).
    assert_eq!(a.len(), 3 + 3 + 2);
    assert!(matches!(a[1], Command::Build { building: Building::City, .. }));
    assert!(!a.iter().any(|c| matches!(c, Command::Endow { nation: 0, .. })));
    assert!(spawn_nations(&r, 7, 0, 0, &level, 6).is_empty());
}

fn idle_outlook(r: &Realm) -> Outlook {
    Outlook { rank: vec![0; r.plots.len()], populous: vec![false; r.plots.len()], grievance: None, can_research: false }
}

#[test]
fn plan_expands_grown_nation() {
    let mut r = land_realm(20, 14);
    let (x, y) = (5, 5);
    r.settle(x, y, 0, 2000);
    let mut o = idle_outlook(&r);
    o.populous[tile_of(&r, x, y)] = true;
    let cmds = plan(&r, 0, &o, &flat(&r));
    assert!(
        cmds.iter().any(|c| matches!(c, Command::Swarm { .. })),
        "the AI must swarm from a tile of a thousand people or more"
    );
}

/// Applies an AI order to the discrete state (a research needs knowledge,
/// which the AI here does not have).
fn carry_out(r: &mut Realm, c: Command, g: &Vec<Ground>, t: &Vec<Terrain>) -> Vec<Event> {
    match c {
        Command::Build { x, y, nation, building } => r.build(x, y, nation, building),
        Command::CreateUnit { x, y, nation, kind } => r.create_unit(x, y, nation, kind),
        Command::MoveUnit { unit, to_x, to_y } => r.move_unit(unit, to_x, to_y, g),
        Command::AttackUnit { unit, x, y } => r.attack_unit(unit, x, y, t),
        Command::Embark { unit, transport } => r.embark(unit, transport),
        Command::Disembark { transport, to_x, to_y } => r.disembark(transport, to_x, to_y),
        Command::DeclareWar { nation, target } => r.declare_war(nation, target),
        Command::MakePeace { nation, target } => r.make_peace(nation, target),
        Command::Swarm { from_x, from_y, to_x, to_y } => r.swarm(from_x, from_y, to_x, to_y, false, g),
        Command::Research { nation, branch } => r.research(nation, branch, false),
        _ => Vec::new(),
    }
}

fn owned_by(r: &Realm, nation: u16) -> usize {
    r.plots.iter().filter(|p| p.owner == Some(nation)).count()
}

#[test]
fn ai_wages_and_wins_a_war() {
    let (w, h, y) = (40u32, 8u32, 4u32);
    let mut kinds = vec![TileKind::Ocean; (w * h) as usize];
    // A continuous strip of land over the whole width (a cylinder) joining the
    // nations both ways.
    for x in 0..w {
        kinds[(y * w + x) as usize] = TileKind::Land;
    }
    let mut r = Realm::new(w, h, &kinds);
    r.settle(3, y, 0, 3000);
    r.settle(4, y, 0, 2000);
    r.settle(5, y, 0, 1000);
    let i = tile_of(&r, 3, y);
    r.plots[i].building = Some(Building::City);
    let i = tile_of(&r, 4, y);
    r.plots[i].building = Some(Building::Military);
    let i = tile_of(&r, 5, y);
    r.plots[i].building = Some(Building::Industry);
    r.nations[0].money = 5000;
    r.nations[0].materials = 500;
    r.nations[0].manpower = 500;
    r.nations[0].tech[FER] = 1;
    r.settle(25, y, 1, 100);
    r.settle(26, y, 1, 100);
    assert_eq!(owned_by(&r, 1), 2, "the enemy starts with two tiles");
    r.declare_war(0, 1);
    let g = flat(&r);
    let t = calm(&r);
    let o = idle_outlook(&r);
    // The AI plays nation 0 every month: it recruits, marches on the enemy,
    // occupies it, and forces its capitulation (annexation, no tile left).
    let mut won = false;
    for _ in 0..150 {
        for c in plan(&r, 0, &o, &g) {
            carry_out(&mut r, c, &g, &t);
        }
        r.refresh_units();
        r.resolve_capitulations();
        if owned_by(&r, 1) == 0 {
            won = true;
            break;
        }
    }
    assert!(won, "the AI must conquer the enemy by occupation (left: {} tiles)", owned_by(&r, 1));
}

#[test]
fn build_rejected_when_unaffordable_or_invalid() {
    let mut w = land_realm(80, 60);
    let (x, y) = (10, 10);
    w.settle(x, y, 0, 500);

    // A tile it does not own: refused.
    let other = if x + 2 < w.width { (x + 2, y) } else { (x - 2, y) };
    let ev = w.build(other.0, other.1, 0, Building::Industry);
    assert!(matches!(ev[0], Event::CommandRejected { .. }));

    // Already built: refused.
    w.build(x, y, 0, Building::Industry);
    let ev = w.build(x, y, 0, Building::Commerce);
    assert!(matches!(ev[0], Event::CommandRejected { .. }));

    // Commerce costs 20 materials, a new nation has none: refused.
    let mut nw = land_realm(80, 60);
    let (px, py) = (12, 20);
    nw.settle(px, py, 0, 500);
    let ev = nw.build(px, py, 0, Building::Commerce);
    assert!(matches!(ev[0], Event::CommandRejected { .. }), "commerce without materials is refused");
}

#[test]
fn owned_tiles_follow_territory_in_index_order() {
    let mut r = land_realm(30, 20);
    let g = flat(&r);
    assert!(r.owned_tiles(0).is_empty());
    let ((x, y), near) = land_pair_of(&r);
    r.settle(x, y, 0, 2000);
    assert_eq!(r.owned_tiles(0), vec![tile_of(&r, x, y)]);
    let ev = r.swarm(x, y, near.0, near.1, true, &g);
    assert!(matches!(ev[0], Event::Swarmed { .. }));
    let mut both = vec![tile_of(&r, x, y), tile_of(&r, near.0, near.1)];
    both.sort();
    assert_eq!(r.owned_tiles(0), both);
    assert!(r.owned_tiles(1).is_empty());
}
