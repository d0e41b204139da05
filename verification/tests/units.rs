use enyo::nation::FER;
use enyo::path::Ground;
use enyo::proto::{Building, Event, UnitKind};
use enyo::realm::{attack_malus, Realm, Terrain};
use enyo::tile::TileKind;
use enyo::unit::{unit_stats, Unit};

/// A realm of water where `plain_tiles` are neutral plains.
fn sea_realm(w: u32, h: u32, plain_tiles: &[(u32, u32)]) -> Realm {
    let mut kinds = vec![TileKind::Ocean; (w * h) as usize];
    for &(x, y) in plain_tiles {
        kinds[(y * w + x) as usize] = TileKind::Land;
    }
    Realm::new(w, h, &kinds)
}

/// Neutral ground ratings (no relief, no weather) for every tile.
fn flat_ground(r: &Realm) -> Vec<Ground> {
    r.plots
        .iter()
        .map(|p| Ground { kind: p.kind, rugged_pts: 0, rain_pts: 0, sea_rain_pts: 0, ravage_pts: 0, freezing: false })
        .collect()
}

/// Terrain ratings of a tile with the given vegetation and ruggedness (0..1),
/// quantised as the simulation does (35 points each; a forest above 0.5, rough
/// land above 0.4).
fn rated(veg: f32, rug: f32) -> Terrain {
    Terrain {
        vegetation_pts: (veg * 35.0) as i32,
        rugged_pts: (rug * 35.0) as i32,
        weather_pts: 0,
        freezing: false,
        forest: veg > 0.5,
        rough: rug > 0.4,
    }
}

fn neutral_terrain(r: &Realm) -> Vec<Terrain> {
    vec![rated(0.0, 0.0); r.plots.len()]
}

fn nation_pos(r: &Realm, id: u16) -> usize {
    r.nations.iter().position(|n| n.id == id).unwrap()
}

/// A nation owning barracks, endowed with money and manpower, on a plain.
fn setup_barracks(r: &mut Realm, x: u32, y: u32, nation: u16) {
    r.settle(x, y, nation, 100);
    let i = (y * r.width + x) as usize;
    r.plots[i].building = Some(Building::Military);
    let ni = nation_pos(r, nation);
    r.nations[ni].money = 5000;
    r.nations[ni].manpower = 1000;
}

fn push_unit(r: &mut Realm, u: Unit) {
    r.units.push(u);
    if r.next_unit_id <= u.id {
        r.next_unit_id = u.id + 1;
    }
}

#[test]
fn create_unit_costs_money_and_force() {
    let mut r = sea_realm(40, 30, &[(5, 5)]);
    setup_barracks(&mut r, 5, 5, 0);
    let money0 = r.nations[0].money;
    let manpower0 = r.nations[0].manpower;
    let ev = r.create_unit(5, 5, 0, UnitKind::Infantry);
    assert!(matches!(ev[0], Event::UnitCreated { .. }), "created: {:?}", ev[0]);
    assert_eq!(r.units.len(), 1);
    let s = unit_stats(UnitKind::Infantry);
    assert_eq!(r.nations[0].money, money0 - s.cost_money);
    assert_eq!(r.nations[0].manpower, manpower0 - s.cost_force);
    assert_eq!(r.units[0].hp, s.max_hp);
}

#[test]
fn create_unit_requires_barracks() {
    let mut r = sea_realm(40, 30, &[(5, 5)]);
    r.settle(5, 5, 0, 100);
    let ni = nation_pos(&r, 0);
    r.nations[ni].money = 5000;
    // No barracks: refused.
    let ev = r.create_unit(5, 5, 0, UnitKind::Infantry);
    assert!(matches!(ev[0], Event::CommandRejected { .. }));
}

#[test]
fn tech_gates_archer() {
    let mut r = sea_realm(40, 30, &[(5, 5)]);
    setup_barracks(&mut r, 5, 5, 0);
    // An archer needs iron >= 1.
    let ev = r.create_unit(5, 5, 0, UnitKind::Archer);
    assert!(matches!(ev[0], Event::CommandRejected { .. }), "archer without the tech: refused");
    let ni = nation_pos(&r, 0);
    r.nations[ni].tech[FER] = 1;
    let ev = r.create_unit(5, 5, 0, UnitKind::Archer);
    assert!(matches!(ev[0], Event::UnitCreated { .. }), "archer with the tech: {:?}", ev[0]);
}

#[test]
fn unit_moves_then_runs_out_of_points() {
    let row: Vec<(u32, u32)> = (5..16).map(|x| (x, 5)).collect();
    let mut r = sea_realm(40, 30, &row);
    setup_barracks(&mut r, 5, 5, 0);
    r.create_unit(5, 5, 0, UnitKind::Infantry);
    let g = flat_ground(&r);
    let id = r.units[0].id;
    // Infantry: 30 points, a plain costs 10 -> 3 tiles (up to x = 8).
    let ev = r.move_unit(id, 8, 5, &g);
    assert!(matches!(ev[0], Event::UnitMoved { .. }), "move: {:?}", ev[0]);
    assert_eq!((r.units[0].x, r.units[0].y), (8, 5));
    // No points left this turn: refused.
    let ev = r.move_unit(id, 9, 5, &g);
    assert!(matches!(ev[0], Event::CommandRejected { .. }), "spent: refused");
    // A month later the points are back.
    r.refresh_units();
    let ev = r.move_unit(id, 9, 5, &g);
    assert!(matches!(ev[0], Event::UnitMoved { .. }), "refilled: {:?}", ev[0]);
}

/// Damage dealt to the defender, for a defender's terrain (vegetation,
/// ruggedness) and the attacker's vegetation.
fn attack_damage(attacker: UnitKind, attacker_veg: f32, def_veg: f32, def_rug: f32) -> i32 {
    let mut r = sea_realm(40, 30, &[(5, 5), (6, 5)]);
    let mut terrain = neutral_terrain(&r);
    terrain[(5 * 40 + 5) as usize] = rated(attacker_veg, 0.0);
    terrain[(5 * 40 + 6) as usize] = rated(def_veg, def_rug);
    push_unit(&mut r, Unit { id: 1, owner: 0, kind: attacker, x: 5, y: 5, hp: 300, moves_left: 30 });
    push_unit(&mut r, Unit { id: 2, owner: 1, kind: UnitKind::Infantry, x: 6, y: 5, hp: 300, moves_left: 30 });
    r.declare_war(0, 1);
    let ev = r.attack_unit(1, 6, 5, &terrain);
    match &ev[0] {
        Event::UnitAttacked { damage, .. } => *damage,
        o => panic!("expected UnitAttacked, got {:?}", o),
    }
}

#[test]
fn terrain_defense_reduces_damage() {
    let open = attack_damage(UnitKind::Infantry, 0.0, 0.0, 0.0);
    let forest = attack_damage(UnitKind::Infantry, 0.0, 1.0, 0.0);
    let hills = attack_damage(UnitKind::Infantry, 0.0, 0.0, 1.0);
    assert!(forest < open, "vegetation shields the defender ({} -> {})", open, forest);
    assert!(hills < open, "relief shields the defender ({} -> {})", open, hills);
}

#[test]
fn archer_has_forest_attack_malus() {
    let open = attack_damage(UnitKind::Archer, 0.0, 0.0, 0.0);
    let from_forest = attack_damage(UnitKind::Archer, 1.0, 0.0, 0.0);
    assert!(from_forest < open, "archers in a forest: attack penalty ({} -> {})", open, from_forest);
}

#[test]
fn damage_formula_values() {
    // Infantry (25) on open ground: 25. Behind a full forest (+35 %): 25*100/135 = 18.
    assert_eq!(attack_damage(UnitKind::Infantry, 0.0, 0.0, 0.0), 25);
    assert_eq!(attack_damage(UnitKind::Infantry, 0.0, 1.0, 0.0), 18);
    // Archers (30) shooting from a forest (-40 %): 18.
    assert_eq!(attack_damage(UnitKind::Archer, 1.0, 0.0, 0.0), 18);
    assert_eq!(attack_malus(UnitKind::Cavalry, &rated(0.0, 1.0)), 35);
    assert_eq!(attack_malus(UnitKind::Infantry, &rated(1.0, 1.0)), 0);
    assert_eq!(rated(1.0, 1.0).defense_bonus(), 70);
}

#[test]
fn attack_requires_war() {
    let mut r = sea_realm(40, 30, &[(5, 5), (6, 5)]);
    let terrain = neutral_terrain(&r);
    push_unit(&mut r, Unit { id: 1, owner: 0, kind: UnitKind::Infantry, x: 5, y: 5, hp: 100, moves_left: 30 });
    push_unit(&mut r, Unit { id: 2, owner: 1, kind: UnitKind::Infantry, x: 6, y: 5, hp: 100, moves_left: 30 });
    let ev = r.attack_unit(1, 6, 5, &terrain);
    assert!(matches!(ev[0], Event::CommandRejected { .. }), "not at war: refused");
}

#[test]
fn unit_destroyed_at_zero_hp() {
    let mut r = sea_realm(40, 30, &[(5, 5), (6, 5)]);
    let terrain = neutral_terrain(&r);
    push_unit(&mut r, Unit { id: 1, owner: 0, kind: UnitKind::Cavalry, x: 5, y: 5, hp: 300, moves_left: 55 });
    push_unit(&mut r, Unit { id: 2, owner: 1, kind: UnitKind::Infantry, x: 6, y: 5, hp: 10, moves_left: 30 });
    r.declare_war(0, 1);
    assert!(r.is_sound());
    let ev = r.attack_unit(1, 6, 5, &terrain);
    assert!(
        ev.iter().any(|e| matches!(e, Event::UnitDestroyed { unit: 2, .. })),
        "the defender must be destroyed: {:?}",
        ev
    );
    assert!(r.units.iter().all(|u| u.id != 2), "defender removed from the world");
    assert!(r.units.iter().any(|u| u.id == 1), "the attacker survives (no counter from the dead)");
}

#[test]
fn unit_regenerates_on_home_territory_only() {
    // On its own territory: heals, paid in manpower.
    let mut r = sea_realm(40, 30, &[(5, 5)]);
    r.settle(5, 5, 0, 100);
    let ni = nation_pos(&r, 0);
    r.nations[ni].manpower = 100;
    push_unit(&mut r, Unit { id: 1, owner: 0, kind: UnitKind::Infantry, x: 5, y: 5, hp: 50, moves_left: 30 });
    let mp0 = r.nations[ni].manpower;
    r.refresh_units();
    assert!(r.units[0].hp > 50, "heals at home (50 -> {})", r.units[0].hp);
    assert!(r.nations[ni].manpower < mp0, "healing costs manpower");

    // On a neutral tile: no healing.
    let mut r2 = sea_realm(40, 30, &[(7, 7)]);
    push_unit(&mut r2, Unit { id: 1, owner: 0, kind: UnitKind::Infantry, x: 7, y: 7, hp: 50, moves_left: 30 });
    r2.refresh_units();
    assert_eq!(r2.units[0].hp, 50, "no healing on neutral land");
}

#[test]
fn regeneration_amounts() {
    // Eight points a month, bounded by the missing points and by manpower.
    let mut r = sea_realm(10, 10, &[(1, 1), (2, 1)]);
    r.settle(1, 1, 0, 100);
    r.settle(2, 1, 0, 100);
    r.nations[0].manpower = 11;
    push_unit(&mut r, Unit { id: 1, owner: 0, kind: UnitKind::Infantry, x: 1, y: 1, hp: 50, moves_left: 0 });
    push_unit(&mut r, Unit { id: 2, owner: 0, kind: UnitKind::Infantry, x: 2, y: 1, hp: 97, moves_left: 0 });
    r.refresh_units();
    assert_eq!(r.units[0].hp, 58);
    assert_eq!(r.units[1].hp, 100);
    assert_eq!(r.nations[0].manpower, 0);
    assert_eq!(r.units[0].moves_left, 30);
}

#[test]
fn units_are_deterministic() {
    let run = || {
        let row: Vec<(u32, u32)> = (5..20).map(|x| (x, 7)).collect();
        let mut r = sea_realm(50, 40, &row);
        setup_barracks(&mut r, 5, 7, 0);
        r.create_unit(5, 7, 0, UnitKind::Infantry);
        let g = flat_ground(&r);
        let id = r.units[0].id;
        r.move_unit(id, 7, 7, &g);
        for _ in 0..5 {
            r.refresh_units();
            r.resolve_capitulations();
        }
        r.move_unit(id, 9, 7, &g);
        let tiles = vec![[0u32; 10]; r.plots.len()];
        let know = vec![0u32; r.nations.len()];
        enyo::audit::checksum(5, &r, &tiles, &know, &Vec::new())
    };
    assert_eq!(run(), run(), "the unit system must be deterministic");
}
