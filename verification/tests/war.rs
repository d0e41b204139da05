use enyo::path::Ground;
use enyo::proto::{Building, Event, UnitKind};
use enyo::realm::{tile_value, Plot, Realm};
use enyo::tile::TileKind;
use enyo::unit::Unit;

fn ocean_realm(w: u32, h: u32) -> Realm {
    Realm::new(w, h, &vec![TileKind::Ocean; (w * h) as usize])
}

fn at(r: &Realm, x: u32, y: u32) -> usize {
    (y * r.width + x) as usize
}

/// A neutral plain at (x, y).
fn make_plain(r: &mut Realm, x: u32, y: u32) {
    let i = at(r, x, y);
    r.plots[i].kind = TileKind::Land;
}

/// `count` plains from x0 on row y, owned by `nation`.
fn give_row(r: &mut Realm, x0: u32, count: u32, y: u32, nation: u16) {
    for x in x0..x0 + count {
        make_plain(r, x, y);
        let i = at(r, x, y);
        r.plots[i].owner = Some(nation);
    }
}

fn plain_ground(r: &Realm) -> Vec<Ground> {
    r.plots
        .iter()
        .map(|p| Ground { kind: p.kind, rugged_pts: 0, rain_pts: 0, sea_rain_pts: 0, ravage_pts: 0, freezing: false })
        .collect()
}

fn add_unit(r: &mut Realm, u: Unit) {
    r.units.push(u);
    if r.next_unit_id <= u.id {
        r.next_unit_id = u.id + 1;
    }
}

/// The discrete part of a month: movement points back, healing, capitulations.
fn month(r: &mut Realm) -> Vec<Event> {
    r.refresh_units();
    r.resolve_capitulations()
}

#[test]
fn tile_value_via_nation_value() {
    let mut r = ocean_realm(40, 30);
    give_row(&mut r, 5, 3, 5, 1); // three empty tiles -> 3
    assert_eq!(r.nation_value(1), 3);
    let i = at(&r, 5, 5);
    r.plots[i].building = Some(Building::Industry); // +5 -1 = +4
    assert_eq!(r.nation_value(1), 3 - 1 + 5);
    let j = at(&r, 6, 5);
    r.plots[j].building = Some(Building::City); // +10 -1 = +9
    assert_eq!(r.nation_value(1), 7 + 9);
}

#[test]
fn tile_values() {
    let p = Plot { kind: TileKind::Land, owner: Some(0), occupier: None, building: None };
    assert_eq!(tile_value(&p), 1);
    assert_eq!(tile_value(&Plot { building: Some(Building::City), ..p }), 10);
    assert_eq!(tile_value(&Plot { building: Some(Building::Farm), ..p }), 5);
}

#[test]
fn occupation_sets_score_without_capitulation() {
    let mut r = ocean_realm(40, 30);
    // Enemy (nation 1): five empty tiles (value 5) -> capitulation past 3.75.
    give_row(&mut r, 5, 5, 5, 1);
    make_plain(&mut r, 4, 5);
    add_unit(&mut r, Unit { id: 1, owner: 0, kind: UnitKind::Infantry, x: 4, y: 5, hp: 100, moves_left: 99 });
    r.declare_war(0, 1);
    let g = plain_ground(&r);
    // Occupies ONE enemy tile (value 1).
    let ev = r.move_unit(1, 5, 5, &g);
    assert!(matches!(ev[0], Event::UnitMoved { .. }), "move: {:?}", ev[0]);
    let i = at(&r, 5, 5);
    assert_eq!(r.plots[i].occupier, Some(0), "tile hatched (occupied)");
    assert_eq!(r.plots[i].owner, Some(1), "but still the enemy's");
    assert_eq!(r.war_score(0, 1), 1);
    // One month: not enough (1 < 3.75) -> no capitulation, nothing annexed.
    let ev = month(&mut r);
    assert!(!ev.iter().any(|e| matches!(e, Event::Capitulation { .. })));
    assert_eq!(r.plots[i].owner, Some(1), "not annexed");
    assert!(r.diplomacy.at_war(0, 1), "still at war");
}

#[test]
fn occupying_over_75_percent_forces_capitulation() {
    let mut r = ocean_realm(40, 30);
    // Enemy: a single tile (value 1) -> occupying it (1 > 0.75) ends the war.
    make_plain(&mut r, 7, 5);
    let e = at(&r, 7, 5);
    r.plots[e].owner = Some(1);
    for x in 4..8 {
        make_plain(&mut r, x, 5);
    }
    add_unit(&mut r, Unit { id: 1, owner: 0, kind: UnitKind::Cavalry, x: 4, y: 5, hp: 120, moves_left: 99 });
    r.declare_war(0, 1);
    let g = plain_ground(&r);
    r.move_unit(1, 7, 5, &g);
    assert_eq!(r.war_score(0, 1), 1);
    let ev = month(&mut r);
    assert!(
        ev.iter().any(|e| matches!(e, Event::Capitulation { winner: 0, loser: 1, .. })),
        "capitulation expected: {:?}",
        ev
    );
    assert_eq!(r.plots[e].owner, Some(0), "tile annexed by the winner");
    assert_eq!(r.plots[e].occupier, None, "occupation lifted");
    assert!(!r.diplomacy.at_war(0, 1), "peace imposed");
}

#[test]
fn peace_clears_occupation_without_annexation() {
    let mut r = ocean_realm(40, 30);
    give_row(&mut r, 5, 5, 5, 1);
    make_plain(&mut r, 4, 5);
    add_unit(&mut r, Unit { id: 1, owner: 0, kind: UnitKind::Infantry, x: 4, y: 5, hp: 100, moves_left: 99 });
    r.declare_war(0, 1);
    let g = plain_ground(&r);
    r.move_unit(1, 5, 5, &g);
    let i = at(&r, 5, 5);
    assert_eq!(r.plots[i].occupier, Some(0));
    r.make_peace(0, 1);
    assert_eq!(r.plots[i].occupier, None, "peace lifts the occupation");
    assert_eq!(r.plots[i].owner, Some(1), "nothing is annexed without a victory");
}

#[test]
fn war_is_deterministic() {
    let run = || {
        let mut r = ocean_realm(50, 40);
        make_plain(&mut r, 9, 7);
        let e = at(&r, 9, 7);
        r.plots[e].owner = Some(1);
        for x in 5..10 {
            make_plain(&mut r, x, 7);
        }
        add_unit(&mut r, Unit { id: 1, owner: 0, kind: UnitKind::Cavalry, x: 5, y: 7, hp: 120, moves_left: 99 });
        r.declare_war(0, 1);
        let g = plain_ground(&r);
        r.move_unit(1, 9, 7, &g);
        for _ in 0..3 {
            month(&mut r);
        }
        let tiles = vec![[0u32; 10]; r.plots.len()];
        let know = vec![0u32; r.nations.len()];
        enyo::audit::checksum(3, &r, &tiles, &know, &Vec::new())
    };
    assert_eq!(run(), run(), "war (occupation, capitulation) must be deterministic");
}

#[test]
fn declaring_war_on_oneself_is_refused() {
    let mut r = ocean_realm(4, 4);
    let ev = r.declare_war(2, 2);
    assert!(matches!(ev[0], Event::CommandRejected { .. }));
    let ev = r.make_peace(0, 1);
    assert!(matches!(ev[0], Event::CommandRejected { .. }), "no peace without a war");
    r.declare_war(1, 0);
    assert!(r.diplomacy.at_war(0, 1) && r.diplomacy.at_war(1, 0), "war is symmetric");
}
