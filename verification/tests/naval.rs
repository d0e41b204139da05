use enyo::climate::month_of;
use enyo::path::Ground;
use enyo::proto::{Building, Event, Rejection, UnitKind};
use enyo::realm::Realm;
use enyo::tile::{Season, TileKind};
use enyo::unit::{kind_code, unit_stats};

/// Row 2 of a 10 x 5 map: land on x = 0..5, sea beyond; everything else sea.
fn coast() -> Realm {
    let mut kinds = vec![TileKind::Ocean; 50];
    for x in 0..5 {
        kinds[2 * 10 + x] = TileKind::Land;
    }
    Realm::new(10, 5, &kinds)
}

fn calm_ground(r: &Realm) -> Vec<Ground> {
    r.plots
        .iter()
        .map(|p| Ground { kind: p.kind, rugged_pts: 0, rain_pts: 0, sea_rain_pts: 0, ravage_pts: 0, freezing: false })
        .collect()
}

#[test]
fn a_port_and_a_galley_carry_a_unit_across() {
    let mut r = coast();
    r.settle(4, 2, 0, 100);
    r.settle(3, 2, 0, 100);
    r.nations[0].money = 2000;
    r.nations[0].materials = 100;
    r.nations[0].manpower = 500;
    // A port only on water next to the nation's land.
    assert_eq!(r.build(4, 2, 0, Building::Port)[0], Event::CommandRejected { reason: Rejection::PortNeedsWater });
    assert_eq!(r.build(8, 0, 0, Building::Port)[0], Event::CommandRejected { reason: Rejection::NotCoast });
    assert!(matches!(r.build(5, 2, 0, Building::Port)[0], Event::Built { .. }));
    assert_eq!(r.plots[2 * 10 + 5].owner, Some(0), "the port claims its water");
    assert_eq!(r.nations[0].money, 2000 - 100);
    assert_eq!(r.nations[0].materials, 100 - 30);
    // A galley at the port, infantry at the barracks.
    assert!(matches!(r.create_unit(5, 2, 0, UnitKind::Galley)[0], Event::UnitCreated { .. }));
    r.plots[2 * 10 + 3].building = Some(Building::Military);
    assert!(matches!(r.create_unit(3, 2, 0, UnitKind::Infantry)[0], Event::UnitCreated { .. }));
    let galley = r.units[0].id;
    let soldier = r.units[1].id;
    let g = calm_ground(&r);
    // Too far to board, then next to the galley.
    assert_eq!(r.embark(soldier, galley)[0], Event::CommandRejected { reason: Rejection::GalleyNotAdjacent });
    assert!(matches!(r.move_unit(soldier, 4, 2, &g)[0], Event::UnitMoved { .. }));
    assert_eq!(r.embark(soldier, galley)[0], Event::Embarked { unit: soldier, transport: galley });
    assert_eq!(r.units.len(), 1, "the boarded unit leaves the map");
    assert_eq!(r.holds.len(), 1);
    assert_eq!(r.holds[0].load.len(), 1);
    // Landing it back: a new id, no movement left, same health.
    let ev = r.disembark(galley, 4, 2);
    assert_eq!(ev[0], Event::Disembarked { transport: galley, kind: UnitKind::Infantry, x: 4, y: 2 });
    assert_eq!(r.units.len(), 2);
    let landed = r.units[1];
    assert_ne!(landed.id, soldier);
    assert_eq!((landed.x, landed.y, landed.moves_left), (4, 2, 0));
    assert_eq!(landed.hp, unit_stats(UnitKind::Infantry).max_hp);
    assert!(r.holds.is_empty(), "an emptied hold is dropped");
    assert_eq!(r.disembark(galley, 4, 2)[0], Event::CommandRejected { reason: Rejection::TileOccupied });
    assert_eq!(r.disembark(galley, 6, 2)[0], Event::CommandRejected { reason: Rejection::DisembarkOnLand });
}

#[test]
fn galleys_sail_and_cannot_board() {
    let mut r = coast();
    r.settle(4, 2, 0, 100);
    r.nations[0].money = 2000;
    r.nations[0].materials = 100;
    r.nations[0].manpower = 500;
    r.build(5, 2, 0, Building::Port);
    r.create_unit(5, 2, 0, UnitKind::Galley);
    r.create_unit(5, 2, 0, UnitKind::Galley);
    assert_eq!(r.units.len(), 1, "one unit a tile");
    let g = calm_ground(&r);
    let galley = r.units[0].id;
    assert!(matches!(r.move_unit(galley, 7, 2, &g)[0], Event::UnitMoved { .. }));
    assert!(matches!(r.move_unit(galley, 4, 2, &g)[0], Event::CommandRejected { .. }), "a galley stays at sea");
    assert_eq!(r.embark(galley, galley)[0], Event::CommandRejected { reason: Rejection::NavalCannotEmbark });
}

#[test]
fn calendar_and_codes() {
    assert_eq!(month_of(1), 1);
    assert_eq!(month_of(12), 12);
    assert_eq!(month_of(13), 1);
    assert_eq!(month_of(14), month_of(2), "the calendar repeats every year");
    assert_eq!(Season::from_month(1), Season::Winter);
    assert_eq!(Season::from_month(4), Season::Spring);
    assert_eq!(Season::from_month(7), Season::Summer);
    assert_eq!(Season::from_month(10), Season::Autumn);
    let kinds = [UnitKind::Infantry, UnitKind::Archer, UnitKind::Cavalry, UnitKind::Galley];
    for a in kinds {
        for b in kinds {
            assert_eq!(kind_code(a) == kind_code(b), a == b, "codes tell kinds apart");
        }
    }
}

#[test]
fn demolish_and_endow() {
    let mut r = coast();
    r.settle(1, 2, 0, 100);
    r.nations[0].money = 500;
    r.build(1, 2, 0, Building::Industry);
    assert_eq!(r.nations[0].money, 400);
    assert_eq!(r.demolish(2, 2, 0, (0, 0, 0))[0], Event::CommandRejected { reason: Rejection::NotOwned });
    let ev = r.demolish(1, 2, 0, (50, 0, 0));
    assert_eq!(ev[0], Event::Demolished { x: 1, y: 2, building: Building::Industry, refund: 50 });
    assert_eq!(r.nations[0].money, 450);
    assert_eq!(r.plots[2 * 10 + 1].building, None);
    assert_eq!(r.demolish(1, 2, 0, (0, 0, 0))[0], Event::CommandRejected { reason: Rejection::NothingToDemolish });
    // Endowments only add (negative amounts count as nothing).
    r.endow(0, 100, -5, 10, 0, 7);
    assert_eq!(r.nations[0].money, 550);
    assert_eq!(r.nations[0].materials, 0);
    assert_eq!(r.nations[0].food, 7);
    assert_eq!(r.build(1, 2, 0, Building::Education)[0], Event::CommandRejected { reason: Rejection::NoResources });
}
