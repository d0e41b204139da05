//! Military units: discrete agents recruited at barracks and harbours. Each kind
//! has fixed statistics (a single-source table). Everything is integral.

use vstd::prelude::*;

use crate::proto::UnitKind;

verus! {

/// A unit on the map.
#[derive(Debug, Clone, Copy, PartialEq, Eq, Structural)]
pub struct Unit {
    pub id: u32,
    pub owner: u16,
    pub kind: UnitKind,
    pub x: u32,
    pub y: u32,
    /// Current hit points (at most 0 means destroyed).
    pub hp: i32,
    /// Movement points left this turn (refilled every month).
    pub moves_left: u32,
}

/// Fixed statistics of a unit kind.
#[derive(Debug, Clone, Copy, PartialEq, Eq, Structural)]
pub struct UnitStats {
    /// Maximum hit points.
    pub max_hp: i32,
    /// Base damage of an attack.
    pub damage: i32,
    /// Attack range in tiles (Manhattan distance, X wraps). 1 = melee.
    pub range: u32,
    /// Movement points per turn (a plain costs 10).
    pub moves: u32,
    /// Recruitment cost: money (nation) and manpower.
    pub cost_money: i64,
    pub cost_force: i64,
    /// Minimal tier of the iron branch that unlocks the kind.
    pub tech_fer: u8,
    /// Attack penalty (%) when attacking from a heavily wooded tile.
    pub forest_attack_malus: i32,
    /// Attack penalty (%) when attacking from a rough tile.
    pub rough_attack_malus: i32,
    /// Naval unit (moves on water, recruited at a port).
    pub naval: bool,
    /// Transport capacity (number of land units; 0 = none).
    pub capacity: u8,
}

/// A unit carried aboard a galley: its kind and hit points.
#[derive(Debug, Clone, Copy, PartialEq, Eq, Structural)]
pub struct CarriedUnit {
    pub kind: UnitKind,
    pub hp: i32,
}

/// The statistics table.
pub open spec fn stats_of(kind: UnitKind) -> UnitStats {
    match kind {
        UnitKind::Infantry => UnitStats {
            max_hp: 100, damage: 25, range: 1, moves: 30, cost_money: 60, cost_force: 40,
            tech_fer: 0, forest_attack_malus: 0, rough_attack_malus: 0, naval: false, capacity: 0,
        },
        UnitKind::Archer => UnitStats {
            max_hp: 70, damage: 30, range: 2, moves: 25, cost_money: 80, cost_force: 35,
            tech_fer: 1, forest_attack_malus: 40, rough_attack_malus: 0, naval: false, capacity: 0,
        },
        UnitKind::Cavalry => UnitStats {
            max_hp: 120, damage: 35, range: 1, moves: 55, cost_money: 120, cost_force: 55,
            tech_fer: 2, forest_attack_malus: 30, rough_attack_malus: 35, naval: false, capacity: 0,
        },
        UnitKind::Galley => UnitStats {
            max_hp: 80, damage: 20, range: 1, moves: 60, cost_money: 100, cost_force: 30,
            tech_fer: 0, forest_attack_malus: 0, rough_attack_malus: 0, naval: true, capacity: 2,
        },
    }
}

/// Statistics of a unit kind (single source).
pub fn unit_stats(kind: UnitKind) -> (s: UnitStats)
    ensures
        s == stats_of(kind),
{
    match kind {
        UnitKind::Infantry => UnitStats {
            max_hp: 100, damage: 25, range: 1, moves: 30, cost_money: 60, cost_force: 40,
            tech_fer: 0, forest_attack_malus: 0, rough_attack_malus: 0, naval: false, capacity: 0,
        },
        UnitKind::Archer => UnitStats {
            max_hp: 70, damage: 30, range: 2, moves: 25, cost_money: 80, cost_force: 35,
            tech_fer: 1, forest_attack_malus: 40, rough_attack_malus: 0, naval: false, capacity: 0,
        },
        UnitKind::Cavalry => UnitStats {
            max_hp: 120, damage: 35, range: 1, moves: 55, cost_money: 120, cost_force: 55,
            tech_fer: 2, forest_attack_malus: 30, rough_attack_malus: 35, naval: false, capacity: 0,
        },
        UnitKind::Galley => UnitStats {
            max_hp: 80, damage: 20, range: 1, moves: 60, cost_money: 100, cost_force: 30,
            tech_fer: 0, forest_attack_malus: 0, rough_attack_malus: 0, naval: true, capacity: 2,
        },
    }
}

/// Stable code of a kind for the audit checksum.
pub open spec fn code_of(kind: UnitKind) -> u64 {
    match kind {
        UnitKind::Infantry => 1,
        UnitKind::Archer => 2,
        UnitKind::Cavalry => 3,
        UnitKind::Galley => 4,
    }
}

/// Stable code of a kind (audit checksum).
pub fn kind_code(kind: UnitKind) -> (c: u64)
    ensures
        c == code_of(kind),
{
    match kind {
        UnitKind::Infantry => 1,
        UnitKind::Archer => 2,
        UnitKind::Cavalry => 3,
        UnitKind::Galley => 4,
    }
}

/// Distinct kinds have distinct codes: the checksum tells them apart.
pub proof fn lemma_kind_code_injective(a: UnitKind, b: UnitKind)
    ensures
        code_of(a) == code_of(b) ==> a == b,
{
}

} // verus!
