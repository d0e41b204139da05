//! Nations: actors that own tiles, hold integral resources and climb the four
//! branches of the research ladder; and the integral side of their month:
//! upkeep, trade, food and influence.

use vstd::prelude::*;

verus! {

/// Number of research branches.
pub const BRANCHES: usize = 4;
/// Branch "Essor": expansion range.
pub const ESSOR: usize = 0;
/// Branch "Terroir": carrying capacity.
pub const TERROIR: usize = 1;
/// Branch "Fer": military unit kinds.
pub const FER: usize = 2;
/// Branch "Lien": crossing water.
pub const LIEN: usize = 3;

/// Money stock of a new nation (enough to build its first tiles).
pub const STARTING_MONEY: i64 = 500;
/// Housing of a new nation (enough to found a first city).
pub const STARTING_HOUSING: i64 = 60;
/// Influence of a new nation (enough to expand several times at once).
pub const STARTING_INFLUENCE: i64 = 60;

/// A nation (the player is nation 0). Knowledge, a continuous quantity, is kept
/// by the application next to this integral state.
#[derive(Debug, Clone, Copy, PartialEq, Eq)]
pub struct Nation {
    pub id: u16,
    /// Tier reached in each research branch.
    pub tech: [u8; 4],
    /// Techs unlocked in the tree (bit `i` = tech of id `i`); their effects are
    /// derived, never stored.
    pub techs: u64,
    /// Money: building and monthly upkeep.
    pub money: i64,
    /// Materials: produced by industry, consumed by commerce and construction.
    pub materials: i64,
    /// Influence: spent to expand the territory.
    pub influence: i64,
    /// Housing: produced by commerce; the cost of founding a city.
    pub housing: i64,
    /// Food: produced by farms, eaten by dense cities.
    pub food: i64,
    /// Manpower: produced by barracks and ports, spent to recruit and heal units.
    pub manpower: i64,
}

/// A freshly created nation with the starting stocks.
pub open spec fn fresh_nation(id: u16) -> Nation {
    Nation {
        id,
        tech: [0u8, 0u8, 0u8, 0u8],
        techs: 0,
        money: STARTING_MONEY,
        materials: 0,
        influence: STARTING_INFLUENCE,
        housing: STARTING_HOUSING,
        food: 0,
        manpower: 0,
    }
}

impl Nation {
    /// A new nation with the starting stocks.
    pub fn new(id: u16) -> (n: Self)
        ensures
            n == fresh_nation(id),
    {
        Self {
            id,
            tech: [0u8, 0u8, 0u8, 0u8],
            techs: 0,
            money: STARTING_MONEY,
            materials: 0,
            influence: STARTING_INFLUENCE,
            housing: STARTING_HOUSING,
            food: 0,
            manpower: 0,
        }
    }

    /// The cumulated effects of the techs the nation holds.
    pub fn effects(&self) -> (e: crate::tech::Effects)
        ensures
            e == crate::tech::effects_spec(self.techs),
    {
        crate::tech::effects(self.techs)
    }

    /// Pays a monthly upkeep of `cost` when the treasury holds it, and says
    /// whether it did (an unpaid building idles this month). Upkeep never
    /// drives the money below zero.
    pub fn pay_upkeep(&mut self, cost: i64) -> (paid: bool)
        requires
            0 <= cost,
        ensures
            paid == (old(self).money >= cost),
            paid ==> *final(self) == (Nation { money: (old(self).money - cost) as i64, ..*old(self) }),
            !paid ==> *final(self) == *old(self),
            old(self).money >= 0 ==> final(self).money >= 0,
    {
        if self.money >= cost {
            self.money = self.money - cost;
            true
        } else {
            false
        }
    }

    /// A commerce takes up to `want` materials, never more than the nation
    /// holds, and says how many it took.
    pub fn trade(&mut self, want: i64) -> (used: i64)
        requires
            0 <= want,
        ensures
            used == (if old(self).materials <= 0 { 0 } else if want <= old(self).materials { want } else { old(self).materials }),
            *final(self) == (Nation { materials: (old(self).materials - used) as i64, ..*old(self) }),
            old(self).materials >= 0 ==> final(self).materials >= 0,
    {
        let held = if self.materials > 0 { self.materials } else { 0 };
        let used = if want <= held { want } else { held };
        self.materials = self.materials - used;
        used
    }

    /// The nation eats `consumption` food; when its stock falls short it is
    /// emptied, and the answer is that the nation went hungry.
    pub fn eat(&mut self, consumption: i64) -> (hungry: bool)
        requires
            0 < consumption,
        ensures
            hungry == (old(self).food < consumption),
            *final(self) == (Nation { food: if hungry { 0 } else { (old(self).food - consumption) as i64 }, ..*old(self) }),
            final(self).food >= 0,
    {
        if self.food >= consumption {
            self.food = self.food - consumption;
            false
        } else {
            self.food = 0;
            true
        }
    }

    /// The monthly influence of a nation holding `tiles` tiles, plus
    /// `from_pop` from its population.
    pub fn accrue_influence(&mut self, tiles: i64, from_pop: i64)
        requires
            0 <= tiles <= i64::MAX / INFLUENCE_PER_TILE,
            old(self).influence + INFLUENCE_BASE + tiles * INFLUENCE_PER_TILE + from_pop <= i64::MAX,
            old(self).influence + INFLUENCE_BASE + tiles * INFLUENCE_PER_TILE + from_pop >= i64::MIN,
        ensures
            *final(self) == (Nation {
                influence: (old(self).influence + INFLUENCE_BASE + tiles * INFLUENCE_PER_TILE + from_pop) as i64,
                ..*old(self)
            }),
    {
        let gain = INFLUENCE_BASE as i128 + tiles as i128 * INFLUENCE_PER_TILE as i128 + from_pop as i128;
        self.influence = (self.influence as i128 + gain) as i64;
    }
}

/// Money one material brings when a commerce trades it.
pub const MONEY_PER_MATERIAL: i64 = 3;
/// Housing one material brings when a commerce trades it.
pub const HOUSING_PER_MATERIAL: i64 = 1;
/// Monthly upkeep of a school.
pub const EDUCATION_UPKEEP: i64 = 3;
/// Monthly upkeep of a barracks or a port.
pub const MILITARY_UPKEEP: i64 = 4;
/// Influence every nation with territory gains a month.
pub const INFLUENCE_BASE: i64 = 3;
/// Influence a month per tile held.
pub const INFLUENCE_PER_TILE: i64 = 2;

} // verus!
