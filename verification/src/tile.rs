//! Classification of a tile: its kind, its biome and the season of a month.

use vstd::prelude::*;

verus! {

/// Nature of a tile: land or ocean.
#[derive(Debug, Clone, Copy, PartialEq, Eq, Hash, Structural)]
pub enum TileKind {
    Ocean,
    Land,
}

/// Biome derived from the climate (a simplified Whittaker classification).
#[derive(Debug, Clone, Copy, PartialEq, Eq, Hash, Structural)]
pub enum Biome {
    Ocean,
    Ice,
    Tundra,
    Boreal,
    Grassland,
    Desert,
    TemperateForest,
    Savanna,
    TropicalForest,
}

/// Season, derived from the month.
#[derive(Debug, Clone, Copy, PartialEq, Eq, Hash, Structural)]
pub enum Season {
    Winter,
    Spring,
    Summer,
    Autumn,
}

/// Season (northern hemisphere) of a month number.
pub open spec fn season_of(month: u8) -> Season {
    if month == 12 || month == 1 || month == 2 {
        Season::Winter
    } else if 3 <= month <= 5 {
        Season::Spring
    } else if 6 <= month <= 8 {
        Season::Summer
    } else {
        Season::Autumn
    }
}

impl Season {
    /// Season (northern hemisphere) for a month 1..=12; any other number is
    /// classified as autumn, as the calendar does.
    pub fn from_month(month: u8) -> (s: Season)
        ensures
            s == season_of(month),
    {
        match month {
            12 | 1 | 2 => Season::Winter,
            3..=5 => Season::Spring,
            6..=8 => Season::Summer,
            _ => Season::Autumn,
        }
    }
}

} // verus!
