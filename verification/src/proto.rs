//! The language of the game: commands (inputs) and the events they produce.
//!
//! Every state change goes through a [`Command`]; the resulting [`Event`]s form
//! an auditable journal. Rejected commands are reported too (nothing is silent).

use vstd::prelude::*;

verus! {

/// Vocation of a tile (internal economy). A tile carries at most one.
#[derive(Debug, Clone, Copy, PartialEq, Eq, Hash, Structural)]
pub enum Building {
    /// Produces population (growth towards the land's capacity) and eats food.
    City,
    /// Produces materials; pollutes slightly.
    Industry,
    /// Turns materials into money and housing.
    Commerce,
    /// Links tiles into a network (roads); produces nothing.
    Infrastructure,
    /// Produces science (needs a connected commerce).
    Education,
    /// Barracks: produces manpower; recruits land units.
    Military,
    /// Produces food.
    Farm,
    /// Harbour, built on coastal water: produces manpower; recruits galleys.
    Port,
}

/// Kind of military unit; each kind has fixed statistics.
#[derive(Debug, Clone, Copy, PartialEq, Eq, Hash, Structural)]
pub enum UnitKind {
    /// Versatile, sturdy, melee; no terrain penalty.
    Infantry,
    /// Ranged (range 2), fragile, hampered in forest.
    Archer,
    /// Fast and strong, hampered in forest and rough terrain.
    Cavalry,
    /// Naval transport carrying land units.
    Galley,
}

/// An action asked of the simulation.
#[derive(Debug, Clone, PartialEq, Eq, Structural)]
pub enum Command {
    /// Advance the game by one turn (one month).
    Step,
    /// Settle a starting population of a nation on a land tile.
    Settle { x: u32, y: u32, nation: u16, population: u32 },
    /// Expansion: move half of a tile's population to a reachable target.
    Swarm { from_x: u32, from_y: u32, to_x: u32, to_y: u32 },
    /// Invest a nation's knowledge in a branch of the tech tree (0..4).
    Research { nation: u16, branch: u8 },
    /// Build on an owned empty tile if the nation pays the cost.
    Build { x: u32, y: u32, nation: u16, building: Building },
    /// Demolish the building of an owned tile.
    Demolish { x: u32, y: u32, nation: u16 },
    /// Recruit a unit on an owned tile carrying barracks (or a port).
    CreateUnit { x: u32, y: u32, nation: u16, kind: UnitKind },
    /// Move a unit to a tile reachable with its movement points.
    MoveUnit { unit: u32, to_x: u32, to_y: u32 },
    /// Attack an enemy unit in range.
    AttackUnit { unit: u32, x: u32, y: u32 },
    /// Board a land unit on an adjacent galley.
    Embark { unit: u32, transport: u32 },
    /// Land a carried unit on an adjacent land tile.
    Disembark { transport: u32, to_x: u32, to_y: u32 },
    /// Grant resources to a nation (genesis).
    Endow { nation: u16, money: i64, materials: i64, influence: i64, housing: i64, food: i64 },
    /// Declare war on another nation.
    DeclareWar { nation: u16, target: u16 },
    /// Make peace with another nation.
    MakePeace { nation: u16, target: u16 },
    /// [Director] Stir up a grievance.
    DirectorGrievance { from: u16, to: u16, amount: u32 },
    /// [Director] Local calamity.
    DirectorBlight { x: u32, y: u32, amount: u32 },
    /// [Director] Local windfall.
    DirectorWindfall { x: u32, y: u32, amount: u32 },
}

/// Header of a recording: everything needed to recreate the initial world.
#[derive(Debug, Clone, PartialEq, Eq, Structural)]
pub struct Header {
    pub seed: u64,
    pub width: u32,
    pub height: u32,
}

/// Why a command was refused.
#[derive(Debug, Clone, Copy, PartialEq, Eq, Structural)]
pub enum Rejection {
    OutOfMap,
    WaterTile,
    AlreadyOwned,
    SameTile,
    SourceNotOwned,
    SourceTooSmall,
    WaterTarget,
    NotEnoughInfluence,
    OutOfRange,
    InvalidBranch,
    NotEnoughKnowledge,
    SelfWar,
    NotAtWar,
    AlreadyBuilt,
    PortNeedsWater,
    NotCoast,
    WaterOwned,
    NotOwned,
    LandOnly,
    NoResources,
    NothingToDemolish,
    NoPort,
    NoBarracks,
    UnitPresent,
    TechTooLow,
    NoMoney,
    NoManpower,
    UnknownUnit,
    AlreadyThere,
    TileOccupied,
    OutOfMoves,
    UnknownGalley,
    NotTransport,
    ForeignUnit,
    NavalCannotEmbark,
    GalleyNotAdjacent,
    GalleyFull,
    DisembarkOnLand,
    NotAdjacentToGalley,
    GalleyEmpty,
    NoTarget,
    FriendlyTarget,
    TargetNotAtWar,
    InvalidGrievance,
}

/// A fact produced by applying a command to the discrete state of the world.
#[derive(Debug, Clone, PartialEq, Eq, Structural)]
pub enum Event {
    /// A starting population of a nation was settled.
    Settled { nation: u16, x: u32, y: u32, population: u32 },
    /// A nation swarmed from one tile to another (half of the source's
    /// population goes along).
    Swarmed { nation: u16, from_x: u32, from_y: u32, to_x: u32, to_y: u32 },
    /// A nation reached a new tier of a research branch.
    Researched { nation: u16, branch: u8, tier: u8 },
    /// A grievance was raised (a casus belli): a swarm aimed at a foreign tile.
    GrievanceRaised { from: u16, to: u16, x: u32, y: u32 },
    /// A building was built.
    Built { x: u32, y: u32, nation: u16, building: Building },
    /// A building was demolished (money refunded shown).
    Demolished { x: u32, y: u32, building: Building, refund: i64 },
    /// A unit was recruited.
    UnitCreated { unit: u32, nation: u16, kind: UnitKind, x: u32, y: u32 },
    /// A unit moved (movement points spent).
    UnitMoved { unit: u32, to_x: u32, to_y: u32, cost: u32 },
    /// A unit attacked another; `killed` = the defender was destroyed.
    UnitAttacked {
        attacker: u32,
        defender: u32,
        x: u32,
        y: u32,
        damage: i32,
        counter: i32,
        killed: bool,
    },
    /// A unit was destroyed and removed from the world.
    UnitDestroyed { unit: u32, x: u32, y: u32 },
    /// A unit boarded a galley.
    Embarked { unit: u32, transport: u32 },
    /// A carried unit landed.
    Disembarked { transport: u32, kind: UnitKind, x: u32, y: u32 },
    /// A nation capitulated: the winner annexes the tiles it occupied.
    Capitulation { winner: u16, loser: u16, tiles: u32, score: i64 },
    /// A nation was granted resources.
    Endowed { nation: u16 },
    /// A war was declared.
    WarDeclared { nation: u16, target: u16 },
    /// Peace was made.
    PeaceMade { nation: u16, target: u16 },
    /// A command was refused.
    CommandRejected { reason: Rejection },
}

} // verus!
