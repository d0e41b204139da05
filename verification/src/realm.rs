//! The discrete state of the world: who owns, occupies and builds on each tile,
//! the nations' integral resources, the wars, the units and the galleys' cargo.
//!
//! This is where the rules of conquest live: recruitment, movement, combat,
//! embarking and landing, occupation, war score and capitulation, building and
//! demolishing. The continuous layers of a tile (climate, vegetation,
//! population...) are kept by the application, which hands this module the
//! integral quantities it derives from them (movement costs, terrain ratings).

use vstd::prelude::*;

use crate::diplo::{spec_pair, Diplomacy};
use crate::nation::{fresh_nation, Nation, FER, LIEN};
use crate::path::{best_cost, costs_for, lemma_reach_is_best, reach_cost, unit_costs, Ground, IMPASSABLE};
use crate::proto::{Building, Event, Rejection, UnitKind};
use crate::tile::TileKind;
use crate::unit::{stats_of, unit_stats, CarriedUnit, Unit};

verus! {

/// The discrete layer of a tile.
#[derive(Debug, Clone, Copy, PartialEq, Eq, Structural)]
pub struct Plot {
    pub kind: TileKind,
    /// Owning nation.
    pub owner: Option<u16>,
    /// Nation occupying the tile during a war (the tile still belongs to its owner).
    pub occupier: Option<u16>,
    pub building: Option<Building>,
}

/// The load of one galley.
#[derive(Debug, Clone, PartialEq, Eq)]
pub struct Hold {
    pub galley: u32,
    pub load: Vec<CarriedUnit>,
}

/// The discrete state of the world.
#[derive(Debug, Clone)]
pub struct Realm {
    pub width: u32,
    pub height: u32,
    /// One plot per tile, row-major (`y * width + x`).
    pub plots: Vec<Plot>,
    pub nations: Vec<Nation>,
    pub diplomacy: Diplomacy,
    /// Units, in creation order.
    pub units: Vec<Unit>,
    /// Next unit id (monotone, hence stable and replayable ids).
    pub next_unit_id: u32,
    /// Cargo of the galleys, ordered by galley id.
    pub holds: Vec<Hold>,
}

/// A unit of a well-formed realm: on the map, with an id already handed out,
/// alive.
pub open spec fn unit_ok(u: Unit, w: u32, h: u32, next: u32) -> bool {
    &&& u.x < w
    &&& u.y < h
    &&& u.id < next
    &&& 0 < u.hp
}

/// No two units share an id.
pub open spec fn ids_distinct(us: Seq<Unit>) -> bool {
    forall|i: int, j: int| 0 <= i < us.len() && 0 <= j < us.len() && i != j
        ==> #[trigger] us[i].id != #[trigger] us[j].id
}

/// Is unit `u` at (x, y)?
pub open spec fn unit_at(u: Unit, x: u32, y: u32) -> bool {
    u.x == x && u.y == y
}

/// At most one unit stands on a tile.
pub open spec fn one_per_tile(us: Seq<Unit>) -> bool {
    forall|i: int, j: int| 0 <= i < us.len() && 0 <= j < us.len() && i != j
        ==> !unit_at(#[trigger] us[i], us[j].x, us[j].y) || !unit_at(#[trigger] us[j], us[i].x, us[i].y)
}

/// Some unit of `units` stands at (x, y).
pub open spec fn occupied_spec(units: Seq<Unit>, x: u32, y: u32) -> bool {
    exists|i: int| 0 <= i < units.len() && unit_at(#[trigger] units[i], x, y)
}

/// `i` is the first unit of `units` standing at (x, y).
pub open spec fn first_at(units: Seq<Unit>, i: int, x: u32, y: u32) -> bool {
    &&& 0 <= i < units.len()
    &&& unit_at(units[i], x, y)
    &&& forall|j: int| 0 <= j < i ==> !unit_at(#[trigger] units[j], x, y)
}

/// `i` is the unit of id `id` (ids are unique in a well-formed realm).
pub open spec fn with_id(units: Seq<Unit>, i: int, id: u32) -> bool {
    0 <= i < units.len() && units[i].id == id
}

/// Some unit has id `id`.
pub open spec fn has_unit(units: Seq<Unit>, id: u32) -> bool {
    exists|i: int| 0 <= i < units.len() && (#[trigger] units[i]).id == id
}

/// Some nation has id `id`.
pub open spec fn has_nation(ns: Seq<Nation>, id: u16) -> bool {
    exists|i: int| 0 <= i < ns.len() && (#[trigger] ns[i]).id == id
}

/// The nations once `id` is guaranteed to exist (a fresh nation is appended).
pub open spec fn ensured(ns: Seq<Nation>, id: u16) -> Seq<Nation> {
    if has_nation(ns, id) {
        ns
    } else {
        ns.push(fresh_nation(id))
    }
}

/// Position of nation `id` (meaningful when it exists; ids are unique).
pub open spec fn nation_pos(ns: Seq<Nation>, id: u16) -> int {
    choose|i: int| 0 <= i < ns.len() && (#[trigger] ns[i]).id == id
}

/// Manhattan distance with X wrapping around a cylinder of width `w`.
pub open spec fn wrap_dist(x0: int, y0: int, x1: int, y1: int, w: int) -> int {
    let dx = if x0 >= x1 { x0 - x1 } else { x1 - x0 };
    let dxw = if dx <= w - dx { dx } else { w - dx };
    let dy = if y0 >= y1 { y0 - y1 } else { y1 - y0 };
    dxw + dy
}

/// Manhattan distance (X wraps) between two tiles of a map of width `width`.
pub fn wrapped_manhattan(x0: u32, y0: u32, x1: u32, y1: u32, width: u32) -> (d: u32)
    requires
        x0 < width,
        x1 < width,
        wrap_dist(x0 as int, y0 as int, x1 as int, y1 as int, width as int) <= u32::MAX,
    ensures
        d == wrap_dist(x0 as int, y0 as int, x1 as int, y1 as int, width as int),
{
    let dx: u32 = if x0 >= x1 { x0 - x1 } else { x1 - x0 };
    let dxw: u32 = if dx <= width - dx { dx } else { width - dx };
    let dy: u32 = if y0 >= y1 { y0 - y1 } else { y1 - y0 };
    dxw + dy
}

/// Terrain ratings of a tile, quantised from its continuous layers.
#[derive(Debug, Clone, Copy, PartialEq, Eq, Structural)]
pub struct Terrain {
    /// Defence points (%) from vegetation (at most 35 on a full forest).
    pub vegetation_pts: i32,
    /// Defence points (%) from ruggedness (at most 35 on rough land).
    pub rugged_pts: i32,
    /// Defence points (%) from the weather (rain, storm; at most 20).
    pub weather_pts: i32,
    /// Freezing (snow, frost): extra defence.
    pub freezing: bool,
    /// Heavily wooded (an attack penalty for some kinds).
    pub forest: bool,
    /// Rough (an attack penalty for some kinds).
    pub rough: bool,
}

/// Extra defence (%) given by snow and frost.
pub const DEF_SNOW: i32 = 15;
/// Cap of the total defence bonus (%).
pub const DEF_CAP: i32 = 85;

impl Terrain {
    /// Ratings stay within a sane range (they are percentages).
    pub open spec fn wf(&self) -> bool {
        &&& -1000 <= self.vegetation_pts <= 1000
        &&& -1000 <= self.rugged_pts <= 1000
        &&& -1000 <= self.weather_pts <= 1000
    }

    /// Defence bonus (%) of the tile: vegetation + relief + weather (+ snow),
    /// bounded to `0..=DEF_CAP`.
    pub open spec fn defense_spec(&self) -> int {
        let b = self.vegetation_pts + self.rugged_pts + self.weather_pts + if self.freezing { DEF_SNOW as int } else { 0 };
        if b < 0 {
            0
        } else if b > DEF_CAP {
            DEF_CAP as int
        } else {
            b
        }
    }

    /// Defence bonus (%) of the tile.
    pub fn defense_bonus(&self) -> (b: i32)
        requires
            self.wf(),
        ensures
            b == self.defense_spec(),
    {
        let mut b = self.vegetation_pts + self.rugged_pts + self.weather_pts;
        if self.freezing {
            b = b + DEF_SNOW;
        }
        if b < 0 {
            0
        } else if b > DEF_CAP {
            DEF_CAP
        } else {
            b
        }
    }
}

/// Attack penalty (%) of a unit kind attacking from a tile rated `t`.
pub open spec fn malus_spec(kind: UnitKind, t: Terrain) -> int {
    let s = stats_of(kind);
    let m0 = 0int;
    let m1 = if t.forest && s.forest_attack_malus > m0 { s.forest_attack_malus as int } else { m0 };
    if t.rough && s.rough_attack_malus > m1 { s.rough_attack_malus as int } else { m1 }
}

/// Damage dealt by a unit of `kind` attacking from a tile rated `from` onto a
/// tile rated `to`: base × (1 − attacker's terrain penalty) ÷ (1 + defender's
/// terrain bonus), at least 1.
pub open spec fn strike_spec(kind: UnitKind, from: Terrain, to: Terrain) -> int {
    let s = stats_of(kind);
    let d = (s.damage * (100 - malus_spec(kind, from)) / 100) * 100 / (100 + to.defense_spec());
    if d < 1 { 1 } else { d }
}

/// A strike deals between 1 and 35 hit points.
proof fn lemma_strike_range(kind: UnitKind, from: Terrain, to: Terrain)
    ensures
        1 <= strike_spec(kind, from, to) <= 35,
{
    let s = stats_of(kind);
    let m = malus_spec(kind, from);
    let def = to.defense_spec();
    assert(20 <= s.damage <= 35);
    assert(0 <= m <= 40);
    assert(0 <= def);
    assert(0 <= s.damage * (100 - m) <= 3500) by (nonlinear_arith)
        requires 0 <= s.damage <= 35, 0 <= m <= 40;
    let base = s.damage * (100 - m) / 100;
    assert(0 <= base <= 35) by (nonlinear_arith)
        requires base == s.damage * (100 - m) / 100, 0 <= s.damage <= 35, 0 <= m <= 40;
    let d = base * 100 / (100 + def);
    assert(0 <= d <= base) by (nonlinear_arith)
        requires d == base * 100 / (100 + def), 0 <= base, 0 <= def;
}

/// Attack penalty (%) of a unit kind attacking from a tile rated `t`.
pub fn attack_malus(kind: UnitKind, t: &Terrain) -> (m: i32)
    ensures
        m == malus_spec(kind, *t),
        0 <= m <= 40,
{
    let s = unit_stats(kind);
    let mut m: i32 = 0;
    if t.forest && s.forest_attack_malus > m {
        m = s.forest_attack_malus;
    }
    if t.rough && s.rough_attack_malus > m {
        m = s.rough_attack_malus;
    }
    m
}

/// Damage of a strike (see [`strike_spec`]).
pub fn strike(kind: UnitKind, from: &Terrain, to: &Terrain) -> (d: i32)
    requires
        to.wf(),
    ensures
        d == strike_spec(kind, *from, *to),
        1 <= d <= 35,
{
    let s = unit_stats(kind);
    let malus = attack_malus(kind, from);
    let def = to.defense_bonus();
    assert(20 <= s.damage <= 35);
    assert(0 <= s.damage * (100 - malus) <= 3500) by (nonlinear_arith)
        requires 0 <= s.damage <= 35, 0 <= malus <= 40;
    let base = s.damage * (100 - malus) / 100;
    assert(0 <= base <= 35) by (nonlinear_arith)
        requires base == s.damage * (100 - malus) / 100, 0 <= s.damage <= 35, 0 <= malus <= 40;
    let d = base * 100 / (100 + def);
    assert(0 <= d <= base) by (nonlinear_arith)
        requires d == base * 100 / (100 + def), 0 <= base, 0 <= def;
    if d < 1 { 1 } else { d }
}

/// A unit aboard a galley is a land unit, alive.
pub open spec fn carried_ok(c: CarriedUnit) -> bool {
    &&& !stats_of(c.kind).naval
    &&& 0 < c.hp
}

/// The holds are ordered by galley id (so a galley has at most one), none is
/// empty (an emptied hold is dropped) and every passenger is sound.
pub open spec fn holds_ok(hs: Seq<Hold>) -> bool {
    &&& forall|i: int, j: int| 0 <= i < j < hs.len() ==> #[trigger] hs[i].galley < #[trigger] hs[j].galley
    &&& forall|i: int| 0 <= i < hs.len() ==> (#[trigger] hs[i]).load@.len() > 0
    &&& forall|i: int, j: int| 0 <= i < hs.len() && 0 <= j < hs[i].load@.len()
        ==> carried_ok(#[trigger] hs[i].load@[j])
}

/// Some unit on the map has id `g` and can carry troops.
pub open spec fn is_transport(units: Seq<Unit>, g: u32) -> bool {
    exists|i: int| 0 <= i < units.len() && (#[trigger] units[i]).id == g && stats_of(units[i].kind).capacity > 0
}

/// Every hold belongs to a transport that is still on the map.
pub open spec fn holds_carried(units: Seq<Unit>, hs: Seq<Hold>) -> bool {
    forall|g: u32| #[trigger] cargo_of(hs).dom().contains(g) ==> is_transport(units, g)
}

/// Units that keep the ids and kinds of `a` at its positions (a refresh, an
/// update, a push) still carry every hold that `a` carried.
pub proof fn lemma_holds_kept(a: Seq<Unit>, b: Seq<Unit>, hs: Seq<Hold>)
    requires
        holds_carried(a, hs),
        a.len() <= b.len(),
        forall|i: int| 0 <= i < a.len() ==> #[trigger] b[i].id == a[i].id && b[i].kind == a[i].kind,
    ensures
        holds_carried(b, hs),
{
    assert forall|g: u32| #[trigger] cargo_of(hs).dom().contains(g) implies is_transport(b, g) by {
        let i = choose|i: int| 0 <= i < a.len() && (#[trigger] a[i]).id == g && stats_of(a[i].kind).capacity > 0;
        assert(b[i].id == a[i].id);
    }
}

/// Holds that only lose galleys, or gain ones of transports on the map, stay carried.
pub proof fn lemma_holds_fewer(a: Seq<Unit>, hs: Seq<Hold>, hs2: Seq<Hold>)
    requires
        holds_carried(a, hs),
        forall|g: u32| #[trigger] cargo_of(hs2).dom().contains(g)
            ==> cargo_of(hs).dom().contains(g) || is_transport(a, g),
    ensures
        holds_carried(a, hs2),
{
}

/// Removing a unit that carries none of the holds leaves them carried.
pub proof fn lemma_holds_after_loss(a: Seq<Unit>, i: int, hs: Seq<Hold>)
    requires
        holds_carried(a, hs),
        0 <= i < a.len(),
        stats_of(a[i].kind).capacity > 0 ==> !cargo_of(hs).dom().contains(a[i].id),
    ensures
        holds_carried(a.remove(i), hs),
{
    let b = a.remove(i);
    assert forall|g: u32| #[trigger] cargo_of(hs).dom().contains(g) implies is_transport(b, g) by {
        let j = choose|j: int| 0 <= j < a.len() && (#[trigger] a[j]).id == g && stats_of(a[j].kind).capacity > 0;
        assert(j != i);
        if j < i {
            assert(b[j] == a[j]);
        } else {
            assert(b[j - 1] == a[j]);
        }
    }
}

/// Sinking the unit at `i` takes its hold away and leaves the others carried.
pub proof fn lemma_holds_sink(a: Seq<Unit>, i: int, hs: Seq<Hold>)
    requires
        holds_carried(a, hs),
        holds_ok(hs),
        0 <= i < a.len(),
    ensures
        holds_carried(a.remove(i), without_hold(hs, a[i].id)),
{
    let w = without_hold(hs, a[i].id);
    lemma_without_hold_cargo(hs, a[i].id);
    lemma_holds_fewer(a, hs, w);
    lemma_holds_after_loss(a, i, w);
}

/// Sinking galley `id` takes its hold away.
pub proof fn lemma_without_hold_cargo(hs: Seq<Hold>, id: u32)
    requires
        holds_ok(hs),
    ensures
        cargo_of(without_hold(hs, id)) == cargo_of(hs).remove(id),
{
    if has_hold(hs, id) {
        let c = hold_pos(hs, id);
        lemma_cargo_remove(hs, c);
    } else {
        assert(cargo_of(hs).remove(id) =~= cargo_of(hs));
    }
}

/// Does some galley `id` have a hold?
pub open spec fn has_hold(hs: Seq<Hold>, id: u32) -> bool {
    exists|k: int| 0 <= k < hs.len() && (#[trigger] hs[k]).galley == id
}

/// Position of the hold of galley `id` (meaningful when it exists).
pub open spec fn hold_pos(hs: Seq<Hold>, id: u32) -> int {
    choose|k: int| 0 <= k < hs.len() && (#[trigger] hs[k]).galley == id
}

/// The holds without the one of galley `id` (a sunk galley loses its cargo).
pub open spec fn without_hold(hs: Seq<Hold>, id: u32) -> Seq<Hold> {
    if has_hold(hs, id) {
        hs.remove(hold_pos(hs, id))
    } else {
        hs
    }
}

/// What each galley carries, by galley id.
pub open spec fn cargo_of(hs: Seq<Hold>) -> Map<u32, Seq<CarriedUnit>> {
    Map::new(|g: u32| has_hold(hs, g), |g: u32| hs[hold_pos(hs, g)].load@)
}

/// What galley `g` carries (nothing when it has no hold).
pub open spec fn load_of(hs: Seq<Hold>, g: u32) -> Seq<CarriedUnit> {
    if has_hold(hs, g) {
        hs[hold_pos(hs, g)].load@
    } else {
        Seq::empty()
    }
}

/// Position of the unit of id `id` (meaningful when it exists; ids are unique).
pub open spec fn unit_pos(us: Seq<Unit>, id: u32) -> int {
    choose|i: int| with_id(us, i, id)
}

/// Position of the first unit standing on (x, y) (meaningful when occupied).
pub open spec fn pos_at(us: Seq<Unit>, x: u32, y: u32) -> int {
    choose|i: int| first_at(us, i, x, y)
}

/// War-score value of a tile: empty 1, building 5, city 10.
pub open spec fn plot_value(p: Plot) -> int {
    match p.building {
        Some(Building::City) => 10,
        Some(_) => 5,
        None => 1,
    }
}

/// Total value of the tiles owned by `n`.
pub open spec fn value_owned(ps: Seq<Plot>, n: u16) -> int
    decreases ps.len(),
{
    if ps.len() == 0 {
        0
    } else {
        value_owned(ps.drop_last(), n) + if ps.last().owner == Some(n) { plot_value(ps.last()) } else { 0 }
    }
}

/// Total value of the tiles of `def` that `att` occupies.
pub open spec fn value_occupied(ps: Seq<Plot>, att: u16, def: u16) -> int
    decreases ps.len(),
{
    if ps.len() == 0 {
        0
    } else {
        value_occupied(ps.drop_last(), att, def) + if ps.last().owner == Some(def) && ps.last().occupier == Some(att) {
            plot_value(ps.last())
        } else {
            0
        }
    }
}

/// Number of tiles of `def` that `att` occupies.
pub open spec fn count_occupied(ps: Seq<Plot>, att: u16, def: u16) -> int
    decreases ps.len(),
{
    if ps.len() == 0 {
        0
    } else {
        count_occupied(ps.drop_last(), att, def) + if ps.last().owner == Some(def) && ps.last().occupier == Some(att) {
            1int
        } else {
            0
        }
    }
}

/// The tile once the occupations between `a` and `b` are lifted.
pub open spec fn lift_occupation(p: Plot, a: u16, b: u16) -> Plot {
    if (p.occupier == Some(a) && p.owner == Some(b)) || (p.occupier == Some(b) && p.owner == Some(a)) {
        Plot { occupier: None, ..p }
    } else {
        p
    }
}

/// The tile once `att`, having won against `def`, annexes what it occupies.
pub open spec fn annex(p: Plot, att: u16, def: u16) -> Plot {
    if p.owner == Some(def) && p.occupier == Some(att) {
        Plot { owner: Some(att), occupier: None, ..p }
    } else {
        p
    }
}

/// The tile once a unit of `mover` stands on it, given whether `mover` is at
/// war with the tile's owner: its own tile is freed; an enemy tile at war
/// becomes occupied (and stays so until peace or recapture).
pub open spec fn step_on(p: Plot, mover: u16, at_war_with_owner: bool) -> Plot {
    match p.owner {
        Some(o) => if o == mover {
            Plot { occupier: None, ..p }
        } else if at_war_with_owner {
            Plot { occupier: Some(mover), ..p }
        } else {
            p
        },
        None => p,
    }
}

/// Does `att` win its war against `def` (a war in progress, and strictly more
/// than three quarters of the value of `def`'s territory occupied by `att`)?
pub open spec fn wins_war(ps: Seq<Plot>, ws: Seq<(u16, u16)>, att: u16, def: u16) -> bool {
    &&& ws.contains(spec_pair(att, def))
    &&& value_owned(ps, def) > 0
    &&& value_occupied(ps, att, def) * 4 > value_owned(ps, def) * 3
}

/// The tiles after `att`'s victory over `def`.
pub open spec fn after_victory(ps: Seq<Plot>, att: u16, def: u16) -> Seq<Plot> {
    Seq::new(ps.len(), |i: int| lift_occupation(annex(ps[i], att, def), att, def))
}

/// Tiles, wars and events after checking whether `def` capitulates to `att`.
pub open spec fn settle_war(ps: Seq<Plot>, ws: Seq<(u16, u16)>, att: u16, def: u16)
    -> (Seq<Plot>, Seq<(u16, u16)>, Seq<Event>)
{
    if wins_war(ps, ws, att, def) {
        (
            after_victory(ps, att, def),
            crate::diplo::drop_pair(ws, spec_pair(att, def)),
            seq![Event::Capitulation {
                winner: att,
                loser: def,
                tiles: count_occupied(ps, att, def) as u32,
                score: value_occupied(ps, att, def) as i64,
            }],
        )
    } else {
        (ps, ws, Seq::empty())
    }
}

/// Tiles, wars and events after checking, war after war in `list`, first
/// whether the second side capitulates to the first, then the converse.
pub open spec fn settle_wars(ps: Seq<Plot>, ws: Seq<(u16, u16)>, list: Seq<(u16, u16)>)
    -> (Seq<Plot>, Seq<(u16, u16)>, Seq<Event>)
    decreases list.len(),
{
    if list.len() == 0 {
        (ps, ws, Seq::empty())
    } else {
        let prev = settle_wars(ps, ws, list.drop_last());
        let a = list.last().0;
        let b = list.last().1;
        let one = settle_war(prev.0, prev.1, a, b);
        let two = settle_war(one.0, one.1, b, a);
        (two.0, two.1, prev.2 + one.2 + two.2)
    }
}

/// Hit points a unit standing on its own territory recovers this month, given
/// the manpower of its nation (capped by the regeneration rate and its wounds).
pub open spec fn heal_amount(u: Unit, manpower: i64) -> i32 {
    let wound = stats_of(u.kind).max_hp - u.hp;
    let avail = (if manpower < 0 { 0 } else { manpower }) as i32;
    let a = if UNIT_REGEN_HP <= wound { UNIT_REGEN_HP as int } else { wound };
    (if a <= avail { a } else { avail as int }) as i32
}

/// Units and nations after unit `i` regenerates (on its own territory, with
/// its nation paying the hit points back in manpower).
pub open spec fn regen_step(us: Seq<Unit>, ns: Seq<Nation>, ps: Seq<Plot>, w: u32, i: int)
    -> (Seq<Unit>, Seq<Nation>)
{
    let u = us[i];
    if u.hp >= stats_of(u.kind).max_hp || ps[u.y * w + u.x].owner != Some(u.owner)
        || !has_nation(ns, u.owner) {
        (us, ns)
    } else {
        let k = nation_pos(ns, u.owner);
        let heal = heal_amount(u, ns[k].manpower);
        if heal > 0 {
            (
                us.update(i, Unit { hp: (u.hp + heal) as i32, ..u }),
                ns.update(k, Nation { manpower: (ns[k].manpower - heal) as i64, ..ns[k] }),
            )
        } else {
            (us, ns)
        }
    }
}

/// Units and nations after the first `n` units have regenerated, in order.
pub open spec fn regen_upto(us: Seq<Unit>, ns: Seq<Nation>, ps: Seq<Plot>, w: u32, n: nat)
    -> (Seq<Unit>, Seq<Nation>)
    decreases n,
{
    if n == 0 {
        (us, ns)
    } else {
        let prev = regen_upto(us, ns, ps, w, (n - 1) as nat);
        regen_step(prev.0, prev.1, ps, w, n - 1)
    }
}

/// The units with their movement points refilled.
pub open spec fn refilled(us: Seq<Unit>) -> Seq<Unit> {
    Seq::new(us.len(), |i: int| Unit { moves_left: stats_of(us[i].kind).moves, ..us[i] })
}

/// Hit points regenerated per month on the national territory.
pub const UNIT_REGEN_HP: i32 = 8;

proof fn lemma_value_bounds(ps: Seq<Plot>, a: u16, d: u16)
    ensures
        0 <= value_owned(ps, d) <= 10 * ps.len(),
        0 <= value_occupied(ps, a, d) <= 10 * ps.len(),
        0 <= count_occupied(ps, a, d) <= ps.len(),
        value_occupied(ps, a, d) <= value_owned(ps, d),
    decreases ps.len(),
{
    if ps.len() > 0 {
        lemma_value_bounds(ps.drop_last(), a, d);
    }
}

proof fn lemma_take_last<T>(s: Seq<T>, i: int)
    requires
        0 <= i < s.len(),
    ensures
        s.take(i + 1).drop_last() == s.take(i),
        s.take(i + 1).last() == s[i],
{
    assert(s.take(i + 1).drop_last() =~= s.take(i));
}

/// Do all units stand on the map, with sound hit points and ids below `next`?
fn units_sound(us: &Vec<Unit>, w: u32, h: u32, next: u32) -> (b: bool)
    ensures
        b == forall|i: int| 0 <= i < us@.len() ==> unit_ok(#[trigger] us@[i], w, h, next),
{
    let mut i: usize = 0;
    while i < us.len()
        invariant
            0 <= i <= us@.len(),
            forall|k: int| 0 <= k < i ==> unit_ok(#[trigger] us@[k], w, h, next),
        decreases us.len() - i,
    {
        let u = us[i];
        if !(u.x < w && u.y < h && u.id < next && 0 < u.hp) {
            proof {
                assert(!unit_ok(us@[i as int], w, h, next));
            }
            return false;
        }
        i = i + 1;
    }
    true
}

/// Are the ids of the units distinct, and do they stand on distinct tiles?
fn units_apart(us: &Vec<Unit>) -> (b: bool)
    ensures
        b == (ids_distinct(us@) && one_per_tile(us@)),
{
    let mut i: usize = 0;
    while i < us.len()
        invariant
            0 <= i <= us@.len(),
            forall|a: int, c: int| 0 <= a < i && 0 <= c < i && a != c ==> #[trigger] us@[a].id != #[trigger] us@[c].id,
            forall|a: int, c: int| 0 <= a < i && 0 <= c < i && a != c
                ==> !unit_at(#[trigger] us@[a], us@[c].x, us@[c].y) || !unit_at(#[trigger] us@[c], us@[a].x, us@[a].y),
        decreases us.len() - i,
    {
        let u = us[i];
        let mut j: usize = 0;
        while j < i
            invariant
                0 <= j <= i < us@.len(),
                u == us@[i as int],
                forall|c: int| 0 <= c < j ==> u.id != #[trigger] us@[c].id,
                forall|c: int| 0 <= c < j ==> !unit_at(#[trigger] us@[c], u.x, u.y),
            decreases i - j,
        {
            let v = us[j];
            if v.id == u.id {
                proof {
                    assert(us@[j as int].id == us@[i as int].id);
                    assert(!ids_distinct(us@));
                }
                return false;
            }
            if v.x == u.x && v.y == u.y {
                proof {
                    assert(unit_at(us@[j as int], us@[i as int].x, us@[i as int].y));
                    assert(unit_at(us@[i as int], us@[j as int].x, us@[j as int].y));
                    assert(!one_per_tile(us@));
                }
                return false;
            }
            j = j + 1;
        }
        i = i + 1;
    }
    true
}

/// Are the ids of the nations distinct?
fn nations_apart(ns: &Vec<Nation>) -> (b: bool)
    ensures
        b == forall|i: int, j: int| 0 <= i < ns@.len() && 0 <= j < ns@.len() && i != j
            ==> #[trigger] ns@[i].id != #[trigger] ns@[j].id,
{
    let mut i: usize = 0;
    while i < ns.len()
        invariant
            0 <= i <= ns@.len(),
            forall|a: int, c: int| 0 <= a < i && 0 <= c < i && a != c ==> #[trigger] ns@[a].id != #[trigger] ns@[c].id,
        decreases ns.len() - i,
    {
        let id = ns[i].id;
        let mut j: usize = 0;
        while j < i
            invariant
                0 <= j <= i < ns@.len(),
                id == ns@[i as int].id,
                forall|c: int| 0 <= c < j ==> id != #[trigger] ns@[c].id,
            decreases i - j,
        {
            if ns[j].id == id {
                proof {
                    assert(ns@[j as int].id == ns@[i as int].id);
                }
                return false;
            }
            j = j + 1;
        }
        i = i + 1;
    }
    true
}

/// Are the holds in galley order, none empty, every passenger sound?
fn holds_sound(hs: &Vec<Hold>) -> (b: bool)
    ensures
        b == holds_ok(hs@),
{
    let mut i: usize = 0;
    while i < hs.len()
        invariant
            0 <= i <= hs@.len(),
            forall|a: int, c: int| 0 <= a < c < i ==> #[trigger] hs@[a].galley < #[trigger] hs@[c].galley,
            forall|a: int| 0 <= a < i ==> (#[trigger] hs@[a]).load@.len() > 0,
            forall|a: int, c: int| 0 <= a < i && 0 <= c < hs@[a].load@.len() ==> carried_ok(#[trigger] hs@[a].load@[c]),
        decreases hs.len() - i,
    {
        if hs[i].load.len() == 0 {
            return false;
        }
        if i > 0 && hs[i - 1].galley >= hs[i].galley {
            proof {
                assert(!(hs@[i - 1].galley < hs@[i as int].galley));
            }
            return false;
        }
        let mut c: usize = 0;
        while c < hs[i].load.len()
            invariant
                0 <= i < hs@.len(),
                0 <= c <= hs@[i as int].load@.len(),
                forall|e: int| 0 <= e < c ==> carried_ok(#[trigger] hs@[i as int].load@[e]),
            decreases hs@[i as int].load@.len() - c,
        {
            let p = hs[i].load[c];
            let s = unit_stats(p.kind);
            if s.naval || p.hp <= 0 {
                proof {
                    assert(!carried_ok(hs@[i as int].load@[c as int]));
                }
                return false;
            }
            c = c + 1;
        }
        proof {
            assert forall|a: int, e: int| 0 <= a < e < i + 1 implies #[trigger] hs@[a].galley < #[trigger] hs@[e].galley by {
                if e == i && a < i - 1 {
                    assert(hs@[a].galley < hs@[i - 1].galley);
                }
            }
        }
        i = i + 1;
    }
    true
}

/// Does every hold belong to a transport on the map?
fn carried_sound(us: &Vec<Unit>, hs: &Vec<Hold>) -> (b: bool)
    ensures
        b == holds_carried(us@, hs@),
{
    let mut i: usize = 0;
    while i < hs.len()
        invariant
            0 <= i <= hs@.len(),
            forall|a: int| 0 <= a < i ==> is_transport(us@, #[trigger] hs@[a].galley),
        decreases hs.len() - i,
    {
        let g = hs[i].galley;
        let mut j: usize = 0;
        let mut found = false;
        while j < us.len()
            invariant
                0 <= j <= us@.len(),
                found ==> is_transport(us@, g),
                !found ==> forall|c: int| 0 <= c < j ==> !((#[trigger] us@[c]).id == g && stats_of(us@[c].kind).capacity > 0),
            decreases us.len() - j,
        {
            if us[j].id == g && unit_stats(us[j].kind).capacity > 0 {
                proof {
                    assert(us@[j as int].id == g);
                }
                found = true;
            }
            j = j + 1;
        }
        if !found {
            proof {
                assert(has_hold(hs@, g));
                assert(cargo_of(hs@).dom().contains(g));
            }
            return false;
        }
        i = i + 1;
    }
    proof {
        assert forall|g: u32| #[trigger] cargo_of(hs@).dom().contains(g) implies is_transport(us@, g) by {
            let k = choose|k: int| 0 <= k < hs@.len() && (#[trigger] hs@[k]).galley == g;
            assert(is_transport(us@, hs@[k].galley));
        }
    }
    true
}

/// Value of a tile for the war score.
pub fn tile_value(p: &Plot) -> (v: i64)
    ensures
        v == plot_value(*p),
{
    match p.building {
        Some(Building::City) => 10,
        Some(_) => 5,
        None => 1,
    }
}

/// Indices of the tiles among the first `k` of `ps` that `nation` owns, in
/// increasing order.
pub open spec fn owned_list(ps: Seq<Plot>, nation: u16, k: int) -> Seq<usize>
    decreases k,
{
    if k <= 0 {
        Seq::empty()
    } else {
        let before = owned_list(ps, nation, k - 1);
        if ps[k - 1].owner == Some(nation) {
            before.push((k - 1) as usize)
        } else {
            before
        }
    }
}

/// [`owned_list`] holds exactly the owned indices below `k`, each once, increasing.
proof fn lemma_owned_list(ps: Seq<Plot>, nation: u16, k: int)
    requires
        0 <= k <= ps.len(),
        ps.len() <= usize::MAX,
    ensures
        ({
            let l = owned_list(ps, nation, k);
            &&& forall|j: int| 0 <= j < l.len() ==> (#[trigger] l[j]) < k && ps[l[j] as int].owner == Some(nation)
            &&& forall|j: int, m: int| 0 <= j < m < l.len() ==> #[trigger] l[j] < #[trigger] l[m]
            &&& forall|i: int| 0 <= i < k && ps[i].owner == Some(nation) ==> #[trigger] l.contains(i as usize)
        }),
    decreases k,
{
    if k > 0 {
        lemma_owned_list(ps, nation, k - 1);
        let before = owned_list(ps, nation, k - 1);
        let l = owned_list(ps, nation, k);
        assert forall|i: int| 0 <= i < k && ps[i].owner == Some(nation) implies #[trigger] l.contains(i as usize) by {
            if i < k - 1 {
                assert(before.contains(i as usize));
                let j = choose|j: int| 0 <= j < before.len() && before[j] == i as usize;
                assert(l[j] == i as usize);
            } else {
                assert(l[l.len() - 1] == i as usize);
            }
        }
    }
}

impl Realm {
    /// Index of (x, y).
    pub open spec fn idx(&self, x: u32, y: u32) -> int {
        y as int * self.width as int + x as int
    }

    /// Well-formedness of the realm.
    pub open spec fn wf(&self) -> bool {
        &&& self.width > 0
        &&& self.height > 0
        &&& self.plots@.len() == self.width as int * self.height as int
        &&& self.plots@.len() <= u32::MAX
        &&& self.diplomacy.wf()
        &&& forall|i: int| 0 <= i < self.units@.len()
            ==> unit_ok(#[trigger] self.units@[i], self.width, self.height, self.next_unit_id)
        &&& ids_distinct(self.units@)
        &&& one_per_tile(self.units@)
        &&& forall|i: int, j: int|
            0 <= i < self.nations@.len() && 0 <= j < self.nations@.len() && i != j
                ==> #[trigger] self.nations@[i].id != #[trigger] self.nations@[j].id
        &&& holds_ok(self.holds@)
        &&& holds_carried(self.units@, self.holds@)
    }

    /// Checks [`Realm::wf`] (for a state read back from outside).
    pub fn is_sound(&self) -> (b: bool)
        ensures
            b == self.wf(),
    {
        let w = self.width as u64;
        let h = self.height as u64;
        assert(w * h <= 0xffff_ffff_ffff_ffffu64) by (nonlinear_arith)
            requires
                w <= 0xffff_ffff,
                h <= 0xffff_ffff,
        ;
        self.width > 0 && self.height > 0
            && (self.plots.len() as u64) == w * h
            && self.plots.len() <= u32::MAX as usize
            && self.diplomacy.is_sound()
            && units_sound(&self.units, self.width, self.height, self.next_unit_id)
            && units_apart(&self.units)
            && nations_apart(&self.nations)
            && holds_sound(&self.holds)
            && carried_sound(&self.units, &self.holds)
    }

    /// The tiles `nation` owns, by increasing index: each owned tile once, and
    /// nothing else.
    pub fn owned_tiles(&self, nation: u16) -> (r: Vec<usize>)
        ensures
            r@ == owned_list(self.plots@, nation, self.plots@.len() as int),
            forall|j: int| 0 <= j < r@.len() ==> (#[trigger] r@[j]) < self.plots@.len()
                && self.plots@[r@[j] as int].owner == Some(nation),
            forall|j: int, m: int| 0 <= j < m < r@.len() ==> #[trigger] r@[j] < #[trigger] r@[m],
            forall|i: int| 0 <= i < self.plots@.len() && self.plots@[i].owner == Some(nation)
                ==> #[trigger] r@.contains(i as usize),
    {
        let mut r: Vec<usize> = Vec::new();
        let mut i: usize = 0;
        while i < self.plots.len()
            invariant
                0 <= i <= self.plots@.len(),
                r@ == owned_list(self.plots@, nation, i as int),
            decreases self.plots.len() - i,
        {
            if self.plots[i].owner == Some(nation) {
                r.push(i);
            }
            i = i + 1;
        }
        proof {
            lemma_owned_list(self.plots@, nation, self.plots@.len() as int);
        }
        r
    }

    /// A realm of `width` × `height` tiles of the given kinds, unowned and empty.
    pub fn new(width: u32, height: u32, kinds: &Vec<TileKind>) -> (r: Self)
        requires
            width > 0,
            height > 0,
            kinds@.len() == width as int * height as int,
            kinds@.len() <= u32::MAX,
        ensures
            r.wf(),
            r.width == width,
            r.height == height,
            r.plots@.len() == kinds@.len(),
            forall|i: int| 0 <= i < kinds@.len() ==> #[trigger] r.plots@[i] == (Plot {
                kind: kinds@[i],
                owner: None,
                occupier: None,
                building: None,
            }),
            r.nations@.len() == 0,
            r.units@.len() == 0,
            r.holds@.len() == 0,
            r.diplomacy@.len() == 0,
            r.next_unit_id == 1,
    {
        let mut plots: Vec<Plot> = Vec::new();
        let mut i: usize = 0;
        while i < kinds.len()
            invariant
                0 <= i <= kinds.len(),
                plots@.len() == i,
                forall|j: int| 0 <= j < i ==> #[trigger] plots@[j] == (Plot {
                    kind: kinds@[j],
                    owner: None,
                    occupier: None,
                    building: None,
                }),
            decreases kinds.len() - i,
        {
            plots.push(Plot { kind: kinds[i], owner: None, occupier: None, building: None });
            i = i + 1;
        }
        Realm {
            width,
            height,
            plots,
            nations: Vec::new(),
            diplomacy: Diplomacy::new(),
            units: Vec::new(),
            next_unit_id: 1,
            holds: Vec::new(),
        }
    }

    /// Linear index of (x, y).
    pub fn index(&self, x: u32, y: u32) -> (i: usize)
        requires
            self.wf(),
            x < self.width,
            y < self.height,
        ensures
            i == self.idx(x, y),
            i < self.plots@.len(),
    {
        let n = self.plots.len();
        proof {
            assert(y as int * self.width as int + x < self.width as int * self.height as int) by (nonlinear_arith)
                requires
                    x < self.width,
                    y < self.height;
        }
        y as usize * self.width as usize + x as usize
    }

    /// Position of the first unit standing on (x, y), if any.
    pub fn unit_index_at(&self, x: u32, y: u32) -> (r: Option<usize>)
        ensures
            r matches Some(i) ==> first_at(self.units@, i as int, x, y),
            r is None ==> !occupied_spec(self.units@, x, y),
    {
        let mut i: usize = 0;
        while i < self.units.len()
            invariant
                0 <= i <= self.units.len(),
                forall|j: int| 0 <= j < i ==> !unit_at(#[trigger] self.units@[j], x, y),
            decreases self.units.len() - i,
        {
            if self.units[i].x == x && self.units[i].y == y {
                return Some(i);
            }
            i = i + 1;
        }
        None
    }

    /// Position of the unit of id `id`, if any.
    pub fn unit_index_by_id(&self, id: u32) -> (r: Option<usize>)
        ensures
            r matches Some(i) ==> with_id(self.units@, i as int, id),
            r is None ==> !has_unit(self.units@, id),
    {
        let mut i: usize = 0;
        while i < self.units.len()
            invariant
                0 <= i <= self.units.len(),
                forall|j: int| 0 <= j < i ==> (#[trigger] self.units@[j]).id != id,
            decreases self.units.len() - i,
        {
            if self.units[i].id == id {
                return Some(i);
            }
            i = i + 1;
        }
        None
    }

    /// Is there a unit on (x, y)?
    pub fn unit_occupied(&self, x: u32, y: u32) -> (r: bool)
        ensures
            r == occupied_spec(self.units@, x, y),
    {
        self.unit_index_at(x, y).is_some()
    }

    /// Position of nation `id`, if it exists.
    pub fn nation_index(&self, id: u16) -> (r: Option<usize>)
        requires
            self.wf(),
        ensures
            r matches Some(i) ==> i < self.nations@.len() && self.nations@[i as int].id == id
                && i == nation_pos(self.nations@, id),
            r is None ==> !has_nation(self.nations@, id),
    {
        let mut i: usize = 0;
        while i < self.nations.len()
            invariant
                0 <= i <= self.nations.len(),
                self.wf(),
                forall|j: int| 0 <= j < i ==> (#[trigger] self.nations@[j]).id != id,
            decreases self.nations.len() - i,
        {
            if self.nations[i].id == id {
                proof {
                    let k = nation_pos(self.nations@, id);
                    assert(self.nations@[i as int].id == id);
                    if k != i {
                        assert(self.nations@[k].id == self.nations@[i as int].id);
                    }
                }
                return Some(i);
            }
            i = i + 1;
        }
        None
    }

    /// Creates nation `id` if absent; returns its position.
    pub fn ensure_nation(&mut self, id: u16) -> (i: usize)
        requires
            old(self).wf(),
        ensures
            final(self).wf(),
            final(self).nations@ == ensured(old(self).nations@, id),
            i == nation_pos(final(self).nations@, id),
            i < final(self).nations@.len(),
            final(self).nations@[i as int].id == id,
            final(self).width == old(self).width,
            final(self).height == old(self).height,
            final(self).plots == old(self).plots,
            final(self).units == old(self).units,
            final(self).next_unit_id == old(self).next_unit_id,
            final(self).holds == old(self).holds,
            final(self).diplomacy == old(self).diplomacy,
    {
        match self.nation_index(id) {
            Some(i) => i,
            None => {
                self.nations.push(Nation::new(id));
                let i = self.nations.len() - 1;
                proof {
                    let ns = self.nations@;
                    assert(ns[i as int].id == id);
                    assert forall|a: int, b: int|
                        0 <= a < ns.len() && 0 <= b < ns.len() && a != b
                            implies #[trigger] ns[a].id != #[trigger] ns[b].id by {
                        if a < ns.len() - 1 && b < ns.len() - 1 {
                            assert(old(self).nations@[a] == ns[a]);
                            assert(old(self).nations@[b] == ns[b]);
                        } else if a == ns.len() - 1 {
                            assert(old(self).nations@[b] == ns[b]);
                        } else {
                            assert(old(self).nations@[a] == ns[a]);
                        }
                    }
                    let k = nation_pos(ns, id);
                    assert(ns[k].id == id);
                    if k != i {
                        assert(ns[k].id == ns[i as int].id);
                    }
                }
                i
            },
        }
    }

    /// The realm is unchanged apart from its nations.
    pub open spec fn same_but_nations(&self, other: &Realm) -> bool {
        &&& self.width == other.width
        &&& self.height == other.height
        &&& self.plots == other.plots
        &&& self.diplomacy == other.diplomacy
        &&& self.units == other.units
        &&& self.next_unit_id == other.next_unit_id
        &&& self.holds == other.holds
    }

    /// Reason (checked in this order) why recruiting on (x, y) is refused before
    /// the nation's means are looked at.
    pub open spec fn recruit_site_refusal(&self, x: u32, y: u32, nation: u16, kind: UnitKind) -> Option<Rejection> {
        let s = stats_of(kind);
        if x >= self.width || y >= self.height {
            Some(Rejection::OutOfMap)
        } else if self.plots@[self.idx(x, y)].owner != Some(nation) {
            Some(Rejection::NotOwned)
        } else if self.plots@[self.idx(x, y)].building != Some(if s.naval { Building::Port } else { Building::Military }) {
            Some(if s.naval { Rejection::NoPort } else { Rejection::NoBarracks })
        } else if occupied_spec(self.units@, x, y) {
            Some(Rejection::UnitPresent)
        } else {
            None
        }
    }

    /// Reason (checked in this order) why a nation in state `n` cannot pay for a unit.
    pub open spec fn recruit_means_refusal(n: Nation, kind: UnitKind) -> Option<Rejection> {
        let s = stats_of(kind);
        if n.tech@[FER as int] < s.tech_fer {
            Some(Rejection::TechTooLow)
        } else if n.money < s.cost_money {
            Some(Rejection::NoMoney)
        } else if n.manpower < s.cost_force {
            Some(Rejection::NoManpower)
        } else {
            None
        }
    }

    /// Recruits a unit on an owned tile carrying barracks (land units) or a port
    /// (galleys). Costs the nation money and manpower; the kind is gated by the
    /// iron branch. The new unit has full hit points and movement.
    pub fn create_unit(&mut self, x: u32, y: u32, nation: u16, kind: UnitKind) -> (events: Vec<Event>)
        requires
            old(self).wf(),
            old(self).next_unit_id < u32::MAX,
        ensures
            final(self).wf(),
            ({
                let site = old(self).recruit_site_refusal(x, y, nation, kind);
                let ns = ensured(old(self).nations@, nation);
                let k = nation_pos(ns, nation);
                let s = stats_of(kind);
                match site {
                    Some(reason) => {
                        &&& events@ == seq![Event::CommandRejected { reason }]
                        &&& final(self).nations@ == old(self).nations@
                        &&& final(self).same_but_nations(old(self))
                    },
                    None => match Self::recruit_means_refusal(ns[k], kind) {
                        Some(reason) => {
                            &&& events@ == seq![Event::CommandRejected { reason }]
                            &&& final(self).nations@ == ns
                            &&& final(self).same_but_nations(old(self))
                        },
                        None => {
                            let id = old(self).next_unit_id;
                            &&& events@ == seq![Event::UnitCreated { unit: id, nation, kind, x, y }]
                            &&& final(self).nations@ == ns.update(k, Nation {
                                money: (ns[k].money - s.cost_money) as i64,
                                manpower: (ns[k].manpower - s.cost_force) as i64,
                                ..ns[k]
                            })
                            &&& final(self).units@ == old(self).units@.push(Unit {
                                id, owner: nation, kind, x, y, hp: s.max_hp, moves_left: s.moves,
                            })
                            &&& final(self).next_unit_id == id + 1
                            &&& final(self).width == old(self).width
                            &&& final(self).height == old(self).height
                            &&& final(self).plots == old(self).plots
                            &&& final(self).diplomacy == old(self).diplomacy
                            &&& final(self).holds == old(self).holds
                        },
                    },
                }
            }),
    {
        if x >= self.width || y >= self.height {
            return vec![Event::CommandRejected { reason: Rejection::OutOfMap }];
        }
        let idx = self.index(x, y);
        if self.plots[idx].owner != Some(nation) {
            return vec![Event::CommandRejected { reason: Rejection::NotOwned }];
        }
        let stats = unit_stats(kind);
        let needed = if stats.naval { Building::Port } else { Building::Military };
        if self.plots[idx].building != Some(needed) {
            let reason = if stats.naval { Rejection::NoPort } else { Rejection::NoBarracks };
            return vec![Event::CommandRejected { reason }];
        }
        if self.unit_occupied(x, y) {
            return vec![Event::CommandRejected { reason: Rejection::UnitPresent }];
        }
        let ni = self.ensure_nation(nation);
        if self.nations[ni].tech[FER] < stats.tech_fer {
            return vec![Event::CommandRejected { reason: Rejection::TechTooLow }];
        }
        if self.nations[ni].money < stats.cost_money {
            return vec![Event::CommandRejected { reason: Rejection::NoMoney }];
        }
        if self.nations[ni].manpower < stats.cost_force {
            return vec![Event::CommandRejected { reason: Rejection::NoManpower }];
        }
        let mut n = self.nations[ni];
        n.money = n.money - stats.cost_money;
        n.manpower = n.manpower - stats.cost_force;
        self.nations.set(ni, n);
        let id = self.next_unit_id;
        self.next_unit_id = self.next_unit_id + 1;
        self.units.push(Unit { id, owner: nation, kind, x, y, hp: stats.max_hp, moves_left: stats.moves });
        proof {
            let us = self.units@;
            lemma_holds_kept(old(self).units@, us, self.holds@);
            assert forall|a: int, b: int|
                0 <= a < us.len() && 0 <= b < us.len() && a != b
                    implies #[trigger] us[a].id != #[trigger] us[b].id by {
                if a < us.len() - 1 && b < us.len() - 1 {
                    assert(old(self).units@[a] == us[a]);
                    assert(old(self).units@[b] == us[b]);
                } else if a == us.len() - 1 {
                    assert(old(self).units@[b] == us[b]);
                } else {
                    assert(old(self).units@[a] == us[a]);
                }
            }
            assert forall|a: int, b: int|
                0 <= a < self.nations@.len() && 0 <= b < self.nations@.len() && a != b
                    implies #[trigger] self.nations@[a].id != #[trigger] self.nations@[b].id by {
                assert(self.nations@[a].id == ensured(old(self).nations@, nation)[a].id);
                assert(self.nations@[b].id == ensured(old(self).nations@, nation)[b].id);
            }
        }
        vec![Event::UnitCreated { unit: id, nation, kind, x, y }]
    }

    /// Total war-score value of the territory of `nation`.
    pub fn nation_value(&self, nation: u16) -> (v: i64)
        requires
            self.wf(),
        ensures
            v == value_owned(self.plots@, nation),
    {
        let mut acc: i64 = 0;
        let mut i: usize = 0;
        while i < self.plots.len()
            invariant
                0 <= i <= self.plots.len(),
                self.plots@.len() <= u32::MAX,
                acc == value_owned(self.plots@.take(i as int), nation),
            decreases self.plots.len() - i,
        {
            proof {
                lemma_take_last(self.plots@, i as int);
                lemma_value_bounds(self.plots@.take(i as int), 0, nation);
            }
            if self.plots[i].owner == Some(nation) {
                acc = acc + tile_value(&self.plots[i]);
            }
            i = i + 1;
        }
        assert(self.plots@.take(i as int) == self.plots@);
        acc
    }

    /// War score of `attacker` against `defender`: the value of the tiles of
    /// `defender` that `attacker` occupies.
    pub fn war_score(&self, attacker: u16, defender: u16) -> (v: i64)
        requires
            self.wf(),
        ensures
            v == value_occupied(self.plots@, attacker, defender),
    {
        let mut acc: i64 = 0;
        let mut i: usize = 0;
        while i < self.plots.len()
            invariant
                0 <= i <= self.plots.len(),
                self.plots@.len() <= u32::MAX,
                acc == value_occupied(self.plots@.take(i as int), attacker, defender),
            decreases self.plots.len() - i,
        {
            proof {
                lemma_take_last(self.plots@, i as int);
                lemma_value_bounds(self.plots@.take(i as int), attacker, defender);
            }
            if self.plots[i].owner == Some(defender) && self.plots[i].occupier == Some(attacker) {
                acc = acc + tile_value(&self.plots[i]);
            }
            i = i + 1;
        }
        assert(self.plots@.take(i as int) == self.plots@);
        acc
    }

    /// Lifts every occupation between `a` and `b` (end of a war). Nothing changes
    /// hands.
    pub fn clear_occupations(&mut self, a: u16, b: u16)
        requires
            old(self).wf(),
        ensures
            final(self).wf(),
            final(self).plots@.len() == old(self).plots@.len(),
            forall|i: int| 0 <= i < old(self).plots@.len() ==>
                #[trigger] final(self).plots@[i] == lift_occupation(old(self).plots@[i], a, b),
            final(self).width == old(self).width,
            final(self).height == old(self).height,
            final(self).nations == old(self).nations,
            final(self).diplomacy == old(self).diplomacy,
            final(self).units == old(self).units,
            final(self).next_unit_id == old(self).next_unit_id,
            final(self).holds == old(self).holds,
    {
        let mut i: usize = 0;
        while i < self.plots.len()
            invariant
                0 <= i <= self.plots.len(),
                self.plots@.len() == old(self).plots@.len(),
                forall|j: int| 0 <= j < i ==> #[trigger] self.plots@[j] == lift_occupation(old(self).plots@[j], a, b),
                forall|j: int| i <= j < self.plots@.len() ==> #[trigger] self.plots@[j] == old(self).plots@[j],
                self.width == old(self).width,
                self.height == old(self).height,
                self.nations == old(self).nations,
                self.diplomacy == old(self).diplomacy,
                self.units == old(self).units,
                self.next_unit_id == old(self).next_unit_id,
                self.holds == old(self).holds,
            decreases self.plots.len() - i,
        {
            let p = self.plots[i];
            if (p.occupier == Some(a) && p.owner == Some(b)) || (p.occupier == Some(b) && p.owner == Some(a)) {
                self.plots.set(i, Plot { occupier: None, ..p });
            }
            i = i + 1;
        }
    }

    /// Declares war between `nation` and `target`.
    pub fn declare_war(&mut self, nation: u16, target: u16) -> (events: Vec<Event>)
        requires
            old(self).wf(),
        ensures
            final(self).wf(),
            nation == target ==> {
                &&& events@ == seq![Event::CommandRejected { reason: Rejection::SelfWar }]
                &&& final(self).diplomacy == old(self).diplomacy
            },
            nation != target ==> {
                &&& events@ == seq![Event::WarDeclared { nation, target }]
                &&& final(self).diplomacy@ == crate::diplo::add_pair(old(self).diplomacy@, spec_pair(nation, target))
            },
            final(self).same_but_wars(old(self)),
    {
        if nation == target {
            return vec![Event::CommandRejected { reason: Rejection::SelfWar }];
        }
        self.diplomacy.set_war(nation, target, true);
        vec![Event::WarDeclared { nation, target }]
    }

    /// Everything but the wars is unchanged.
    pub open spec fn same_but_wars(&self, other: &Realm) -> bool {
        &&& self.width == other.width
        &&& self.height == other.height
        &&& self.plots == other.plots
        &&& self.nations == other.nations
        &&& self.units == other.units
        &&& self.next_unit_id == other.next_unit_id
        &&& self.holds == other.holds
    }

    /// Makes peace between two nations at war. The occupations between them are
    /// lifted and nothing is annexed (only a capitulation transfers tiles).
    pub fn make_peace(&mut self, nation: u16, target: u16) -> (events: Vec<Event>)
        requires
            old(self).wf(),
        ensures
            final(self).wf(),
            !old(self).diplomacy.at_war_spec(nation, target) ==> {
                &&& events@ == seq![Event::CommandRejected { reason: Rejection::NotAtWar }]
                &&& final(self).diplomacy == old(self).diplomacy
                &&& final(self).plots == old(self).plots
            },
            old(self).diplomacy.at_war_spec(nation, target) ==> {
                &&& events@ == seq![Event::PeaceMade { nation, target }]
                &&& final(self).diplomacy@ == crate::diplo::drop_pair(old(self).diplomacy@, spec_pair(nation, target))
                &&& final(self).plots@.len() == old(self).plots@.len()
                &&& forall|i: int| 0 <= i < old(self).plots@.len() ==>
                    #[trigger] final(self).plots@[i] == lift_occupation(old(self).plots@[i], nation, target)
            },
            final(self).width == old(self).width,
            final(self).height == old(self).height,
            final(self).nations == old(self).nations,
            final(self).units == old(self).units,
            final(self).next_unit_id == old(self).next_unit_id,
            final(self).holds == old(self).holds,
    {
        if !self.diplomacy.at_war(nation, target) {
            return vec![Event::CommandRejected { reason: Rejection::NotAtWar }];
        }
        self.diplomacy.set_war(nation, target, false);
        self.clear_occupations(nation, target);
        vec![Event::PeaceMade { nation, target }]
    }

    /// If `attacker` is at war with `defender` and occupies strictly more than
    /// three quarters of the value of its territory, `defender` capitulates:
    /// `attacker` annexes the tiles it occupies, the occupations between them are
    /// lifted and peace is imposed.
    pub fn capitulate(&mut self, attacker: u16, defender: u16) -> (ev: Option<Event>)
        requires
            old(self).wf(),
        ensures
            final(self).wf(),
            ({
                let ps = old(self).plots@;
                let total = value_owned(ps, defender);
                let score = value_occupied(ps, attacker, defender);
                let wins = old(self).diplomacy.at_war_spec(attacker, defender) && total > 0
                    && score * 4 > total * 3;
                &&& !wins ==> ev is None && final(self).plots == old(self).plots
                    && final(self).diplomacy == old(self).diplomacy
                &&& wins ==> {
                    &&& ev == Some(Event::Capitulation {
                        winner: attacker,
                        loser: defender,
                        tiles: count_occupied(ps, attacker, defender) as u32,
                        score: score as i64,
                    })
                    &&& final(self).plots@.len() == ps.len()
                    &&& forall|i: int| 0 <= i < ps.len() ==> #[trigger] final(self).plots@[i]
                        == lift_occupation(annex(ps[i], attacker, defender), attacker, defender)
                    &&& final(self).diplomacy@ == crate::diplo::drop_pair(old(self).diplomacy@, spec_pair(attacker, defender))
                }
            }),
            final(self).width == old(self).width,
            final(self).height == old(self).height,
            final(self).nations == old(self).nations,
            final(self).units == old(self).units,
            final(self).next_unit_id == old(self).next_unit_id,
            final(self).holds == old(self).holds,
    {
        if !self.diplomacy.at_war(attacker, defender) {
            return None;
        }
        let total = self.nation_value(defender);
        if total <= 0 {
            return None;
        }
        let score = self.war_score(attacker, defender);
        proof {
            lemma_value_bounds(self.plots@, attacker, defender);
        }
        if score * 4 <= total * 3 {
            return None;
        }
        let mut tiles: u32 = 0;
        let mut i: usize = 0;
        while i < self.plots.len()
            invariant
                0 <= i <= self.plots.len(),
                self.plots@.len() == old(self).plots@.len(),
                old(self).plots@.len() <= u32::MAX,
                tiles == count_occupied(old(self).plots@.take(i as int), attacker, defender),
                forall|j: int| 0 <= j < i ==> #[trigger] self.plots@[j] == annex(old(self).plots@[j], attacker, defender),
                forall|j: int| i <= j < self.plots@.len() ==> #[trigger] self.plots@[j] == old(self).plots@[j],
                self.width == old(self).width,
                self.height == old(self).height,
                self.nations == old(self).nations,
                self.diplomacy == old(self).diplomacy,
                self.units == old(self).units,
                self.next_unit_id == old(self).next_unit_id,
                self.holds == old(self).holds,
            decreases self.plots.len() - i,
        {
            proof {
                lemma_take_last(old(self).plots@, i as int);
                lemma_value_bounds(old(self).plots@.take(i as int), attacker, defender);
            }
            let p = self.plots[i];
            if p.owner == Some(defender) && p.occupier == Some(attacker) {
                self.plots.set(i, Plot { owner: Some(attacker), occupier: None, ..p });
                tiles = tiles + 1;
            }
            i = i + 1;
        }
        assert(old(self).plots@.take(i as int) == old(self).plots@);
        self.clear_occupations(attacker, defender);
        self.diplomacy.set_war(attacker, defender, false);
        Some(Event::Capitulation { winner: attacker, loser: defender, tiles, score })
    }

    /// Capitulations of the month: for each war in progress (in declaration
    /// order), the second side capitulates if the first occupies more than three
    /// quarters of its value, then the converse is checked.
    pub fn resolve_capitulations(&mut self) -> (events: Vec<Event>)
        requires
            old(self).wf(),
        ensures
            final(self).wf(),
            ({
                let r = settle_wars(old(self).plots@, old(self).diplomacy@, old(self).diplomacy@);
                &&& final(self).plots@ == r.0
                &&& final(self).diplomacy@ == r.1
                &&& events@ == r.2
            }),
            final(self).width == old(self).width,
            final(self).height == old(self).height,
            final(self).nations == old(self).nations,
            final(self).units == old(self).units,
            final(self).next_unit_id == old(self).next_unit_id,
            final(self).holds == old(self).holds,
    {
        let wars = self.diplomacy.snapshot();
        let mut events: Vec<Event> = Vec::new();
        let mut i: usize = 0;
        while i < wars.len()
            invariant
                0 <= i <= wars.len(),
                wars@ == old(self).diplomacy@,
                self.wf(),
                ({
                    let r = settle_wars(old(self).plots@, old(self).diplomacy@, wars@.take(i as int));
                    &&& self.plots@ == r.0
                    &&& self.diplomacy@ == r.1
                    &&& events@ == r.2
                }),
                self.width == old(self).width,
                self.height == old(self).height,
                self.nations == old(self).nations,
                self.units == old(self).units,
                self.next_unit_id == old(self).next_unit_id,
                self.holds == old(self).holds,
            decreases wars.len() - i,
        {
            proof {
                lemma_take_last(wars@, i as int);
            }
            let (a, b) = wars[i];
            let ghost mid_plots = self.plots@;
            let ghost mid_wars = self.diplomacy@;
            let e1 = self.capitulate(a, b);
            proof {
                assert(self.plots@ =~= settle_war(mid_plots, mid_wars, a, b).0);
            }
            let ghost mid2_plots = self.plots@;
            let ghost mid2_wars = self.diplomacy@;
            let e2 = self.capitulate(b, a);
            proof {
                assert(self.plots@ =~= settle_war(mid2_plots, mid2_wars, b, a).0);
            }
            let ghost before = events@;
            if let Some(e) = e1 {
                events.push(e);
            }
            if let Some(e) = e2 {
                events.push(e);
            }
            proof {
                let one = settle_war(mid_plots, mid_wars, a, b);
                let two = settle_war(mid2_plots, mid2_wars, b, a);
                assert(events@ =~= before + one.2 + two.2);
            }
            i = i + 1;
        }
        assert(wars@.take(i as int) == wars@);
        events
    }

    /// Start of a month for the units: every unit gets its movement points back;
    /// then, in creation order, a wounded unit standing on its own nation's
    /// territory recovers up to eight hit points, paid in manpower.
    pub fn refresh_units(&mut self)
        requires
            old(self).wf(),
        ensures
            final(self).wf(),
            ({
                let r = regen_upto(refilled(old(self).units@), old(self).nations@, old(self).plots@,
                    old(self).width, old(self).units@.len());
                &&& final(self).units@ == r.0
                &&& final(self).nations@ == r.1
            }),
            final(self).units@.len() == old(self).units@.len(),
            forall|j: int| 0 <= j < old(self).units@.len() ==> {
                let u = old(self).units@[j];
                &&& (#[trigger] final(self).units@[j]).hp >= u.hp
                &&& final(self).units@[j].hp != u.hp
                    ==> old(self).plots@[u.y * old(self).width + u.x].owner == Some(u.owner)
            },
            final(self).width == old(self).width,
            final(self).height == old(self).height,
            final(self).plots == old(self).plots,
            final(self).diplomacy == old(self).diplomacy,
            final(self).next_unit_id == old(self).next_unit_id,
            final(self).holds == old(self).holds,
    {
        let mut i: usize = 0;
        while i < self.units.len()
            invariant
                0 <= i <= self.units.len(),
                self.units@.len() == old(self).units@.len(),
                forall|j: int| 0 <= j < i ==> #[trigger] self.units@[j] == refilled(old(self).units@)[j],
                forall|j: int| i <= j < self.units@.len() ==> #[trigger] self.units@[j] == old(self).units@[j],
                self.width == old(self).width,
                self.height == old(self).height,
                self.plots == old(self).plots,
                self.nations == old(self).nations,
                self.diplomacy == old(self).diplomacy,
                self.next_unit_id == old(self).next_unit_id,
                self.holds == old(self).holds,
            decreases self.units.len() - i,
        {
            let mut u = self.units[i];
            u.moves_left = unit_stats(u.kind).moves;
            self.units.set(i, u);
            i = i + 1;
        }
        assert(self.units@ =~= refilled(old(self).units@));
        proof { lemma_holds_kept(old(self).units@, self.units@, self.holds@); }
        assert(self.wf());
        let ghost start = self.units@;
        let mut i: usize = 0;
        while i < self.units.len()
            invariant
                0 <= i <= self.units.len(),
                self.wf(),
                start == refilled(old(self).units@),
                start.len() == self.units@.len(),
                ({
                    let r = regen_upto(start, old(self).nations@, old(self).plots@, old(self).width, i as nat);
                    &&& self.units@ == r.0
                    &&& self.nations@ == r.1
                }),
                forall|j: int| i <= j < self.units@.len() ==> #[trigger] self.units@[j] == start[j],
                self.width == old(self).width,
                self.height == old(self).height,
                self.plots == old(self).plots,
                self.diplomacy == old(self).diplomacy,
                self.next_unit_id == old(self).next_unit_id,
                self.holds == old(self).holds,
            decreases self.units.len() - i,
        {
            let u = self.units[i];
            let max_hp = unit_stats(u.kind).max_hp;
            let here = self.index(u.x, u.y);
            if u.hp < max_hp && self.plots[here].owner == Some(u.owner) {
                if let Some(ni) = self.nation_index(u.owner) {
                    let mp = self.nations[ni].manpower;
                    let avail: i32 = (if mp < 0 { 0 } else { mp }) as i32;
                    let wound = max_hp - u.hp;
                    let a = if UNIT_REGEN_HP <= wound { UNIT_REGEN_HP } else { wound };
                    let heal = if a <= avail { a } else { avail };
                    if heal > 0 {
                        let ghost before = self.units@;
                        self.units.set(i, Unit { hp: u.hp + heal, ..u });
                        proof { lemma_holds_kept(before, self.units@, self.holds@); }
                        let mut n = self.nations[ni];
                        n.manpower = n.manpower - heal as i64;
                        self.nations.set(ni, n);
                    }
                }
            }
            i = i + 1;
        }
        proof {
            lemma_refresh_heals_only_at_home(old(self).units@, old(self).nations@, old(self).plots@, old(self).width);
        }
    }

    /// Manhattan distance (X wraps) between two tiles of the map.
    pub fn dist(&self, x0: u32, y0: u32, x1: u32, y1: u32) -> (d: u32)
        requires
            self.wf(),
            x0 < self.width,
            x1 < self.width,
            y0 < self.height,
            y1 < self.height,
        ensures
            d == wrap_dist(x0 as int, y0 as int, x1 as int, y1 as int, self.width as int),
    {
        proof {
            let w = self.width as int;
            let h = self.height as int;
            assert((w - 1) * (h - 1) >= 0) by (nonlinear_arith)
                requires w >= 1, h >= 1;
            assert(w * h == (w - 1) * (h - 1) + w + h - 1) by (nonlinear_arith);
        }
        wrapped_manhattan(x0, y0, x1, y1, self.width)
    }


    /// Removes the hold of galley `galley`, if any.
    pub fn drop_hold(&mut self, galley: u32)
        requires
            holds_ok(old(self).holds@),
        ensures
            holds_ok(final(self).holds@),
            final(self).holds@ == without_hold(old(self).holds@, galley),
            final(self).width == old(self).width,
            final(self).height == old(self).height,
            final(self).plots == old(self).plots,
            final(self).nations == old(self).nations,
            final(self).diplomacy == old(self).diplomacy,
            final(self).units == old(self).units,
            final(self).next_unit_id == old(self).next_unit_id,
    {
        let mut k: usize = 0;
        while k < self.holds.len()
            invariant
                0 <= k <= self.holds.len(),
                *self == *old(self),
                holds_ok(old(self).holds@),
                forall|j: int| 0 <= j < k ==> (#[trigger] self.holds@[j]).galley != galley,
            decreases self.holds.len() - k,
        {
            if self.holds[k].galley == galley {
                proof {
                    let c = hold_pos(self.holds@, galley);
                    assert(self.holds@[k as int].galley == galley);
                    if c != k {
                        assert(self.holds@[c].galley == self.holds@[k as int].galley);
                    }
                }
                let ghost before = self.holds@;
                self.holds.remove(k);
                proof {
                    lemma_remove_hold(before, k as int);
                }
                return;
            }
            k = k + 1;
        }
    }

    /// Reason (checked in this order) why an attack is refused.
    pub open spec fn attack_refusal(&self, unit_id: u32, tx: u32, ty: u32) -> Option<Rejection> {
        if tx >= self.width || ty >= self.height {
            Some(Rejection::OutOfMap)
        } else if !has_unit(self.units@, unit_id) {
            Some(Rejection::UnknownUnit)
        } else if !occupied_spec(self.units@, tx, ty) {
            Some(Rejection::NoTarget)
        } else {
            let a = self.units@[unit_pos(self.units@, unit_id)];
            let d = self.units@[pos_at(self.units@, tx, ty)];
            if d.owner == a.owner {
                Some(Rejection::FriendlyTarget)
            } else if !self.diplomacy.at_war_spec(a.owner, d.owner) {
                Some(Rejection::TargetNotAtWar)
            } else if wrap_dist(a.x as int, a.y as int, tx as int, ty as int, self.width as int)
                > stats_of(a.kind).range {
                Some(Rejection::OutOfRange)
            } else {
                None
            }
        }
    }

    /// Units, holds and events after a granted attack (see [`Realm::attack_unit`]).
    pub open spec fn attack_outcome(&self, unit_id: u32, tx: u32, ty: u32, terrain: Seq<Terrain>)
        -> (Seq<Unit>, Seq<Hold>, Seq<Event>)
    {
        let us = self.units@;
        let ai = unit_pos(us, unit_id);
        let di = pos_at(us, tx, ty);
        let a = us[ai];
        let d = us[di];
        let at = terrain[self.idx(a.x, a.y)];
        let dt = terrain[self.idx(tx, ty)];
        let dealt = strike_spec(a.kind, at, dt);
        let dhp = d.hp - dealt;
        let killed = dhp <= 0;
        let adjacent = wrap_dist(a.x as int, a.y as int, tx as int, ty as int, self.width as int) == 1;
        let counter = if !killed && adjacent { strike_spec(d.kind, dt, at) } else { 0 };
        let ahp = a.hp - counter;
        let dead = ahp <= 0;
        let us1 = us.update(ai, Unit { hp: ahp as i32, moves_left: 0, ..a });
        let us2 = if killed { us1.remove(di) } else { us1.update(di, Unit { hp: dhp as i32, ..d }) };
        let ai2 = if killed && di < ai { ai - 1 } else { ai };
        let us3 = if dead { us2.remove(ai2) } else { us2 };
        let h1 = if killed { without_hold(self.holds@, d.id) } else { self.holds@ };
        let h2 = if dead { without_hold(h1, unit_id) } else { h1 };
        let e0 = seq![Event::UnitAttacked {
            attacker: unit_id,
            defender: d.id,
            x: tx,
            y: ty,
            damage: dealt as i32,
            counter: counter as i32,
            killed,
        }];
        let e1 = if killed { e0.push(Event::UnitDestroyed { unit: d.id, x: tx, y: ty }) } else { e0 };
        let e2 = if dead { e1.push(Event::UnitDestroyed { unit: unit_id, x: a.x, y: a.y }) } else { e1 };
        (us3, h2, e2)
    }

    /// A unit attacks the tile (tx, ty), which must hold a unit of a nation it
    /// is at war with, within its range. The defender loses hit points (see
    /// [`strike_spec`]: attacker's terrain penalty, defender's terrain bonus);
    /// if it survives a melee exchange it strikes back. The attack spends all the
    /// attacker's movement. A unit brought to 0 hit points or less is removed,
    /// with the cargo it carried. `terrain` rates every tile of the map.
    #[verifier::spinoff_prover]
    #[verifier::rlimit(40)]
    pub fn attack_unit(&mut self, unit_id: u32, tx: u32, ty: u32, terrain: &Vec<Terrain>) -> (events: Vec<Event>)
        requires
            old(self).wf(),
            terrain@.len() == old(self).plots@.len(),
            forall|i: int| 0 <= i < terrain@.len() ==> (#[trigger] terrain@[i]).wf(),
        ensures
            final(self).wf(),
            match old(self).attack_refusal(unit_id, tx, ty) {
                Some(reason) => {
                    &&& events@ == seq![Event::CommandRejected { reason }]
                    &&& final(self).units == old(self).units
                    &&& final(self).holds == old(self).holds
                },
                None => {
                    let r = old(self).attack_outcome(unit_id, tx, ty, terrain@);
                    let a = old(self).units@[unit_pos(old(self).units@, unit_id)];
                    &&& final(self).units@ == r.0
                    &&& final(self).holds@ == r.1
                    &&& events@ == r.2
                    &&& events@[0] matches Event::UnitAttacked { counter, .. }
                        && (has_unit(final(self).units@, unit_id) <==> a.hp - counter > 0)
                        && (has_unit(final(self).units@, unit_id)
                            ==> final(self).units@[unit_pos(final(self).units@, unit_id)].hp == a.hp - counter)
                },
            },
            final(self).width == old(self).width,
            final(self).height == old(self).height,
            final(self).plots == old(self).plots,
            final(self).nations == old(self).nations,
            final(self).diplomacy == old(self).diplomacy,
            final(self).next_unit_id == old(self).next_unit_id,
    {
        if tx >= self.width || ty >= self.height {
            return vec![Event::CommandRejected { reason: Rejection::OutOfMap }];
        }
        let ai = match self.unit_index_by_id(unit_id) {
            Some(i) => i,
            None => {
                return vec![Event::CommandRejected { reason: Rejection::UnknownUnit }];
            },
        };
        let di = match self.unit_index_at(tx, ty) {
            Some(i) => i,
            None => {
                return vec![Event::CommandRejected { reason: Rejection::NoTarget }];
            },
        };
        proof {
            lemma_unit_pos(self.units@, ai as int, unit_id);
            lemma_pos_at(self.units@, di as int, tx, ty);
        }
        let a = self.units[ai];
        let d = self.units[di];
        if d.owner == a.owner {
            return vec![Event::CommandRejected { reason: Rejection::FriendlyTarget }];
        }
        if !self.diplomacy.at_war(a.owner, d.owner) {
            return vec![Event::CommandRejected { reason: Rejection::TargetNotAtWar }];
        }
        let astats = unit_stats(a.kind);
        let distance = self.dist(a.x, a.y, tx, ty);
        if distance > astats.range {
            return vec![Event::CommandRejected { reason: Rejection::OutOfRange }];
        }
        let a_tile = self.index(a.x, a.y);
        let d_tile = self.index(tx, ty);
        let at = terrain[a_tile];
        let dt = terrain[d_tile];
        let dealt = strike(a.kind, &at, &dt);
        let dhp = d.hp - dealt;
        let killed = dhp <= 0;
        let mut counter: i32 = 0;
        if !killed && distance == 1 {
            counter = strike(d.kind, &dt, &at);
        }
        let ahp = a.hp - counter;
        let ghost us0 = self.units@;
        let ghost next = self.next_unit_id;
        proof {
            assert(ai != di);
            lemma_update_unit(us0, ai as int, Unit { hp: ahp, moves_left: 0, ..a });
        }
        self.units.set(ai, Unit { hp: ahp, moves_left: 0, ..a });
        let mut events = vec![Event::UnitAttacked {
            attacker: unit_id,
            defender: d.id,
            x: tx,
            y: ty,
            damage: dealt,
            counter,
            killed,
        }];
        let ghost us1 = self.units@;
        proof { lemma_holds_kept(us0, us1, self.holds@); }
        let ghost skip: int = if ahp <= 0 { ai as int } else { -1 };
        if killed {
            proof {
                lemma_remove_units(us1, di as int, skip, self.width, self.height, next);
                lemma_holds_sink(us1, di as int, self.holds@);
            }
            self.units.remove(di);
            self.drop_hold(d.id);
            events.push(Event::UnitDestroyed { unit: d.id, x: tx, y: ty });
        } else {
            proof {
                lemma_update_unit(us1, di as int, Unit { hp: dhp, ..d });
            }
            self.units.set(di, Unit { hp: dhp, ..d });
            proof { lemma_holds_kept(us1, self.units@, self.holds@); }
        }
        let ai2 = if killed && di < ai { ai - 1 } else { ai };
        if ahp <= 0 {
            proof {
                lemma_remove_units(self.units@, ai2 as int, ai2 as int, self.width, self.height, next);
                lemma_holds_sink(self.units@, ai2 as int, self.holds@);
            }
            self.units.remove(ai2);
            self.drop_hold(unit_id);
            events.push(Event::UnitDestroyed { unit: unit_id, x: a.x, y: a.y });
        }
        proof {
            let o = old(self).attack_outcome(unit_id, tx, ty, terrain@);
            let a0 = old(self).units@[unit_pos(old(self).units@, unit_id)];
            assert(o.2[0] matches Event::UnitAttacked { counter, .. }
                && (has_unit(o.0, unit_id) <==> a0.hp - counter > 0)
                && (has_unit(o.0, unit_id) ==> o.0[unit_pos(o.0, unit_id)].hp == a0.hp - counter)) by {
                lemma_attack_law(*old(self), unit_id, tx, ty, terrain@);
            }
        }
        events
    }

    /// Tier of the sea branch of nation `id` (0 when it does not exist).
    pub open spec fn naval_tier_of(&self, id: u16) -> u8 {
        if has_nation(self.nations@, id) {
            self.nations@[nation_pos(self.nations@, id)].tech@[LIEN as int]
        } else {
            0
        }
    }

    /// Tier of the sea branch of nation `id` (0 when it does not exist).
    pub fn naval_tier(&self, id: u16) -> (t: u8)
        requires
            self.wf(),
        ensures
            t == self.naval_tier_of(id),
    {
        match self.nation_index(id) {
            Some(i) => self.nations[i].tech[LIEN],
            None => 0,
        }
    }

    /// Reason (checked in this order) why a move is refused before its cost is
    /// looked at.
    pub open spec fn move_refusal(&self, unit_id: u32, tx: u32, ty: u32) -> Option<Rejection> {
        if tx >= self.width || ty >= self.height {
            Some(Rejection::OutOfMap)
        } else if !has_unit(self.units@, unit_id) {
            Some(Rejection::UnknownUnit)
        } else {
            let u = self.units@[unit_pos(self.units@, unit_id)];
            if u.x == tx && u.y == ty {
                Some(Rejection::AlreadyThere)
            } else if occupied_spec(self.units@, tx, ty) {
                Some(Rejection::TileOccupied)
            } else {
                None
            }
        }
    }

    /// Movement points a move spends, `None` when the tile is out of reach: the
    /// cheapest walk within the unit's points (galleys sail, land units march,
    /// crossing water by the sea branch of their nation); failing that, a unit
    /// that has not moved yet this month may always step onto an adjacent
    /// passable tile, spending all its points.
    pub open spec fn move_cost(&self, unit_id: u32, tx: u32, ty: u32, ground: Seq<Ground>) -> Option<u32> {
        let u = self.units@[unit_pos(self.units@, unit_id)];
        let s = stats_of(u.kind);
        let costs = costs_for(ground, s.naval, self.naval_tier_of(u.owner));
        match best_cost(costs, self.width as int, self.height as int, self.idx(u.x, u.y), self.idx(tx, ty), u.moves_left) {
            Some(c) => Some(c),
            None => if u.moves_left == s.moves && costs[self.idx(tx, ty)] != IMPASSABLE
                && wrap_dist(u.x as int, u.y as int, tx as int, ty as int, self.width as int) == 1 {
                Some(u.moves_left)
            } else {
                None
            },
        }
    }

    /// Is `mover` at war with the owner of plot `p`?
    pub open spec fn at_war_with_owner(&self, p: Plot, mover: u16) -> bool {
        match p.owner {
            Some(o) => self.diplomacy.at_war_spec(mover, o),
            None => false,
        }
    }

    /// Marks the occupation of tile `i` where a unit of `mover` now stands
    /// (see [`step_on`]).
    pub fn update_occupation(&mut self, i: usize, mover: u16)
        requires
            old(self).wf(),
            i < old(self).plots@.len(),
        ensures
            final(self).wf(),
            final(self).plots@ == old(self).plots@.update(i as int,
                step_on(old(self).plots@[i as int], mover, old(self).at_war_with_owner(old(self).plots@[i as int], mover))),
            final(self).plots@[i as int].owner == old(self).plots@[i as int].owner,
            old(self).plots@[i as int].owner == Some(mover) ==> final(self).plots@[i as int].occupier is None,
            (old(self).plots@[i as int].owner matches Some(o) && o != mover && old(self).diplomacy.at_war_spec(mover, o))
                ==> final(self).plots@[i as int].occupier == Some(mover),
            final(self).width == old(self).width,
            final(self).height == old(self).height,
            final(self).nations == old(self).nations,
            final(self).diplomacy == old(self).diplomacy,
            final(self).units == old(self).units,
            final(self).next_unit_id == old(self).next_unit_id,
            final(self).holds == old(self).holds,
    {
        let p = self.plots[i];
        match p.owner {
            Some(o) => {
                if o == mover {
                    self.plots.set(i, Plot { occupier: None, ..p });
                } else if self.diplomacy.at_war(mover, o) {
                    self.plots.set(i, Plot { occupier: Some(mover), ..p });
                } else {
                    self.plots.set(i, p);
                }
            },
            None => {
                self.plots.set(i, p);
            },
        }
    }

    /// Moves a unit to a tile within its movement points (see
    /// [`Realm::move_cost`]); no stacking. Stepping onto a tile of an enemy at
    /// war occupies it; stepping back onto one's own frees it. `ground` rates
    /// every tile of the map.
    pub fn move_unit(&mut self, unit_id: u32, tx: u32, ty: u32, ground: &Vec<Ground>) -> (events: Vec<Event>)
        requires
            old(self).wf(),
            ground@.len() == old(self).plots@.len(),
            forall|i: int| 0 <= i < ground@.len() ==> (#[trigger] ground@[i]).wf(),
        ensures
            final(self).wf(),
            match old(self).move_refusal(unit_id, tx, ty) {
                Some(reason) => {
                    &&& events@ == seq![Event::CommandRejected { reason }]
                    &&& *final(self) == *old(self)
                },
                None => match old(self).move_cost(unit_id, tx, ty, ground@) {
                    None => {
                        &&& events@ == seq![Event::CommandRejected { reason: Rejection::OutOfMoves }]
                        &&& *final(self) == *old(self)
                    },
                    Some(c) => {
                        let i = unit_pos(old(self).units@, unit_id);
                        let u = old(self).units@[i];
                        let to = old(self).idx(tx, ty);
                        let p = old(self).plots@[to];
                        &&& events@ == seq![Event::UnitMoved { unit: unit_id, to_x: tx, to_y: ty, cost: c }]
                        &&& c <= u.moves_left
                        &&& final(self).units@ == old(self).units@.update(i,
                            Unit { x: tx, y: ty, moves_left: (u.moves_left - c) as u32, ..u })
                        &&& final(self).plots@ == old(self).plots@.update(to,
                            step_on(p, u.owner, old(self).at_war_with_owner(p, u.owner)))
                        &&& final(self).plots@[to].owner == p.owner
                        &&& p.owner == Some(u.owner) ==> final(self).plots@[to].occupier is None
                        &&& final(self).width == old(self).width
                        &&& final(self).height == old(self).height
                        &&& final(self).nations == old(self).nations
                        &&& final(self).diplomacy == old(self).diplomacy
                        &&& final(self).next_unit_id == old(self).next_unit_id
                        &&& final(self).holds == old(self).holds
                    },
                },
            },
    {
        if tx >= self.width || ty >= self.height {
            return vec![Event::CommandRejected { reason: Rejection::OutOfMap }];
        }
        let ui = match self.unit_index_by_id(unit_id) {
            Some(i) => i,
            None => {
                return vec![Event::CommandRejected { reason: Rejection::UnknownUnit }];
            },
        };
        proof {
            lemma_unit_pos(self.units@, ui as int, unit_id);
        }
        let u = self.units[ui];
        if u.x == tx && u.y == ty {
            return vec![Event::CommandRejected { reason: Rejection::AlreadyThere }];
        }
        if self.unit_occupied(tx, ty) {
            return vec![Event::CommandRejected { reason: Rejection::TileOccupied }];
        }
        let from = self.index(u.x, u.y);
        let to = self.index(tx, ty);
        let stats = unit_stats(u.kind);
        let tier = self.naval_tier(u.owner);
        let costs = unit_costs(ground, stats.naval, tier);
        let cost = reach_cost(&costs, self.width, self.height, from, to, u.moves_left);
        proof {
            lemma_reach_is_best(costs@, self.width as int, self.height as int, from as int, to as int, u.moves_left, cost);
        }
        let effective = match cost {
            Some(c) => Some(c),
            None => {
                let adjacent = self.dist(u.x, u.y, tx, ty) == 1;
                if u.moves_left == stats.moves && costs[to] != IMPASSABLE && adjacent {
                    Some(u.moves_left)
                } else {
                    None
                }
            },
        };
        match effective {
            Some(c) => {
                proof {
                    lemma_update_unit(self.units@, ui as int, Unit { x: tx, y: ty, moves_left: (u.moves_left - c) as u32, ..u });
                }
                let ghost before = self.units@;
                self.units.set(ui, Unit { x: tx, y: ty, moves_left: u.moves_left - c, ..u });
                proof { lemma_holds_kept(before, self.units@, self.holds@); }
                self.update_occupation(to, u.owner);
                vec![Event::UnitMoved { unit: unit_id, to_x: tx, to_y: ty, cost: c }]
            },
            None => vec![Event::CommandRejected { reason: Rejection::OutOfMoves }],
        }
    }

    /// Where the hold of galley `g` is, or would be inserted: the first hold
    /// whose galley id is not below `g`; `found` when it is `g`'s.
    pub fn find_hold(&self, g: u32) -> (r: (usize, bool))
        requires
            holds_ok(self.holds@),
        ensures
            r.0 <= self.holds@.len(),
            forall|j: int| 0 <= j < r.0 ==> (#[trigger] self.holds@[j]).galley < g,
            r.1 ==> r.0 < self.holds@.len() && self.holds@[r.0 as int].galley == g,
            !r.1 ==> forall|j: int| r.0 <= j < self.holds@.len() ==> (#[trigger] self.holds@[j]).galley > g,
            r.1 <==> has_hold(self.holds@, g),
    {
        let mut k: usize = 0;
        while k < self.holds.len() && self.holds[k].galley < g
            invariant
                0 <= k <= self.holds@.len(),
                holds_ok(self.holds@),
                forall|j: int| 0 <= j < k ==> (#[trigger] self.holds@[j]).galley < g,
            decreases self.holds.len() - k,
        {
            k = k + 1;
        }
        let found = k < self.holds.len() && self.holds[k].galley == g;
        proof {
            if !found && k < self.holds@.len() {
                assert forall|j: int| k <= j < self.holds@.len() implies (#[trigger] self.holds@[j]).galley > g by {
                    if j > k {
                        assert(self.holds@[k as int].galley < self.holds@[j].galley);
                    }
                }
            }
            if found {
                assert(has_hold(self.holds@, g));
            } else if has_hold(self.holds@, g) {
                let c = choose|c: int| 0 <= c < self.holds@.len() && (#[trigger] self.holds@[c]).galley == g;
                if c >= k {
                    assert(self.holds@[c].galley > g);
                }
            }
        }
        (k, found)
    }

    /// Reason (checked in this order) why boarding is refused.
    pub open spec fn embark_refusal(&self, unit_id: u32, transport_id: u32) -> Option<Rejection> {
        if !has_unit(self.units@, transport_id) {
            Some(Rejection::UnknownGalley)
        } else {
            let g = self.units@[unit_pos(self.units@, transport_id)];
            let cap = stats_of(g.kind).capacity;
            if cap == 0 {
                Some(Rejection::NotTransport)
            } else if !has_unit(self.units@, unit_id) {
                Some(Rejection::UnknownUnit)
            } else {
                let u = self.units@[unit_pos(self.units@, unit_id)];
                if u.owner != g.owner {
                    Some(Rejection::ForeignUnit)
                } else if stats_of(u.kind).naval {
                    Some(Rejection::NavalCannotEmbark)
                } else if wrap_dist(u.x as int, u.y as int, g.x as int, g.y as int, self.width as int) > 1 {
                    Some(Rejection::GalleyNotAdjacent)
                } else if load_of(self.holds@, transport_id).len() % 256 >= cap {
                    Some(Rejection::GalleyFull)
                } else {
                    None
                }
            }
        }
    }

    /// Boards a land unit onto an adjacent galley of its nation that has room:
    /// the unit leaves the map and joins the galley's load (kind and hit points).
    pub fn embark(&mut self, unit_id: u32, transport_id: u32) -> (events: Vec<Event>)
        requires
            old(self).wf(),
        ensures
            final(self).wf(),
            match old(self).embark_refusal(unit_id, transport_id) {
                Some(reason) => {
                    &&& events@ == seq![Event::CommandRejected { reason }]
                    &&& *final(self) == *old(self)
                },
                None => {
                    let i = unit_pos(old(self).units@, unit_id);
                    let u = old(self).units@[i];
                    &&& events@ == seq![Event::Embarked { unit: unit_id, transport: transport_id }]
                    &&& final(self).units@ == old(self).units@.remove(i)
                    &&& cargo_of(final(self).holds@) == cargo_of(old(self).holds@).insert(transport_id,
                        load_of(old(self).holds@, transport_id).push(CarriedUnit { kind: u.kind, hp: u.hp }))
                    &&& load_of(old(self).holds@, transport_id).len() < 256
                        ==> cargo_of(final(self).holds@)[transport_id].len()
                            <= stats_of(old(self).units@[unit_pos(old(self).units@, transport_id)].kind).capacity
                    &&& final(self).width == old(self).width
                    &&& final(self).height == old(self).height
                    &&& final(self).plots == old(self).plots
                    &&& final(self).nations == old(self).nations
                    &&& final(self).diplomacy == old(self).diplomacy
                    &&& final(self).next_unit_id == old(self).next_unit_id
                },
            },
    {
        let ti = match self.unit_index_by_id(transport_id) {
            Some(i) => i,
            None => {
                return vec![Event::CommandRejected { reason: Rejection::UnknownGalley }];
            },
        };
        proof {
            lemma_unit_pos(self.units@, ti as int, transport_id);
        }
        let g = self.units[ti];
        let cap = unit_stats(g.kind).capacity;
        if cap == 0 {
            return vec![Event::CommandRejected { reason: Rejection::NotTransport }];
        }
        let li = match self.unit_index_by_id(unit_id) {
            Some(i) => i,
            None => {
                return vec![Event::CommandRejected { reason: Rejection::UnknownUnit }];
            },
        };
        proof {
            lemma_unit_pos(self.units@, li as int, unit_id);
        }
        let u = self.units[li];
        if u.owner != g.owner {
            return vec![Event::CommandRejected { reason: Rejection::ForeignUnit }];
        }
        if unit_stats(u.kind).naval {
            return vec![Event::CommandRejected { reason: Rejection::NavalCannotEmbark }];
        }
        if self.dist(u.x, u.y, g.x, g.y) > 1 {
            return vec![Event::CommandRejected { reason: Rejection::GalleyNotAdjacent }];
        }
        let (k, found) = self.find_hold(transport_id);
        proof {
            if found {
                lemma_hold_pos(self.holds@, k as int);
            }
        }
        let len: usize = if found { self.holds[k].load.len() } else { 0 };
        assert(len == load_of(self.holds@, transport_id).len());
        if len % 256 >= cap as usize {
            return vec![Event::CommandRejected { reason: Rejection::GalleyFull }];
        }
        let c = CarriedUnit { kind: u.kind, hp: u.hp };
        let ghost hs0 = self.holds@;
        if found {
            let mut h = self.holds.remove(k);
            proof {
                lemma_cargo_remove(hs0, k as int);
            }
            h.load.push(c);
            proof {
                assert forall|j: int| 0 <= j < h.load@.len() implies carried_ok(#[trigger] h.load@[j]) by {
                    if j < h.load@.len() - 1 {
                        assert(h.load@[j] == hs0[k as int].load@[j]);
                    }
                }
                let r = hs0.remove(k as int);
                assert forall|j: int| 0 <= j < k implies (#[trigger] r[j]).galley < transport_id by {
                    assert(r[j] == hs0[j]);
                }
                assert forall|j: int| k <= j < r.len() implies (#[trigger] r[j]).galley > transport_id by {
                    assert(r[j] == hs0[j + 1]);
                    assert(hs0[k as int].galley < hs0[j + 1].galley);
                }
                lemma_cargo_insert(r, k as int, h);
                assert(cargo_of(hs0).remove(transport_id).insert(transport_id, h.load@)
                    =~= cargo_of(hs0).insert(transport_id, h.load@));
            }
            self.holds.insert(k, h);
        } else {
            let h = Hold { galley: transport_id, load: vec![c] };
            proof {
                assert(h.load@ =~= load_of(hs0, transport_id).push(c));
                lemma_cargo_insert(hs0, k as int, h);
            }
            self.holds.insert(k, h);
        }
        let ghost us0 = self.units@;
        proof {
            lemma_remove_units(us0, li as int, -1, self.width, self.height, self.next_unit_id);
        }
        self.units.remove(li);
        assert(cargo_of(self.holds@) == cargo_of(hs0).insert(transport_id,
            load_of(hs0, transport_id).push(c)));
        proof {
            assert(us0[ti as int].id == transport_id && stats_of(us0[ti as int].kind).capacity > 0);
            assert(is_transport(us0, transport_id));
            lemma_holds_fewer(us0, hs0, self.holds@);
            assert(stats_of(us0[li as int].kind).capacity == 0);
            lemma_holds_after_loss(us0, li as int, self.holds@);
        }
        assert(self.units@ == us0.remove(li as int));
        assert(self.wf());
        vec![Event::Embarked { unit: unit_id, transport: transport_id }]
    }

    /// Reason (checked in this order) why landing is refused.
    pub open spec fn disembark_refusal(&self, transport_id: u32, tx: u32, ty: u32) -> Option<Rejection> {
        if tx >= self.width || ty >= self.height {
            Some(Rejection::OutOfMap)
        } else if !has_unit(self.units@, transport_id) {
            Some(Rejection::UnknownGalley)
        } else {
            let g = self.units@[unit_pos(self.units@, transport_id)];
            if self.plots@[self.idx(tx, ty)].kind != TileKind::Land {
                Some(Rejection::DisembarkOnLand)
            } else if wrap_dist(g.x as int, g.y as int, tx as int, ty as int, self.width as int) != 1 {
                Some(Rejection::NotAdjacentToGalley)
            } else if occupied_spec(self.units@, tx, ty) {
                Some(Rejection::TileOccupied)
            } else if load_of(self.holds@, transport_id).len() == 0 {
                Some(Rejection::GalleyEmpty)
            } else {
                None
            }
        }
    }

    /// Lands the last unit boarded on a galley onto an adjacent free land tile.
    /// It gets a new id, no movement left this month, and occupies the tile if
    /// it belongs to an enemy at war. An emptied hold is dropped.
    pub fn disembark(&mut self, transport_id: u32, tx: u32, ty: u32) -> (events: Vec<Event>)
        requires
            old(self).wf(),
            old(self).next_unit_id < u32::MAX,
        ensures
            final(self).wf(),
            match old(self).disembark_refusal(transport_id, tx, ty) {
                Some(reason) => {
                    &&& events@ == seq![Event::CommandRejected { reason }]
                    &&& *final(self) == *old(self)
                },
                None => {
                    let g = old(self).units@[unit_pos(old(self).units@, transport_id)];
                    let load = load_of(old(self).holds@, transport_id);
                    let c = load.last();
                    let max_hp = stats_of(c.kind).max_hp;
                    let to = old(self).idx(tx, ty);
                    let p = old(self).plots@[to];
                    let id = old(self).next_unit_id;
                    &&& events@ == seq![Event::Disembarked { transport: transport_id, kind: c.kind, x: tx, y: ty }]
                    &&& cargo_of(final(self).holds@) == if load.len() == 1 {
                        cargo_of(old(self).holds@).remove(transport_id)
                    } else {
                        cargo_of(old(self).holds@).insert(transport_id, load.drop_last())
                    }
                    &&& final(self).units@ == old(self).units@.push(Unit {
                        id,
                        owner: g.owner,
                        kind: c.kind,
                        x: tx,
                        y: ty,
                        hp: if c.hp <= max_hp { c.hp } else { max_hp },
                        moves_left: 0,
                    })
                    &&& final(self).next_unit_id == id + 1
                    &&& final(self).plots@ == old(self).plots@.update(to,
                        step_on(p, g.owner, old(self).at_war_with_owner(p, g.owner)))
                    &&& final(self).width == old(self).width
                    &&& final(self).height == old(self).height
                    &&& final(self).nations == old(self).nations
                    &&& final(self).diplomacy == old(self).diplomacy
                },
            },
    {
        if tx >= self.width || ty >= self.height {
            return vec![Event::CommandRejected { reason: Rejection::OutOfMap }];
        }
        let ti = match self.unit_index_by_id(transport_id) {
            Some(i) => i,
            None => {
                return vec![Event::CommandRejected { reason: Rejection::UnknownGalley }];
            },
        };
        proof {
            lemma_unit_pos(self.units@, ti as int, transport_id);
        }
        let g = self.units[ti];
        let to = self.index(tx, ty);
        if self.plots[to].kind != TileKind::Land {
            return vec![Event::CommandRejected { reason: Rejection::DisembarkOnLand }];
        }
        if self.dist(g.x, g.y, tx, ty) != 1 {
            return vec![Event::CommandRejected { reason: Rejection::NotAdjacentToGalley }];
        }
        if self.unit_occupied(tx, ty) {
            return vec![Event::CommandRejected { reason: Rejection::TileOccupied }];
        }
        let (k, found) = self.find_hold(transport_id);
        if !found {
            return vec![Event::CommandRejected { reason: Rejection::GalleyEmpty }];
        }
        proof {
            lemma_hold_pos(self.holds@, k as int);
        }
        let ghost hs0 = self.holds@;
        let mut h = self.holds.remove(k);
        proof {
            lemma_cargo_remove(hs0, k as int);
        }
        let c = match h.load.pop() {
            Some(c) => c,
            None => {
                proof {
                    assert(false);
                }
                return vec![Event::CommandRejected { reason: Rejection::GalleyEmpty }];
            },
        };
        if h.load.len() > 0 {
            proof {
                let r = hs0.remove(k as int);
                assert forall|j: int| 0 <= j < k implies (#[trigger] r[j]).galley < transport_id by {
                    assert(r[j] == hs0[j]);
                }
                assert forall|j: int| k <= j < r.len() implies (#[trigger] r[j]).galley > transport_id by {
                    assert(r[j] == hs0[j + 1]);
                    assert(hs0[k as int].galley < hs0[j + 1].galley);
                }
                assert forall|j: int| 0 <= j < h.load@.len() implies carried_ok(#[trigger] h.load@[j]) by {
                    assert(h.load@[j] == hs0[k as int].load@[j]);
                }
                lemma_cargo_insert(r, k as int, h);
                assert(cargo_of(hs0).remove(transport_id).insert(transport_id, h.load@)
                    =~= cargo_of(hs0).insert(transport_id, h.load@));
            }
            self.holds.insert(k, h);
        }
        proof {
            assert(carried_ok(hs0[k as int].load@[hs0[k as int].load@.len() - 1]));
        }
        let max_hp = unit_stats(c.kind).max_hp;
        let id = self.next_unit_id;
        self.next_unit_id = self.next_unit_id + 1;
        let ghost us0 = self.units@;
        self.units.push(Unit {
            id,
            owner: g.owner,
            kind: c.kind,
            x: tx,
            y: ty,
            hp: if c.hp <= max_hp { c.hp } else { max_hp },
            moves_left: 0,
        });
        proof {
            let us = self.units@;
            assert forall|a: int, b: int|
                0 <= a < us.len() && 0 <= b < us.len() && a != b
                    implies #[trigger] us[a].id != #[trigger] us[b].id by {
                if a < us.len() - 1 {
                    assert(us[a] == us0[a]);
                }
                if b < us.len() - 1 {
                    assert(us[b] == us0[b]);
                }
            }
            assert forall|gid: u32| #[trigger] cargo_of(self.holds@).dom().contains(gid)
                implies cargo_of(hs0).dom().contains(gid) || is_transport(us0, gid) by {
                if gid != transport_id {
                    assert(cargo_of(self.holds@).dom().contains(gid) == cargo_of(hs0).dom().contains(gid));
                }
            }
            lemma_holds_fewer(us0, hs0, self.holds@);
            lemma_holds_kept(us0, us, self.holds@);
        }
        self.update_occupation(to, g.owner);
        vec![Event::Disembarked { transport: transport_id, kind: c.kind, x: tx, y: ty }]
    }
}

/// One check of a capitulation (each step of [`Realm::resolve_capitulations`]):
/// when `a` is at war with `b` and occupies strictly more than three quarters
/// of its value, `b` capitulates with that score and the count of occupied
/// tiles; every tile of `b` that `a` occupies becomes `a`'s, free; no other
/// tile of `b` changes hands; the war ends. Otherwise nothing changes.
pub proof fn lemma_capitulation_law(ps: Seq<Plot>, ws: Seq<(u16, u16)>, a: u16, b: u16)
    requires
        ws.no_duplicates(),
        a != b,
    ensures
        ({
            let r = settle_war(ps, ws, a, b);
            let v = value_owned(ps, b);
            let sc = value_occupied(ps, a, b);
            if ws.contains(spec_pair(a, b)) && v > 0 && 4 * sc > 3 * v {
                &&& r.2 == seq![Event::Capitulation { winner: a, loser: b, tiles: count_occupied(ps, a, b) as u32, score: sc as i64 }]
                &&& r.0.len() == ps.len()
                &&& forall|i: int| 0 <= i < ps.len() && ps[i].owner == Some(b) && ps[i].occupier == Some(a)
                    ==> (#[trigger] r.0[i]).owner == Some(a) && r.0[i].occupier is None
                &&& forall|i: int| 0 <= i < ps.len() && ps[i].owner == Some(b) && ps[i].occupier != Some(a)
                    ==> (#[trigger] r.0[i]).owner == Some(b)
                &&& !r.1.contains(spec_pair(a, b))
            } else {
                r == (ps, ws, Seq::<Event>::empty())
            }
        }),
{
    let p = spec_pair(a, b);
    if ws.contains(p) && value_owned(ps, b) > 0 && 4 * value_occupied(ps, a, b) > 3 * value_owned(ps, b) {
        let k = choose|k: int| 0 <= k < ws.len() && ws[k] == p;
        let w2 = ws.remove(k);
        if w2.contains(p) {
            let j = choose|j: int| 0 <= j < w2.len() && w2[j] == p;
            let j0 = if j < k { j } else { j + 1 };
            assert(ws[j0] == p);
            assert(j0 != k);
        }
    }
}

/// A unit standing on (x, y) means a first one does.
proof fn lemma_first_exists(us: Seq<Unit>, i: int, x: u32, y: u32)
    requires
        0 <= i < us.len(),
        unit_at(us[i], x, y),
    ensures
        exists|k: int| first_at(us, k, x, y),
    decreases i,
{
    if exists|j: int| 0 <= j < i && unit_at(#[trigger] us[j], x, y) {
        let j = choose|j: int| 0 <= j < i && unit_at(#[trigger] us[j], x, y);
        lemma_first_exists(us, j, x, y);
    } else {
        assert(first_at(us, i, x, y));
    }
}

/// An attack the rules grant: the defender loses [`strike_spec`] hit points
/// (base × (1 − the attacker's terrain penalty) ÷ (1 + the defender's terrain
/// bonus), at least 1), and is removed exactly when that leaves it no hit
/// points; only a surviving adjacent defender strikes back; a surviving
/// attacker has spent its movement.
pub proof fn lemma_attack_law(r: Realm, unit_id: u32, tx: u32, ty: u32, terrain: Seq<Terrain>)
    requires
        r.wf(),
        terrain.len() == r.plots@.len(),
        forall|i: int| 0 <= i < terrain.len() ==> (#[trigger] terrain[i]).wf(),
        r.attack_refusal(unit_id, tx, ty) is None,
    ensures
        ({
            let o = r.attack_outcome(unit_id, tx, ty, terrain);
            let a = r.units@[unit_pos(r.units@, unit_id)];
            let d = r.units@[pos_at(r.units@, tx, ty)];
            let dealt = strike_spec(a.kind, terrain[r.idx(a.x, a.y)], terrain[r.idx(tx, ty)]);
            let killed = d.hp - dealt <= 0;
            &&& o.2.len() >= 1
            &&& o.2[0] matches Event::UnitAttacked { attacker, defender, x, y, damage, counter, killed: k }
                && attacker == unit_id && defender == d.id && x == tx && y == ty && damage == dealt && k == killed
                && (counter != 0 ==> !killed && wrap_dist(a.x as int, a.y as int, tx as int, ty as int, r.width as int) == 1)
            &&& killed <==> !has_unit(o.0, d.id)
            &&& has_unit(o.0, unit_id) ==> o.0[unit_pos(o.0, unit_id)].moves_left == 0
            &&& o.2[0] matches Event::UnitAttacked { counter, .. }
                && 0 <= counter
                && (has_unit(o.0, unit_id) <==> a.hp - counter > 0)
                && (has_unit(o.0, unit_id) ==> o.0[unit_pos(o.0, unit_id)].hp == a.hp - counter)
            &&& has_unit(o.0, d.id) ==> o.0[unit_pos(o.0, d.id)].hp == d.hp - dealt
        }),
{
    let us = r.units@;
    let ai = unit_pos(us, unit_id);
    let di = pos_at(us, tx, ty);
    let wi = choose|i: int| 0 <= i < us.len() && (#[trigger] us[i]).id == unit_id;
    assert(with_id(us, wi, unit_id));
    lemma_unit_pos(us, wi, unit_id);
    let fi = choose|i: int| 0 <= i < us.len() && unit_at(#[trigger] us[i], tx, ty);
    lemma_first_exists(us, fi, tx, ty);
    assert(first_at(us, di, tx, ty));
    let a = us[ai];
    let d = us[di];
    assert(ai != di);
    let o = r.attack_outcome(unit_id, tx, ty, terrain);
    let at = terrain[r.idx(a.x, a.y)];
    let dt = terrain[r.idx(tx, ty)];
    let dealt = strike_spec(a.kind, at, dt);
    let killed = d.hp - dealt <= 0;
    let adjacent = wrap_dist(a.x as int, a.y as int, tx as int, ty as int, r.width as int) == 1;
    let counter = if !killed && adjacent { strike_spec(d.kind, dt, at) } else { 0 };
    let ahp = a.hp - counter;
    lemma_strike_range(a.kind, at, dt);
    lemma_strike_range(d.kind, dt, at);
    let dead = ahp <= 0;
    let us1 = us.update(ai, Unit { hp: ahp as i32, moves_left: 0, ..a });
    let us2 = if killed { us1.remove(di) } else { us1.update(di, Unit { hp: (d.hp - dealt) as i32, ..d }) };
    let ai2 = if killed && di < ai { ai - 1 } else { ai };
    let us3 = if dead { us2.remove(ai2) } else { us2 };
    assert(o.0 == us3);
    assert(us2[ai2].id == unit_id);
    if killed {
        if has_unit(us3, d.id) {
            let k = choose|k: int| 0 <= k < us3.len() && (#[trigger] us3[k]).id == d.id;
            let k2 = if dead && k >= ai2 { k + 1 } else { k };
            assert(us2[k2].id == d.id);
            let k1 = if k2 >= di { k2 + 1 } else { k2 };
            assert(us1[k1].id == d.id);
            assert(k1 != di);
            if k1 == ai {
                assert(us[ai].id == unit_id);
            } else {
                assert(us[k1].id == us[di].id);
            }
        }
    } else {
        let k = if dead && di > ai2 { di - 1 } else { di };
        assert(us3[k].id == d.id);
        assert(us3[k].hp == d.hp - dealt);
        assert(with_id(us3, k, d.id));
        lemma_unit_pos(us3, k, d.id);
    }
    if !dead {
        assert(us3[ai2].id == unit_id);
    }
    if has_unit(us3, unit_id) {
        if dead {
            let k = choose|k: int| 0 <= k < us3.len() && (#[trigger] us3[k]).id == unit_id;
            let k2 = if k >= ai2 { k + 1 } else { k };
            assert(us2[k2].id == unit_id);
            let k1 = if killed && k2 >= di { k2 + 1 } else { k2 };
            assert(us1[k1].id == unit_id);
            assert(k1 != ai);
            assert(us[k1].id == us[ai].id);
        } else {
            assert(with_id(us3, ai2, unit_id));
            lemma_unit_pos(us3, ai2, unit_id);
        }
    }
}

/// The unit found at position `i` with id `id` is the one `unit_pos` names.
pub proof fn lemma_unit_pos(us: Seq<Unit>, i: int, id: u32)
    requires
        ids_distinct(us),
        with_id(us, i, id),
    ensures
        unit_pos(us, id) == i,
{
    let c = unit_pos(us, id);
    assert(with_id(us, c, id));
    if c != i {
        assert(us[c].id == us[i].id);
    }
}

/// The first unit found at (x, y) is the one `pos_at` names.
proof fn lemma_pos_at(us: Seq<Unit>, i: int, x: u32, y: u32)
    requires
        first_at(us, i, x, y),
    ensures
        pos_at(us, x, y) == i,
        occupied_spec(us, x, y),
{
    let e = pos_at(us, x, y);
    assert(first_at(us, e, x, y));
    if e < i {
        assert(unit_at(us[e], x, y));
    } else if e > i {
        assert(unit_at(us[i], x, y));
    }
}

/// Replacing a unit by one with the same id keeps the ids distinct.
proof fn lemma_update_unit(us: Seq<Unit>, k: int, u: Unit)
    requires
        0 <= k < us.len(),
        ids_distinct(us),
        u.id == us[k].id,
    ensures
        ids_distinct(us.update(k, u)),
{
    let r = us.update(k, u);
    assert forall|a: int, b: int| 0 <= a < r.len() && 0 <= b < r.len() && a != b implies
        #[trigger] r[a].id != #[trigger] r[b].id by {
        assert(r[a].id == us[a].id);
        assert(r[b].id == us[b].id);
    }
}

/// Removing the `k`-th unit keeps the ids distinct, and keeps sound every unit
/// that was sound (all but possibly the `skip`-th).
proof fn lemma_remove_units(us: Seq<Unit>, k: int, skip: int, w: u32, h: u32, next: u32)
    requires
        0 <= k < us.len(),
        ids_distinct(us),
        forall|i: int| 0 <= i < us.len() && i != skip ==> unit_ok(#[trigger] us[i], w, h, next),
    ensures
        ids_distinct(us.remove(k)),
        forall|i: int| 0 <= i < us.len() - 1 && i != (if skip < k { skip } else if skip > k { skip - 1 } else { -1 })
            ==> unit_ok(#[trigger] us.remove(k)[i], w, h, next),
{
    let r = us.remove(k);
    assert forall|a: int, b: int| 0 <= a < r.len() && 0 <= b < r.len() && a != b implies
        #[trigger] r[a].id != #[trigger] r[b].id by {
        let ao = if a < k { a } else { a + 1 };
        let bo = if b < k { b } else { b + 1 };
        assert(r[a] == us[ao]);
        assert(r[b] == us[bo]);
    }
    let s2 = if skip < k { skip } else if skip > k { skip - 1 } else { -1 };
    assert forall|i: int| 0 <= i < r.len() && i != s2 implies unit_ok(#[trigger] r[i], w, h, next) by {
        let io = if i < k { i } else { i + 1 };
        assert(r[i] == us[io]);
    }
}

/// Removing a hold keeps the holds sound.
proof fn lemma_remove_hold(hs: Seq<Hold>, k: int)
    requires
        0 <= k < hs.len(),
        holds_ok(hs),
    ensures
        holds_ok(hs.remove(k)),
{
    let r = hs.remove(k);
    assert forall|a: int, b: int| 0 <= a < b < r.len() implies
        #[trigger] r[a].galley < #[trigger] r[b].galley by {
        let ao = if a < k { a } else { a + 1 };
        let bo = if b < k { b } else { b + 1 };
        assert(r[a] == hs[ao]);
        assert(r[b] == hs[bo]);
    }
    assert forall|i: int| 0 <= i < r.len() implies (#[trigger] r[i]).load@.len() > 0 by {
        let io = if i < k { i } else { i + 1 };
        assert(r[i] == hs[io]);
    }
    assert forall|i: int, j: int| 0 <= i < r.len() && 0 <= j < r[i].load@.len() implies
        carried_ok(#[trigger] r[i].load@[j]) by {
        let io = if i < k { i } else { i + 1 };
        assert(r[i] == hs[io]);
    }
}


/// In sound holds, the hold of a galley is the one `hold_pos` names.
proof fn lemma_hold_pos(hs: Seq<Hold>, k: int)
    requires
        holds_ok(hs),
        0 <= k < hs.len(),
    ensures
        has_hold(hs, hs[k].galley),
        hold_pos(hs, hs[k].galley) == k,
{
    let g = hs[k].galley;
    assert(has_hold(hs, g));
    let c = hold_pos(hs, g);
    if c < k {
        assert(hs[c].galley < hs[k].galley);
    } else if c > k {
        assert(hs[k].galley < hs[c].galley);
    }
}

/// Removing the `k`-th hold removes its galley from the cargo.
proof fn lemma_cargo_remove(hs: Seq<Hold>, k: int)
    requires
        holds_ok(hs),
        0 <= k < hs.len(),
    ensures
        holds_ok(hs.remove(k)),
        cargo_of(hs.remove(k)) == cargo_of(hs).remove(hs[k].galley),
{
    lemma_remove_hold(hs, k);
    let r = hs.remove(k);
    let g = hs[k].galley;
    assert forall|j: int| 0 <= j < r.len() implies #[trigger] r[j] == hs[if j < k { j } else { j + 1 }] by {}
    assert forall|x: u32| #[trigger] has_hold(r, x) <==> has_hold(hs, x) && x != g by {
        if has_hold(r, x) {
            let j = choose|j: int| 0 <= j < r.len() && (#[trigger] r[j]).galley == x;
            let jo = if j < k { j } else { j + 1 };
            assert(hs[jo].galley == x);
            if jo < k {
                assert(hs[jo].galley < hs[k].galley);
            } else {
                assert(hs[k].galley < hs[jo].galley);
            }
        }
        if has_hold(hs, x) && x != g {
            let j = choose|j: int| 0 <= j < hs.len() && (#[trigger] hs[j]).galley == x;
            assert(j != k);
            let jr = if j < k { j } else { j - 1 };
            assert(r[jr].galley == x);
        }
    }
    assert forall|x: u32| #[trigger] has_hold(r, x) implies r[hold_pos(r, x)].load@ == hs[hold_pos(hs, x)].load@ by {
        let j = hold_pos(r, x);
        lemma_hold_pos(r, j);
        let jo = if j < k { j } else { j + 1 };
        lemma_hold_pos(hs, jo);
    }
    assert(cargo_of(r) =~= cargo_of(hs).remove(g));
}

/// Inserting a hold for a galley at its place in the order adds it to the cargo.
proof fn lemma_cargo_insert(hs: Seq<Hold>, k: int, h: Hold)
    requires
        holds_ok(hs),
        0 <= k <= hs.len(),
        forall|j: int| 0 <= j < k ==> (#[trigger] hs[j]).galley < h.galley,
        forall|j: int| k <= j < hs.len() ==> (#[trigger] hs[j]).galley > h.galley,
        h.load@.len() > 0,
        forall|j: int| 0 <= j < h.load@.len() ==> carried_ok(#[trigger] h.load@[j]),
    ensures
        holds_ok(hs.insert(k, h)),
        cargo_of(hs.insert(k, h)) == cargo_of(hs).insert(h.galley, h.load@),
{
    let r = hs.insert(k, h);
    let g = h.galley;
    assert forall|j: int| 0 <= j < r.len() implies #[trigger] r[j] == (if j < k { hs[j] } else if j == k { h } else { hs[j - 1] }) by {}
    assert forall|a: int, b: int| 0 <= a < b < r.len() implies #[trigger] r[a].galley < #[trigger] r[b].galley by {
        assert(r[a] == (if a < k { hs[a] } else if a == k { h } else { hs[a - 1] }));
        assert(r[b] == (if b < k { hs[b] } else if b == k { h } else { hs[b - 1] }));
    }
    assert forall|i: int| 0 <= i < r.len() implies (#[trigger] r[i]).load@.len() > 0 by {
        assert(r[i] == (if i < k { hs[i] } else if i == k { h } else { hs[i - 1] }));
    }
    assert forall|i: int, j: int| 0 <= i < r.len() && 0 <= j < r[i].load@.len() implies
        carried_ok(#[trigger] r[i].load@[j]) by {
        assert(r[i] == (if i < k { hs[i] } else if i == k { h } else { hs[i - 1] }));
    }
    assert(holds_ok(r));
    assert forall|x: u32| #[trigger] has_hold(r, x) <==> has_hold(hs, x) || x == g by {
        if has_hold(r, x) {
            let j = choose|j: int| 0 <= j < r.len() && (#[trigger] r[j]).galley == x;
            if j < k {
                assert(hs[j].galley == x);
            } else if j > k {
                assert(hs[j - 1].galley == x);
            }
        }
        if has_hold(hs, x) {
            let j = choose|j: int| 0 <= j < hs.len() && (#[trigger] hs[j]).galley == x;
            let jr = if j < k { j } else { j + 1 };
            assert(r[jr].galley == x);
        }
        if x == g {
            assert(r[k].galley == x);
        }
    }
    assert forall|x: u32| #[trigger] has_hold(r, x) implies
        r[hold_pos(r, x)].load@ == (if x == g { h.load@ } else { hs[hold_pos(hs, x)].load@ }) by {
        let j = hold_pos(r, x);
        lemma_hold_pos(r, j);
        if j != k {
            let jo = if j < k { j } else { j - 1 };
            lemma_hold_pos(hs, jo);
        }
    }
    assert(cargo_of(r) =~= cargo_of(hs).insert(g, h.load@));
}

/// In sound holds, the hold of a galley is the one `hold_pos` names.
pub proof fn lemma_hold_pos_pub(hs: Seq<Hold>, k: int)
    requires
        holds_ok(hs),
        0 <= k < hs.len(),
    ensures
        has_hold(hs, hs[k].galley),
        hold_pos(hs, hs[k].galley) == k,
{
    lemma_hold_pos(hs, k);
}

/// A unit stepping onto a tile never changes who owns it, what it is or what
/// stands on it; a unit of the owner frees the tile of any occupier; a unit at
/// war with the owner occupies it; any other step leaves the tile as it was.
pub proof fn lemma_step_on_law(p: Plot, mover: u16, at_war: bool)
    ensures
        step_on(p, mover, at_war).owner == p.owner,
        step_on(p, mover, at_war).kind == p.kind,
        step_on(p, mover, at_war).building == p.building,
        p.owner == Some(mover) ==> step_on(p, mover, at_war).occupier is None,
        (p.owner matches Some(o) && o != mover && at_war) ==> step_on(p, mover, at_war).occupier == Some(mover),
        (p.owner is None || (p.owner != Some(mover) && !at_war)) ==> step_on(p, mover, at_war) == p,
{
}

/// A granted embark never loads a galley past its capacity: the galley had
/// room for one more (for a load the count of which fits in a byte, as the
/// rules count it).
pub proof fn lemma_embark_within_capacity(r: Realm, unit_id: u32, transport_id: u32)
    requires
        r.wf(),
        r.embark_refusal(unit_id, transport_id) is None,
        load_of(r.holds@, transport_id).len() < 256,
    ensures
        has_unit(r.units@, transport_id),
        load_of(r.holds@, transport_id).len() + 1
            <= stats_of(r.units@[unit_pos(r.units@, transport_id)].kind).capacity,
{
}

/// An embark onto a galley already loaded to its capacity is refused.
pub proof fn lemma_full_galley_refuses(r: Realm, unit_id: u32, transport_id: u32)
    requires
        r.wf(),
        has_unit(r.units@, transport_id),
        load_of(r.holds@, transport_id).len() == stats_of(r.units@[unit_pos(r.units@, transport_id)].kind).capacity,
    ensures
        r.embark_refusal(unit_id, transport_id) is Some,
{
}

/// The regeneration of the first `n` units keeps every unit where it stands,
/// of its nation and kind, and with its movement; a unit's hit points change
/// only upwards, and only when it stands on its own nation's tile.
proof fn lemma_regen_keeps(us: Seq<Unit>, ns: Seq<Nation>, ps: Seq<Plot>, w: u32, n: nat)
    requires
        n <= us.len(),
    ensures
        ({
            let r = regen_upto(us, ns, ps, w, n).0;
            &&& r.len() == us.len()
            &&& forall|j: int| 0 <= j < us.len() ==> {
                &&& (#[trigger] r[j]).x == us[j].x
                &&& r[j].y == us[j].y
                &&& r[j].owner == us[j].owner
                &&& r[j].kind == us[j].kind
                &&& r[j].id == us[j].id
                &&& r[j].moves_left == us[j].moves_left
                &&& r[j].hp >= us[j].hp
                &&& r[j].hp != us[j].hp ==> ps[us[j].y * w + us[j].x].owner == Some(us[j].owner)
            }
        }),
    decreases n,
{
    if n > 0 {
        lemma_regen_keeps(us, ns, ps, w, (n - 1) as nat);
        let prev = regen_upto(us, ns, ps, w, (n - 1) as nat);
        let i = n - 1;
        let u = prev.0[i];
        let r = regen_upto(us, ns, ps, w, n).0;
        assert(r == regen_step(prev.0, prev.1, ps, w, i).0);
        assert forall|j: int| 0 <= j < us.len() implies {
            &&& (#[trigger] r[j]).x == us[j].x
            &&& r[j].y == us[j].y
            &&& r[j].owner == us[j].owner
            &&& r[j].kind == us[j].kind
            &&& r[j].id == us[j].id
            &&& r[j].moves_left == us[j].moves_left
            &&& r[j].hp >= us[j].hp
            &&& r[j].hp != us[j].hp ==> ps[us[j].y * w + us[j].x].owner == Some(us[j].owner)
        } by {
            assert(prev.0[j].x == us[j].x);
            if j == i && !(u.hp >= stats_of(u.kind).max_hp || ps[u.y * w + u.x].owner != Some(u.owner)
                || !has_nation(prev.1, u.owner)) {
                let k = nation_pos(prev.1, u.owner);
                let heal = heal_amount(u, prev.1[k].manpower);
                if heal > 0 {
                    assert(u.hp < stats_of(u.kind).max_hp);
                    assert(heal <= stats_of(u.kind).max_hp - u.hp);
                    assert(r[j] == Unit { hp: (u.hp + heal) as i32, ..u });
                }
            }
        }
    }
}

/// The monthly refresh gives every unit its movement back and moves no one;
/// it never lowers a unit's hit points, and raises them only for a unit
/// standing on its own nation's tile.
pub proof fn lemma_refresh_heals_only_at_home(us: Seq<Unit>, ns: Seq<Nation>, ps: Seq<Plot>, w: u32)
    ensures
        ({
            let r = regen_upto(refilled(us), ns, ps, w, us.len()).0;
            &&& r.len() == us.len()
            &&& forall|j: int| 0 <= j < us.len() ==> {
                &&& (#[trigger] r[j]).x == us[j].x
                &&& r[j].y == us[j].y
                &&& r[j].owner == us[j].owner
                &&& r[j].id == us[j].id
                &&& r[j].moves_left == stats_of(us[j].kind).moves
                &&& r[j].hp >= us[j].hp
                &&& r[j].hp != us[j].hp ==> ps[us[j].y * w + us[j].x].owner == Some(us[j].owner)
            }
        }),
{
    let f = refilled(us);
    lemma_regen_keeps(f, ns, ps, w, us.len());
    let r = regen_upto(f, ns, ps, w, us.len()).0;
    assert forall|j: int| 0 <= j < us.len() implies (#[trigger] r[j]).x == us[j].x by {
        assert(f[j].x == us[j].x);
    }
}

} // verus!
