//! The military AI of a nation at war: recruit at every free barracks within
//! a cap, attack enemy units in range, march on the nearest reachable enemy
//! land to occupy it, and across the sea: build a port, a couple of galleys,
//! board units, land them on the enemy's shore.
//!
//! Every order it issues fits the state it was planned on (see
//! [`order_ok`]): the nation's own tiles and units, moves the rules grant,
//! targets at war and in range. The recruitment and the attacks are stated
//! exactly (see [`military_ok`]).

use vstd::prelude::*;

use crate::ai::{aboard, adjacent_enemy_land, adjacent_land_unit, any_land_unit_at, coastal_water_to_build, coords, coords_spec,
    enemy_land_at, galley_upto, land_unit_at, load_len, manhattan, manhattan_spec, nearest_loadable_galley, port_site,
    unit_on};
use crate::march::{granted, march_to_enemy, march_to_enemy_spec, march_toward, march_toward_spec, order_ok};
use crate::nation::FER;
use crate::path::{lemma_cell, lemma_grid, lemma_nb_in_map, nb_spec, Ground};
use crate::proto::{Building, Command, UnitKind};
use crate::nation::Nation;
use crate::realm::{has_nation, nation_pos, occupied_spec, unit_ok, Plot, Realm};
use crate::tile::TileKind;
use crate::works::{build_cost, build_cost_spec};
use crate::unit::{stats_of, unit_stats, Unit};

verus! {

/// All the orders fit the state.
pub open spec fn orders_ok(r: Realm, nation: u16, ground: Seq<Ground>, cmds: Seq<Command>) -> bool {
    forall|k: int| 0 <= k < cmds.len() ==> order_ok(r, nation, ground, #[trigger] cmds[k])
}

/// A unit of a nation at war with `nation` stands at `p`.
pub open spec fn enemy_unit_at(r: Realm, nation: u16, p: (u32, u32)) -> bool {
    exists|j: int| 0 <= j < r.units@.len() && (#[trigger] r.units@[j]).x == p.0 && r.units@[j].y == p.1
        && r.units@[j].owner != nation && r.diplomacy.at_war_spec(nation, r.units@[j].owner)
}

/// Tile `i` belongs to a nation at war with `nation` and is not yet occupied by it.
pub open spec fn enemy_tile(r: Realm, nation: u16, i: int) -> bool {
    r.plots@[i].owner matches Some(o) && o != nation && r.diplomacy.at_war_spec(nation, o)
        && r.plots@[i].occupier != Some(nation)
}

/// No unit of a nation at war with `nation` is on the map, and no tile of
/// such a nation is left for it to occupy.
pub open spec fn nothing_to_fight(r: Realm, nation: u16) -> bool {
    &&& forall|j: int| 0 <= j < r.units@.len() ==> !((#[trigger] r.units@[j]).owner != nation
        && r.diplomacy.at_war_spec(nation, r.units@[j].owner))
    &&& forall|i: int| 0 <= i < r.plots@.len() ==> !#[trigger] enemy_tile(r, nation, i)
}

/// Coordinates of the enemy tiles (see [`enemy_tile`]) among the first `k`, in tile order.
pub open spec fn enemy_tile_list(r: Realm, nation: u16, k: int) -> Seq<(u32, u32)>
    decreases k,
{
    if k <= 0 {
        Seq::empty()
    } else {
        let before = enemy_tile_list(r, nation, k - 1);
        if enemy_tile(r, nation, k - 1) {
            before.push(coords_spec((k - 1) as usize, r.width))
        } else {
            before
        }
    }
}

/// Which tiles are enemy tiles.
pub open spec fn enemy_mask(r: Realm, nation: u16) -> Seq<bool> {
    Seq::new(r.plots@.len(), |i: int| enemy_tile(r, nation, i))
}

/// Positions of the enemy units among the first `k`, in unit order.
pub open spec fn foe_spots(r: Realm, nation: u16, k: int) -> Seq<(u32, u32)>
    decreases k,
{
    if k <= 0 {
        Seq::empty()
    } else {
        let u = r.units@[k - 1];
        let before = foe_spots(r, nation, k - 1);
        if u.owner != nation && r.diplomacy.at_war_spec(nation, u.owner) {
            before.push((u.x, u.y))
        } else {
            before
        }
    }
}

/// Positions of the enemy units.
fn enemy_units(realm: &Realm, nation: u16) -> (v: Vec<(u32, u32)>)
    requires
        realm.wf(),
    ensures
        v@ == foe_spots(*realm, nation, realm.units@.len() as int),
        forall|k: int| 0 <= k < v@.len() ==> #[trigger] enemy_unit_at(*realm, nation, v@[k]),
        v@.len() == 0 <==> forall|j: int| 0 <= j < realm.units@.len() ==> !((#[trigger] realm.units@[j]).owner != nation
            && realm.diplomacy.at_war_spec(nation, realm.units@[j].owner)),
{
    let mut v: Vec<(u32, u32)> = Vec::new();
    let mut i: usize = 0;
    while i < realm.units.len()
        invariant
            realm.wf(),
            0 <= i <= realm.units@.len(),
            forall|k: int| 0 <= k < v@.len() ==> #[trigger] enemy_unit_at(*realm, nation, v@[k]),
            v@.len() == 0 <==> forall|j: int| 0 <= j < i ==> !((#[trigger] realm.units@[j]).owner != nation
                && realm.diplomacy.at_war_spec(nation, realm.units@[j].owner)),
            v@ == foe_spots(*realm, nation, i as int),
        decreases realm.units.len() - i,
    {
        let u = realm.units[i];
        if u.owner != nation && realm.diplomacy.at_war(nation, u.owner) {
            let ghost before = v@;
            proof {
                assert(enemy_unit_at(*realm, nation, (u.x, u.y)));
            }
            v.push((u.x, u.y));
            proof {
                assert forall|k: int| 0 <= k < v@.len() implies #[trigger] enemy_unit_at(*realm, nation, v@[k]) by {
                    if k < v@.len() - 1 {
                        assert(v@[k] == before[k]);
                    }
                }
            }
        }
        i = i + 1;
    }
    v
}

/// The enemy tiles: a mask over the map and their coordinates in index order.
fn enemy_tiles(realm: &Realm, nation: u16) -> (r: (Vec<bool>, Vec<(u32, u32)>))
    requires
        realm.wf(),
    ensures
        r.0@.len() == realm.plots@.len(),
        forall|i: int| 0 <= i < realm.plots@.len() ==> (#[trigger] r.0@[i] <==> enemy_tile(*realm, nation, i)),
        forall|k: int| 0 <= k < r.1@.len() ==> #[trigger] r.1@[k].0 < realm.width && r.1@[k].1 < realm.height,
        r.1@.len() == 0 <==> forall|i: int| 0 <= i < realm.plots@.len() ==> !#[trigger] enemy_tile(*realm, nation, i),
        r.0@ == enemy_mask(*realm, nation),
        r.1@ == enemy_tile_list(*realm, nation, realm.plots@.len() as int),
{
    let n = realm.plots.len();
    let mut mask: Vec<bool> = Vec::new();
    let mut list: Vec<(u32, u32)> = Vec::new();
    let mut i: usize = 0;
    while i < n
        invariant
            realm.wf(),
            n == realm.plots@.len(),
            0 <= i <= n,
            mask@.len() == i,
            forall|j: int| 0 <= j < i ==> (#[trigger] mask@[j] <==> enemy_tile(*realm, nation, j)),
            forall|k: int| 0 <= k < list@.len() ==> #[trigger] list@[k].0 < realm.width && list@[k].1 < realm.height,
            list@.len() == 0 <==> forall|j: int| 0 <= j < i ==> !#[trigger] enemy_tile(*realm, nation, j),
            list@ == enemy_tile_list(*realm, nation, i as int),
        decreases n - i,
    {
        let p = realm.plots[i];
        let hit = match p.owner {
            Some(o) => o != nation && realm.diplomacy.at_war(nation, o) && p.occupier != Some(nation),
            None => false,
        };
        mask.push(hit);
        if hit {
            proof {
                crate::path::lemma_grid(i as int, realm.width as int, realm.height as int);
                assert(i < 0x1_0000_0000);
                assert(enemy_tile(*realm, nation, i as int));
            }
            let c = coords(i, realm.width);
            list.push(c);
        }
        i = i + 1;
    }
    assert(mask@ =~= enemy_mask(*realm, nation));
    (mask, list)
}

/// Units of `nation` among the first `k`, by domain.
pub open spec fn own_units(us: Seq<Unit>, nation: u16, naval_only: bool, k: int) -> int
    decreases k,
{
    if k <= 0 {
        0
    } else {
        own_units(us, nation, naval_only, k - 1) + if us[k - 1].owner == nation && (!naval_only || stats_of(us[k - 1].kind).naval) { 1int } else { 0 }
    }
}

proof fn lemma_own_units_bound(us: Seq<Unit>, nation: u16, naval_only: bool, k: int)
    requires
        0 <= k,
    ensures
        0 <= own_units(us, nation, naval_only, k) <= k,
    decreases k,
{
    if k > 0 {
        lemma_own_units_bound(us, nation, naval_only, k - 1);
    }
}

/// Number of units of `nation` (all of them, or only its galleys).
fn count_units(realm: &Realm, nation: u16, naval_only: bool) -> (c: u64)
    ensures
        c == own_units(realm.units@, nation, naval_only, realm.units@.len() as int),
{
    let mut c: u64 = 0;
    let mut i: usize = 0;
    while i < realm.units.len()
        invariant
            0 <= i <= realm.units@.len(),
            c == own_units(realm.units@, nation, naval_only, i as int),
        decreases realm.units.len() - i,
    {
        proof {
            lemma_own_units_bound(realm.units@, nation, naval_only, i as int);
        }
        let u = realm.units[i];
        if u.owner == nation && (!naval_only || unit_stats(u.kind).naval) {
            c = c + 1;
        }
        i = i + 1;
    }
    c
}

/// A recruitment order on tile `i` fits the state.
proof fn lemma_recruit_ok(r: Realm, nation: u16, ground: Seq<Ground>, i: int, kind: UnitKind)
    requires
        r.wf(),
        0 <= i < r.plots@.len(),
        r.plots@[i].owner == Some(nation),
        r.plots@[i].building == Some(if stats_of(kind).naval { Building::Port } else { Building::Military }),
        !occupied_spec(r.units@, coords_spec(i as usize, r.width).0, coords_spec(i as usize, r.width).1),
    ensures
        order_ok(r, nation, ground, Command::CreateUnit { x: coords_spec(i as usize, r.width).0,
            y: coords_spec(i as usize, r.width).1, nation, kind }),
{
    crate::path::lemma_grid(i, r.width as int, r.height as int);
    assert(i < 0x1_0000_0000);
    assert((i as usize as u32) as int == i);
}

/// Tiles among the first `k` that `nation` owns.
pub open spec fn owned_upto(ps: Seq<Plot>, nation: u16, k: int) -> int
    decreases k,
{
    if k <= 0 {
        0
    } else {
        owned_upto(ps, nation, k - 1) + if ps[k - 1].owner == Some(nation) { 1int } else { 0 }
    }
}

proof fn lemma_owned_bound(ps: Seq<Plot>, nation: u16, k: int)
    requires
        0 <= k,
    ensures
        0 <= owned_upto(ps, nation, k) <= k,
    decreases k,
{
    if k > 0 {
        lemma_owned_bound(ps, nation, k - 1);
    }
}

/// Integer division of `a` by `b > 0` rounded towards zero, as the machine does it.
pub open spec fn quot(a: int, b: int) -> int {
    if a >= 0 {
        a / b
    } else {
        -((-a) / b)
    }
}

/// The best land unit the iron branch of `n` allows.
pub open spec fn recruit_kind(n: Nation) -> UnitKind {
    if n.tech@[FER as int] >= 2 {
        UnitKind::Cavalry
    } else if n.tech@[FER as int] >= 1 {
        UnitKind::Archer
    } else {
        UnitKind::Infantry
    }
}

/// Cap on the units of a nation holding `owned` tiles: twice its territory,
/// kept between 6 and 40.
pub open spec fn recruit_cap(owned: int) -> int {
    if 2 * owned < 6 {
        6
    } else if 2 * owned > 40 {
        40
    } else {
        2 * owned
    }
}

/// How many units `nation` recruits this turn: room under the cap, lowered to
/// what its money and its manpower pay for (each quotient taken as a `u32`).
pub open spec fn recruit_budget(r: Realm, nation: u16) -> int {
    let mine = own_units(r.units@, nation, false, r.units@.len() as int);
    let cap = recruit_cap(owned_upto(r.plots@, nation, r.plots@.len() as int));
    if mine >= cap || !has_nation(r.nations@, nation) {
        0
    } else {
        let n = r.nations@[nation_pos(r.nations@, nation)];
        let s = stats_of(recruit_kind(n));
        let b0 = cap - mine;
        let m = quot(n.money as int, s.cost_money as int) as u32;
        let b1 = if s.cost_money > 0 && m < b0 { m as int } else { b0 };
        let f = quot(n.manpower as int, s.cost_force as int) as u32;
        if s.cost_force > 0 && f < b1 { f as int } else { b1 }
    }
}

/// Tile `i` carries free barracks of `nation`.
pub open spec fn barracks_free(r: Realm, nation: u16, i: int) -> bool {
    let c = coords_spec(i as usize, r.width);
    &&& r.plots@[i].owner == Some(nation)
    &&& r.plots@[i].building == Some(Building::Military)
    &&& !occupied_spec(r.units@, c.0, c.1)
}

/// One unit of `kind` at each free barracks of `nation` from tile `i` on, in
/// tile order, `b` at most.
pub open spec fn recruit_from(r: Realm, nation: u16, kind: UnitKind, i: int, b: int) -> Seq<Command>
    decreases r.plots@.len() - i,
{
    if i < 0 || i >= r.plots@.len() || b <= 0 {
        Seq::empty()
    } else if barracks_free(r, nation, i) {
        let c = coords_spec(i as usize, r.width);
        seq![Command::CreateUnit { x: c.0, y: c.1, nation, kind }] + recruit_from(r, nation, kind, i + 1, b - 1)
    } else {
        recruit_from(r, nation, kind, i + 1, b)
    }
}

/// The recruitment orders of `nation` this turn.
pub open spec fn recruit_plan(r: Realm, nation: u16) -> Seq<Command> {
    let b = recruit_budget(r, nation);
    if b <= 0 {
        Seq::empty()
    } else {
        let n = r.nations@[nation_pos(r.nations@, nation)];
        recruit_from(r, nation, recruit_kind(n), 0, b)
    }
}

/// The tile a recruitment order names, as an index (none for other orders).
pub open spec fn recruit_tile(r: Realm, c: Command) -> int {
    match c {
        Command::CreateUnit { x, y, .. } => r.idx(x, y),
        _ => -1,
    }
}

/// The orders of [`recruit_from`] number `b` at most, recruit `kind` for
/// `nation` on free barracks from tile `i` on, on tiles in increasing order.
proof fn lemma_recruit_from(r: Realm, nation: u16, kind: UnitKind, i: int, b: int)
    requires
        r.wf(),
        0 <= i,
    ensures
        ({
            let s = recruit_from(r, nation, kind, i, b);
            &&& s.len() <= (if b > 0 { b } else { 0 })
            &&& forall|j: int| 0 <= j < s.len() ==> {
                &&& (#[trigger] s[j]) matches Command::CreateUnit { x, y, nation: n2, kind: k2 }
                &&& n2 == nation && k2 == kind && x < r.width && y < r.height
                &&& i <= r.idx(x, y) < r.plots@.len()
                &&& barracks_free(r, nation, r.idx(x, y))
            }
            &&& forall|j1: int, j2: int| 0 <= j1 < j2 < s.len() ==> recruit_tile(r, #[trigger] s[j1]) < recruit_tile(r, #[trigger] s[j2])
        }),
    decreases r.plots@.len() - i,
{
    if i < r.plots@.len() && b > 0 {
        lemma_recruit_from(r, nation, kind, i + 1, if barracks_free(r, nation, i) { b - 1 } else { b });
        if barracks_free(r, nation, i) {
            let c = coords_spec(i as usize, r.width);
            crate::path::lemma_grid(i, r.width as int, r.height as int);
            assert(i < 0x1_0000_0000);
            assert((i as usize as u32) as int == i);
            assert(r.idx(c.0, c.1) == i);
            let rest = recruit_from(r, nation, kind, i + 1, b - 1);
            let s = recruit_from(r, nation, kind, i, b);
            assert(s == seq![Command::CreateUnit { x: c.0, y: c.1, nation, kind }] + rest);
            assert forall|j: int| 0 <= j < s.len() implies {
                &&& (#[trigger] s[j]) matches Command::CreateUnit { x, y, nation: n2, kind: k2 }
                &&& n2 == nation && k2 == kind && x < r.width && y < r.height
                &&& i <= r.idx(x, y) < r.plots@.len()
                &&& barracks_free(r, nation, r.idx(x, y))
            } by {
                if j > 0 {
                    assert(s[j] == rest[j - 1]);
                }
            }
            assert forall|j1: int, j2: int| 0 <= j1 < j2 < s.len() implies recruit_tile(r, #[trigger] s[j1]) < recruit_tile(r, #[trigger] s[j2]) by {
                assert(s[j2] == rest[j2 - 1]);
                if j1 > 0 {
                    assert(s[j1] == rest[j1 - 1]);
                }
            }
        }
    }
}

/// Recruitment never orders more units than the room under the cap (twice
/// the territory, between 6 and 40) and than money and manpower pay for (for
/// a nation whose stocks are not negative); each order recruits the kind
/// the iron branch allows on a distinct free barracks of the nation; and a
/// nation orders one galley at most.
pub proof fn lemma_recruit_law(r: Realm, nation: u16)
    requires
        r.wf(),
        has_nation(r.nations@, nation),
        r.nations@[nation_pos(r.nations@, nation)].money >= 0,
        r.nations@[nation_pos(r.nations@, nation)].manpower >= 0,
    ensures
        ({
            let n = r.nations@[nation_pos(r.nations@, nation)];
            let kind = recruit_kind(n);
            let s = stats_of(kind);
            let mine = own_units(r.units@, nation, false, r.units@.len() as int);
            let cap = recruit_cap(owned_upto(r.plots@, nation, r.plots@.len() as int));
            let plan = recruit_plan(r, nation);
            &&& plan.len() <= (if mine < cap { cap - mine } else { 0 })
            &&& plan.len() <= n.money / s.cost_money
            &&& plan.len() <= n.manpower / s.cost_force
            &&& forall|j: int| 0 <= j < plan.len() ==> {
                &&& (#[trigger] plan[j]) matches Command::CreateUnit { x, y, nation: n2, kind: k2 }
                &&& n2 == nation && k2 == kind && x < r.width && y < r.height
                &&& barracks_free(r, nation, r.idx(x, y))
            }
            &&& forall|j1: int, j2: int| 0 <= j1 < j2 < plan.len() ==> recruit_tile(r, #[trigger] plan[j1]) != recruit_tile(r, #[trigger] plan[j2])
            &&& galley_plan(r, nation).len() <= 1
        }),
{
    let n = r.nations@[nation_pos(r.nations@, nation)];
    let kind = recruit_kind(n);
    let b = recruit_budget(r, nation);
    lemma_recruit_from(r, nation, kind, 0, b);
    lemma_own_units_bound(r.units@, nation, false, r.units@.len() as int);
    lemma_owned_bound(r.plots@, nation, r.plots@.len() as int);
    let s = stats_of(kind);
    let mq = quot(n.money as int, s.cost_money as int);
    let fq = quot(n.manpower as int, s.cost_force as int);
    assert(mq >= 0 && fq >= 0);
    if mq < 0x1_0000_0000 {
        assert((mq as u32) as int == mq);
    }
    if fq < 0x1_0000_0000 {
        assert((fq as u32) as int == fq);
    }
}

/// Recruitment: land units of the best kind the iron branch allows, at every
/// free barracks, under a cap proportional to the territory (6 to 40 units)
/// and within what the nation can pay.
fn recruit(realm: &Realm, nation: u16, ground: &Vec<Ground>) -> (cmds: Vec<Command>)
    requires
        realm.wf(),
    ensures
        orders_ok(*realm, nation, ground@, cmds@),
        cmds@ == recruit_plan(*realm, nation),
        forall|j: int| 0 <= j < cmds@.len() ==> (#[trigger] cmds@[j]) is CreateUnit,
{
    let mut cmds: Vec<Command> = Vec::new();
    let my_units = count_units(realm, nation, false);
    proof {
        lemma_own_units_bound(realm.units@, nation, false, realm.units@.len() as int);
    }
    let mut owned: u64 = 0;
    let mut i: usize = 0;
    while i < realm.plots.len()
        invariant
            0 <= i <= realm.plots@.len(),
            owned == owned_upto(realm.plots@, nation, i as int),
        decreases realm.plots.len() - i,
    {
        proof {
            lemma_owned_bound(realm.plots@, nation, i as int);
        }
        if realm.plots[i].owner == Some(nation) {
            owned = owned + 1;
        }
        i = i + 1;
    }
    proof {
        lemma_owned_bound(realm.plots@, nation, realm.plots@.len() as int);
    }
    let twice = owned * 2;
    let cap: u64 = if twice < 6 { 6 } else if twice > 40 { 40 } else { twice };
    if my_units >= cap {
        return cmds;
    }
    let k = match realm.nation_index(nation) {
        Some(k) => k,
        None => {
            return cmds;
        },
    };
    let n = realm.nations[k];
    let kind = if n.tech[FER] >= 2 {
        UnitKind::Cavalry
    } else if n.tech[FER] >= 1 {
        UnitKind::Archer
    } else {
        UnitKind::Infantry
    };
    let s = unit_stats(kind);
    let mut budget: u32 = (cap - my_units) as u32;
    if s.cost_money > 0 {
        let m = (n.money / s.cost_money) as u32;
        if m < budget {
            budget = m;
        }
    }
    if s.cost_force > 0 {
        let f = (n.manpower / s.cost_force) as u32;
        if f < budget {
            budget = f;
        }
    }
    let ghost total = recruit_from(*realm, nation, kind, 0, budget as int);
    assert(budget == recruit_budget(*realm, nation));
    let mut i: usize = 0;
    while i < realm.plots.len()
        invariant
            realm.wf(),
            0 <= i <= realm.plots@.len(),
            !stats_of(kind).naval,
            orders_ok(*realm, nation, ground@, cmds@),
            cmds@ + recruit_from(*realm, nation, kind, i as int, budget as int) == total,
            forall|j: int| 0 <= j < cmds@.len() ==> (#[trigger] cmds@[j]) is CreateUnit,
        ensures
            i >= realm.plots@.len() || budget == 0,
        decreases realm.plots.len() - i,
    {
        if budget == 0 {
            break;
        }
        let p = realm.plots[i];
        proof {
            crate::path::lemma_grid(i as int, realm.width as int, realm.height as int);
            assert(i < 0x1_0000_0000);
        }
        let (x, y) = coords(i, realm.width);
        if p.owner == Some(nation) && p.building == Some(Building::Military) && !realm.unit_occupied(x, y) {
            proof {
                lemma_recruit_ok(*realm, nation, ground@, i as int, kind);
            }
            let ghost before = cmds@;
            let c = Command::CreateUnit { x, y, nation, kind };
            cmds.push(c);
            proof {
                let rest = recruit_from(*realm, nation, kind, i as int + 1, budget as int - 1);
                assert(recruit_from(*realm, nation, kind, i as int, budget as int) == seq![c] + rest);
                assert(cmds@ + rest =~= before + (seq![c] + rest));
            }
            budget = budget - 1;
        }
        i = i + 1;
    }
    proof {
        assert(cmds@ =~= cmds@ + recruit_from(*realm, nation, kind, i as int, budget as int));
    }
    cmds
}

/// Galley positions are unit positions, on the map.
proof fn lemma_galley_on_map(r: Realm, nation: u16, u: Unit, k: int)
    requires
        r.wf(),
        0 <= k <= r.units@.len(),
    ensures
        galley_upto(r, nation, u, k).0 matches Some(p) ==> p.0 < r.width && p.1 < r.height,
    decreases k,
{
    if k > 0 {
        lemma_galley_on_map(r, nation, u, k - 1);
        assert(crate::realm::unit_ok(r.units@[k - 1], r.width, r.height, r.next_unit_id));
    }
}

/// The first of the first `k` positions of `list` nearest to (x, y) as the crow flies.
pub open spec fn nearest_upto(list: Seq<(u32, u32)>, x: u32, y: u32, width: u32, k: int) -> Option<(u32, u32)>
    decreases k,
{
    if k <= 0 {
        None
    } else {
        let t = list[k - 1];
        match nearest_upto(list, x, y, width, k - 1) {
            None => Some(t),
            Some(b) => if manhattan_spec(x, y, t.0, t.1, width) < manhattan_spec(x, y, b.0, b.1, width) {
                Some(t)
            } else {
                Some(b)
            },
        }
    }
}

/// The first enemy tile nearest to (x, y) as the crow flies.
fn nearest_tile(list: &Vec<(u32, u32)>, x: u32, y: u32, width: u32) -> (r: Option<(u32, u32)>)
    ensures
        r matches Some(t) ==> list@.contains(t) && forall|k: int| 0 <= k < list@.len()
            ==> manhattan_spec(x, y, t.0, t.1, width) <= manhattan_spec(x, y, #[trigger] list@[k].0, list@[k].1, width),
        r is None <==> list@.len() == 0,
        r == nearest_upto(list@, x, y, width, list@.len() as int),
{
    if list.len() == 0 {
        return None;
    }
    let mut best = list[0];
    let mut best_d = manhattan(x, y, best.0, best.1, width);
    let mut k: usize = 1;
    assert(nearest_upto(list@, x, y, width, 0) is None);
    while k < list.len()
        invariant
            1 <= k <= list@.len(),
            list@.contains(best),
            best_d == manhattan_spec(x, y, best.0, best.1, width),
            forall|j: int| 0 <= j < k ==> best_d <= manhattan_spec(x, y, #[trigger] list@[j].0, list@[j].1, width),
            Some(best) == nearest_upto(list@, x, y, width, k as int),
        decreases list.len() - k,
    {
        let t = list[k];
        let d = manhattan(x, y, t.0, t.1, width);
        if d < best_d {
            best = t;
            best_d = d;
        }
        k = k + 1;
    }
    Some(best)
}

/// Order of the attack choice on (distance, x, y): nearer first, then by x, then by y.
pub open spec fn closer(a: (u32, u32, u32), b: (u32, u32, u32)) -> bool {
    a.0 < b.0 || (a.0 == b.0 && (a.1 < b.1 || (a.1 == b.1 && a.2 < b.2)))
}

/// The enemy, among the first `f` positions of `foes`, that a unit at (x, y)
/// with reach `range` attacks: the first in the order [`closer`] among those
/// at distance 1 to `range`; with its distance.
pub open spec fn target_upto(foes: Seq<(u32, u32)>, x: u32, y: u32, range: u32, w: u32, f: int) -> Option<(u32, u32, u32)>
    decreases f,
{
    if f <= 0 {
        None
    } else {
        let prev = target_upto(foes, x, y, range, w, f - 1);
        let e = foes[f - 1];
        let d = manhattan_spec(x, y, e.0, e.1, w);
        if 1 <= d && d <= range && (match prev {
            None => true,
            Some(b) => closer((d, e.0, e.1), b),
        }) {
            Some((d, e.0, e.1))
        } else {
            prev
        }
    }
}

/// The enemy that unit `u` attacks, if one is in its range.
pub open spec fn attack_target(foes: Seq<(u32, u32)>, u: Unit, w: u32) -> Option<(u32, u32, u32)> {
    target_upto(foes, u.x, u.y, stats_of(u.kind).range, w, foes.len() as int)
}

/// `c` orders unit `id` to attack or to move.
pub open spec fn names(c: Command, id: u32) -> bool {
    match c {
        Command::AttackUnit { unit, .. } => unit == id,
        Command::MoveUnit { unit, .. } => unit == id,
        _ => false,
    }
}

/// Where land unit `u` of `nation` marches when no enemy is in its range:
/// on the nearest enemy land it can reach overland ([`march_to_enemy_spec`]);
/// else, next to the nearest galley of its nation with room, it waits to
/// board; else it marches towards that galley; failing that, towards the
/// enemy tile nearest as the crow flies ([`march_toward_spec`]).
pub open spec fn land_move(r: Realm, nation: u16, ground: Seq<Ground>, u: Unit) -> Option<(u32, u32)> {
    match march_to_enemy_spec(r, u, enemy_mask(r, nation), ground) {
        Some(p) => Some(p),
        None => {
            let g = galley_upto(r, nation, u, r.units@.len() as int).0;
            if g is Some && manhattan_spec(u.x, u.y, (g->0).0, (g->0).1, r.width) <= 1 {
                None
            } else {
                let via = match g {
                    Some(q) => march_toward_spec(r, u, q.0, q.1, ground),
                    None => None,
                };
                if via is Some {
                    via
                } else {
                    let list = enemy_tile_list(r, nation, r.plots@.len() as int);
                    match nearest_upto(list, u.x, u.y, r.width, list.len() as int) {
                        Some(t) => march_toward_spec(r, u, t.0, t.1, ground),
                        None => None,
                    }
                }
            }
        },
    }
}

/// The order of land unit `u` of `nation`: attack the enemy [`attack_target`]
/// picks, else move as [`land_move`] says, else none.
pub open spec fn land_order(r: Realm, nation: u16, foes: Seq<(u32, u32)>, ground: Seq<Ground>, u: Unit) -> Option<Command> {
    match attack_target(foes, u, r.width) {
        Some(t) => Some(Command::AttackUnit { unit: u.id, x: t.1, y: t.2 }),
        None => match land_move(r, nation, ground, u) {
            Some(p) => Some(Command::MoveUnit { unit: u.id, to_x: p.0, to_y: p.1 }),
            None => None,
        },
    }
}

/// The orders of the land units of `nation` among the first `k` units, one per
/// unit that has one ([`land_order`]), in the order of the units.
pub open spec fn land_plan(r: Realm, nation: u16, foes: Seq<(u32, u32)>, ground: Seq<Ground>, k: int) -> Seq<Command>
    decreases k,
{
    if k <= 0 {
        Seq::empty()
    } else {
        let before = land_plan(r, nation, foes, ground, k - 1);
        let u = r.units@[k - 1];
        if u.owner == nation && !stats_of(u.kind).naval {
            match land_order(r, nation, foes, ground, u) {
                Some(o) => before.push(o),
                None => before,
            }
        } else {
            before
        }
    }
}

/// One more unit extends [`land_plan`] by its order, if it is a land unit of
/// `nation` with one.
proof fn lemma_land_plan_step(r: Realm, nation: u16, foes: Seq<(u32, u32)>, ground: Seq<Ground>, cmds: Seq<Command>,
    k: int, c: Option<Command>)
    requires
        0 <= k,
        cmds == land_plan(r, nation, foes, ground, k),
        !(r.units@[k].owner == nation && !stats_of(r.units@[k].kind).naval) ==> c is None,
        r.units@[k].owner == nation && !stats_of(r.units@[k].kind).naval
            ==> c == land_order(r, nation, foes, ground, r.units@[k]),
    ensures
        (match c {
            Some(o) => cmds.push(o),
            None => cmds,
        }) == land_plan(r, nation, foes, ground, k + 1),
{
}

/// `cmds` gives unit `id` the order `o` (when there is one), and no other
/// attack or move.
pub open spec fn orders_only(cmds: Seq<Command>, id: u32, o: Option<Command>) -> bool {
    &&& (o is Some ==> cmds.contains(o->0))
    &&& forall|j: int| 0 <= j < cmds.len() && #[trigger] names(cmds[j], id) ==> o == Some(cmds[j])
}

/// Every land unit of `nation` among the first `k` is given its order
/// ([`land_order`]), and no other attack or move.
pub open spec fn land_orders_ok(r: Realm, nation: u16, foes: Seq<(u32, u32)>, ground: Seq<Ground>, cmds: Seq<Command>,
    k: int) -> bool
{
    forall|m: int| 0 <= m < k && (#[trigger] r.units@[m]).owner == nation && !stats_of(r.units@[m].kind).naval
        ==> orders_only(cmds, r.units@[m].id, land_order(r, nation, foes, ground, r.units@[m]))
}

/// `c` orders one of the first `k` units, a land unit.
pub open spec fn by_one_of(r: Realm, c: Command, k: int) -> bool {
    exists|m: int| 0 <= m < k && #[trigger] names(c, r.units@[m].id) && !stats_of(r.units@[m].kind).naval
}

/// Every order of `cmds` names one of the first `k` units.
pub open spec fn named_among(r: Realm, cmds: Seq<Command>, k: int) -> bool {
    forall|j: int| 0 <= j < cmds.len() ==> by_one_of(r, #[trigger] cmds[j], k)
}

/// Adding the order `c` of unit `k` keeps the rule of the land orders for the
/// first `k + 1` units, provided it is the order of `k` when `k` is a land
/// unit of `nation`.
proof fn lemma_order_of(r: Realm, nation: u16, foes: Seq<(u32, u32)>, ground: Seq<Ground>, cmds: Seq<Command>, k: int,
    c: Option<Command>)
    requires
        r.wf(),
        0 <= k < r.units@.len(),
        land_orders_ok(r, nation, foes, ground, cmds, k),
        named_among(r, cmds, k),
        c matches Some(o) ==> names(o, r.units@[k].id) && !stats_of(r.units@[k].kind).naval,
        r.units@[k].owner == nation && !stats_of(r.units@[k].kind).naval
            ==> c == land_order(r, nation, foes, ground, r.units@[k]),
    ensures
        ({
            let next = match c {
                Some(o) => cmds.push(o),
                None => cmds,
            };
            land_orders_ok(r, nation, foes, ground, next, k + 1) && named_among(r, next, k + 1)
        }),
{
    let next = match c {
        Some(o) => cmds.push(o),
        None => cmds,
    };
    assert forall|j: int| 0 <= j < next.len() implies by_one_of(r, #[trigger] next[j], k + 1) by {
        if j < cmds.len() {
            assert(next[j] == cmds[j]);
            assert(by_one_of(r, cmds[j], k));
            let m = choose|m: int| 0 <= m < k && #[trigger] names(cmds[j], r.units@[m].id) && !stats_of(r.units@[m].kind).naval;
            assert(names(next[j], r.units@[m].id));
        } else {
            assert(names(next[j], r.units@[k].id));
        }
    }
    assert forall|m: int| 0 <= m < k + 1 && (#[trigger] r.units@[m]).owner == nation && !stats_of(r.units@[m].kind).naval
        implies orders_only(next, r.units@[m].id, land_order(r, nation, foes, ground, r.units@[m])) by {
        let o = land_order(r, nation, foes, ground, r.units@[m]);
        let id = r.units@[m].id;
        if m < k {
            assert(orders_only(cmds, id, o));
            if o is Some {
                let i = choose|i: int| 0 <= i < cmds.len() && cmds[i] == o->0;
                assert(next[i] == o->0);
            }
            assert forall|j: int| 0 <= j < next.len() && #[trigger] names(next[j], id) implies o == Some(next[j]) by {
                if j < cmds.len() {
                    assert(next[j] == cmds[j]);
                } else {
                    assert(names(next[j], r.units@[k].id));
                    assert(r.units@[k].id == id);
                }
            }
        } else {
            if o is Some {
                assert(next[cmds.len() as int] == o->0);
            }
            assert forall|j: int| 0 <= j < next.len() && #[trigger] names(next[j], id) implies o == Some(next[j]) by {
                if j < cmds.len() {
                    assert(next[j] == cmds[j]);
                    assert(by_one_of(r, cmds[j], k));
                    let m2 = choose|m2: int| 0 <= m2 < k && #[trigger] names(cmds[j], r.units@[m2].id) && !stats_of(r.units@[m2].kind).naval;
                    assert(r.units@[m2].id == r.units@[k].id);
                }
            }
        }
    }
}

/// Orders of the land units of `nation`: attack the nearest enemy unit in
/// range, else march on the nearest reachable enemy land, else join a galley
/// with room, else creep towards the nearest enemy tile.
fn land_orders(realm: &Realm, nation: u16, ground: &Vec<Ground>, foes: &Vec<(u32, u32)>, mask: &Vec<bool>,
    targets: &Vec<(u32, u32)>) -> (cmds: Vec<Command>)
    requires
        realm.wf(),
        ground@.len() == realm.plots@.len(),
        forall|i: int| 0 <= i < ground@.len() ==> (#[trigger] ground@[i]).wf(),
        forall|k: int| 0 <= k < foes@.len() ==> #[trigger] enemy_unit_at(*realm, nation, foes@[k]),
        mask@.len() == realm.plots@.len(),
        forall|k: int| 0 <= k < targets@.len() ==> #[trigger] targets@[k].0 < realm.width && targets@[k].1 < realm.height,
        mask@ == enemy_mask(*realm, nation),
        targets@ == enemy_tile_list(*realm, nation, realm.plots@.len() as int),
    ensures
        orders_ok(*realm, nation, ground@, cmds@),
        land_orders_ok(*realm, nation, foes@, ground@, cmds@, realm.units@.len() as int),
        named_among(*realm, cmds@, realm.units@.len() as int),
        cmds@ == land_plan(*realm, nation, foes@, ground@, realm.units@.len() as int),
{
    let w = realm.width;
    let mut cmds: Vec<Command> = Vec::new();
    let mut k: usize = 0;
    while k < realm.units.len()
        invariant
            land_orders_ok(*realm, nation, foes@, ground@, cmds@, k as int),
            named_among(*realm, cmds@, k as int),
            cmds@ == land_plan(*realm, nation, foes@, ground@, k as int),
            mask@ == enemy_mask(*realm, nation),
            targets@ == enemy_tile_list(*realm, nation, realm.plots@.len() as int),
            realm.wf(),
            w == realm.width,
            ground@.len() == realm.plots@.len(),
            forall|i: int| 0 <= i < ground@.len() ==> (#[trigger] ground@[i]).wf(),
            forall|m: int| 0 <= m < foes@.len() ==> #[trigger] enemy_unit_at(*realm, nation, foes@[m]),
            mask@.len() == realm.plots@.len(),
            forall|m: int| 0 <= m < targets@.len() ==> #[trigger] targets@[m].0 < realm.width && targets@[m].1 < realm.height,
            targets@ == enemy_tile_list(*realm, nation, realm.plots@.len() as int),
            0 <= k <= realm.units@.len(),
            orders_ok(*realm, nation, ground@, cmds@),
        decreases realm.units.len() - k,
    {
        let u = realm.units[k];
        let ghost ki = k as int;
        let ghost before = cmds@;
        let ghost mut pushed: Option<Command> = None;
        proof {
            assert(realm.units@[ki] == u);
            assert(realm.units@.contains(u));
        }
        if u.owner == nation && !unit_stats(u.kind).naval {
            let range = unit_stats(u.kind).range;
            let mut best: Option<(u32, u32, u32)> = None;
            let mut f: usize = 0;
            while f < foes.len()
                invariant
                    0 <= f <= foes@.len(),
                    best matches Some(b) ==> foes@.contains((b.1, b.2)) && 1 <= b.0 <= range
                        && b.0 == crate::ai::manhattan_spec(u.x, u.y, b.1, b.2, w),
                    best == target_upto(foes@, u.x, u.y, range, w, f as int),
                decreases foes.len() - f,
            {
                let (ex, ey) = foes[f];
                let d = manhattan(u.x, u.y, ex, ey, w);
                if d >= 1 && d <= range {
                    let better = match best {
                        None => true,
                        Some((bd, bx, by)) => d < bd || (d == bd && (ex < bx || (ex == bx && ey < by))),
                    };
                    if better {
                        proof {
                            assert(foes@[f as int] == (ex, ey));
                        }
                        best = Some((d, ex, ey));
                    }
                }
                f = f + 1;
            }
            if let Some((_, ex, ey)) = best {
                proof {
                    let m = choose|m: int| 0 <= m < foes@.len() && foes@[m] == (ex, ey);
                    assert(enemy_unit_at(*realm, nation, foes@[m]));
                    let j = choose|j: int| 0 <= j < realm.units@.len() && (#[trigger] realm.units@[j]).x == ex
                        && realm.units@[j].y == ey && realm.units@[j].owner != nation
                        && realm.diplomacy.at_war_spec(nation, realm.units@[j].owner);
                    assert(order_ok(*realm, nation, ground@, Command::AttackUnit { unit: u.id, x: ex, y: ey }));
                }
                cmds.push(Command::AttackUnit { unit: u.id, x: ex, y: ey });
                proof {
                    pushed = Some(Command::AttackUnit { unit: u.id, x: ex, y: ey });
                }
            } else {
                let mut order: Option<(u32, u32)> = None;
                match march_to_enemy(realm, nation, &u, mask, ground) {
                    Some(p) => {
                        order = Some(p);
                    },
                    None => {
                        let mut waiting = false;
                        match nearest_loadable_galley(realm, nation, &u) {
                            Some((gx, gy)) => {
                                proof {
                                    lemma_galley_on_map(*realm, nation, u, realm.units@.len() as int);
                                }
                                if manhattan(u.x, u.y, gx, gy, w) <= 1 {
                                    waiting = true;
                                } else {
                                    order = march_toward(realm, nation, &u, gx, gy, ground);
                                }
                            },
                            None => {},
                        }
                        if !waiting && order.is_none() {
                            if let Some((tx, ty)) = nearest_tile(targets, u.x, u.y, w) {
                                proof {
                                    let m = choose|m: int| 0 <= m < targets@.len() && targets@[m] == (tx, ty);
                                    assert(targets@[m].0 < realm.width);
                                }
                                order = march_toward(realm, nation, &u, tx, ty, ground);
                            }
                        }
                    },
                }
                if let Some((nx, ny)) = order {
                    proof {
                        assert(realm.units@[ki].id == u.id && realm.units@[ki].owner == nation);
                        assert(granted(*realm, realm.units@[ki], nx, ny, ground@));
                        assert(order_ok(*realm, nation, ground@, Command::MoveUnit { unit: u.id, to_x: nx, to_y: ny }));
                    }
                    cmds.push(Command::MoveUnit { unit: u.id, to_x: nx, to_y: ny });
                    proof {
                        pushed = Some(Command::MoveUnit { unit: u.id, to_x: nx, to_y: ny });
                    }
                }
            }
        }
        proof {
            assert(cmds@ == match pushed {
                Some(o) => before.push(o),
                None => before,
            });
            lemma_order_of(*realm, nation, foes@, ground@, before, ki, pushed);
            lemma_land_plan_step(*realm, nation, foes@, ground@, before, ki, pushed);
        }
        k = k + 1;
    }
    cmds
}

/// Landing on free enemy land next to a galley fits the rules of disembarking.
proof fn lemma_landing(r: Realm, nation: u16, x: u32, y: u32, k: int, c: (u32, u32))
    requires
        r.wf(),
        x < r.width,
        y < r.height,
        0 <= k < 4,
        enemy_land_at(r, nation, x, y, k),
        c == coords_spec(nb_spec(r.idx(x, y), k, r.width as int, r.height as int)->0 as usize, r.width),
    ensures
        c.0 < r.width && c.1 < r.height,
        r.plots@[r.idx(c.0, c.1)].kind == TileKind::Land,
        !occupied_spec(r.units@, c.0, c.1),
{
    let w = r.width as int;
    let h = r.height as int;
    lemma_cell(x as int, y as int, w, h);
    lemma_nb_in_map(r.idx(x, y), k, w, h);
    let v = nb_spec(r.idx(x, y), k, w, h)->0;
    lemma_grid(v, w, h);
    lemma_grid(0, w, h);
    assert(v < 0x1_0000_0000);
    assert((v as usize as u32) as int == v);
    assert(c.0 == v % w && c.1 == v / w);
    assert(r.idx(c.0, c.1) == v);
    if occupied_spec(r.units@, c.0, c.1) {
        let j = choose|j: int| 0 <= j < r.units@.len() && crate::realm::unit_at(#[trigger] r.units@[j], c.0, c.1);
        assert(unit_on(r.units@, v, w));
    }
}

/// The galley of `nation` at position `k` of the units, with its position on the map.
proof fn lemma_unit_on_map(r: Realm, k: int)
    requires
        r.wf(),
        0 <= k < r.units@.len(),
    ensures
        r.units@[k].x < r.width && r.units@[k].y < r.height,
        r.units@.contains(r.units@[k]),
{
    assert(unit_ok(r.units@[k], r.width, r.height, r.next_unit_id));
}

/// The first `i < n` (from 0 up) such that `p(i)`.
pub open spec fn first_of(p: spec_fn(int) -> bool, n: int) -> Option<int>
    decreases n,
{
    if n <= 0 {
        None
    } else {
        match first_of(p, n - 1) {
            Some(i) => Some(i),
            None => if p(n - 1) {
                Some(n - 1)
            } else {
                None
            },
        }
    }
}

proof fn lemma_first_of(p: spec_fn(int) -> bool, n: int)
    requires
        0 <= n,
    ensures
        first_of(p, n) matches Some(i) ==> 0 <= i < n && p(i) && forall|j: int| 0 <= j < i ==> !#[trigger] p(j),
        first_of(p, n) is None ==> forall|j: int| 0 <= j < n ==> !#[trigger] p(j),
    decreases n,
{
    if n > 0 {
        lemma_first_of(p, n - 1);
    }
}

/// The first `i` with `p(i)` is the one `first_of` names.
proof fn lemma_first_is(p: spec_fn(int) -> bool, n: int, i: int)
    requires
        0 <= i < n,
        p(i),
        forall|j: int| 0 <= j < i ==> !#[trigger] p(j),
    ensures
        first_of(p, n) == Some(i),
{
    lemma_first_of(p, n);
    match first_of(p, n) {
        Some(k) => {
            if k < i {
                assert(!p(k));
            } else if i < k {
                assert(!p(i));
            }
        },
        None => {
            assert(!p(i));
        },
    }
}

/// Which neighbours of (x, y) are free land of an enemy.
pub open spec fn enemy_land_pred(r: Realm, nation: u16, x: u32, y: u32) -> spec_fn(int) -> bool {
    |k: int| enemy_land_at(r, nation, x, y, k)
}

/// Which neighbours of (x, y) hold a land unit of `nation`.
pub open spec fn land_unit_pred(r: Realm, nation: u16, x: u32, y: u32) -> spec_fn(int) -> bool {
    |k: int| any_land_unit_at(r, nation, x, y, k)
}

/// Which tiles could take a port of `nation`.
pub open spec fn port_site_pred(r: Realm, nation: u16) -> spec_fn(int) -> bool {
    |i: int| port_site(r, nation, i)
}

/// Which tiles are free ports of `nation`.
pub open spec fn free_port_pred(r: Realm, nation: u16) -> spec_fn(int) -> bool {
    |i: int| free_port(r, nation, i)
}

/// The first neighbour of (x, y) that is free land of an enemy, by coordinates.
pub open spec fn first_enemy_land(r: Realm, nation: u16, x: u32, y: u32) -> Option<(u32, u32)> {
    match first_of(enemy_land_pred(r, nation, x, y), 4) {
        Some(k) => Some(coords_spec(nb_spec(r.idx(x, y), k, r.width as int, r.height as int)->0 as usize, r.width)),
        None => None,
    }
}

/// The first land unit of `nation` (neighbours in order, then units in order)
/// standing next to (x, y).
pub open spec fn first_land_unit(r: Realm, nation: u16, x: u32, y: u32) -> Option<u32> {
    match first_of(land_unit_pred(r, nation, x, y), 4) {
        Some(k) => Some(r.units@[choose|i: int| land_unit_at(r, nation, x, y, k, i)].id),
        None => None,
    }
}

/// `nation` owns a port.
pub open spec fn has_port(r: Realm, nation: u16) -> bool {
    exists|i: int| 0 <= i < r.plots@.len() && (#[trigger] r.plots@[i]).owner == Some(nation)
        && r.plots@[i].building == Some(Building::Port)
}

/// Tile `i` is a port of `nation` with no unit on it.
pub open spec fn free_port(r: Realm, nation: u16, i: int) -> bool {
    let c = coords_spec(i as usize, r.width);
    &&& r.plots@[i].owner == Some(nation)
    &&& r.plots@[i].building == Some(Building::Port)
    &&& !occupied_spec(r.units@, c.0, c.1)
}

/// The port ordered, if any: with no port yet, at the first coastal water it
/// could stand on, when `nation` can pay for it.
pub open spec fn port_plan(r: Realm, nation: u16) -> Seq<Command> {
    let cost = build_cost_spec(Building::Port);
    match first_of(port_site_pred(r, nation), r.plots@.len() as int) {
        Some(i) => if !has_port(r, nation) && has_nation(r.nations@, nation) && ({
            let n = r.nations@[nation_pos(r.nations@, nation)];
            n.money >= cost.0 && n.materials >= cost.1 && n.housing >= cost.2
        }) {
            let c = coords_spec(i as usize, r.width);
            seq![Command::Build { x: c.0, y: c.1, nation, building: Building::Port }]
        } else {
            Seq::empty()
        },
        None => Seq::empty(),
    }
}

/// The galley ordered, if any: with a port and fewer than two galleys, at the
/// first free port, when `nation` can pay for it.
pub open spec fn galley_plan(r: Realm, nation: u16) -> Seq<Command> {
    let s = stats_of(UnitKind::Galley);
    if has_port(r, nation) && own_units(r.units@, nation, true, r.units@.len() as int) < 2
        && has_nation(r.nations@, nation) && ({
            let n = r.nations@[nation_pos(r.nations@, nation)];
            n.manpower >= s.cost_force && n.money >= s.cost_money
        }) {
        match first_of(free_port_pred(r, nation), r.plots@.len() as int) {
            Some(i) => {
                let c = coords_spec(i as usize, r.width);
                seq![Command::CreateUnit { x: c.0, y: c.1, nation, kind: UnitKind::Galley }]
            },
            None => Seq::empty(),
        }
    } else {
        Seq::empty()
    }
}

/// What galley `g` is ordered to do short of sailing: take on the first land
/// unit next to it while it has room; else, loaded, land on the first free
/// enemy land next to it.
pub open spec fn galley_duty(r: Realm, nation: u16, g: Unit) -> Option<Command> {
    let load = aboard(r.holds@, g.id);
    if load < stats_of(g.kind).capacity && first_land_unit(r, nation, g.x, g.y) is Some {
        Some(Command::Embark { unit: first_land_unit(r, nation, g.x, g.y)->0, transport: g.id })
    } else if load > 0 && first_enemy_land(r, nation, g.x, g.y) is Some {
        let e = first_enemy_land(r, nation, g.x, g.y)->0;
        Some(Command::Disembark { transport: g.id, to_x: e.0, to_y: e.1 })
    } else {
        None
    }
}

/// The ship an order steers: the galley that takes on or lands troops, or the unit that moves.
pub open spec fn steered(c: Command) -> Option<u32> {
    match c {
        Command::Embark { transport, .. } => Some(transport),
        Command::Disembark { transport, .. } => Some(transport),
        Command::MoveUnit { unit, .. } => Some(unit),
        _ => None,
    }
}

/// The order of galley `g` of `nation`: its duty ([`galley_duty`]); else,
/// loaded, it sails towards the enemy tile nearest as the crow flies
/// ([`march_toward_spec`]); else none.
pub open spec fn galley_order(r: Realm, nation: u16, ground: Seq<Ground>, g: Unit) -> Option<Command> {
    match galley_duty(r, nation, g) {
        Some(d) => Some(d),
        None => if aboard(r.holds@, g.id) > 0 {
            let list = enemy_tile_list(r, nation, r.plots@.len() as int);
            match nearest_upto(list, g.x, g.y, r.width, list.len() as int) {
                Some(t) => match march_toward_spec(r, g, t.0, t.1, ground) {
                    Some(p) => Some(Command::MoveUnit { unit: g.id, to_x: p.0, to_y: p.1 }),
                    None => None,
                },
                None => None,
            }
        } else {
            None
        },
    }
}

/// The orders of the galleys of `nation` among the first `k` units, one per
/// galley that has one ([`galley_order`]), in the order of the units.
pub open spec fn fleet_plan(r: Realm, nation: u16, ground: Seq<Ground>, k: int) -> Seq<Command>
    decreases k,
{
    if k <= 0 {
        Seq::empty()
    } else {
        let before = fleet_plan(r, nation, ground, k - 1);
        let g = r.units@[k - 1];
        if g.owner == nation && stats_of(g.kind).naval {
            match galley_order(r, nation, ground, g) {
                Some(o) => before.push(o),
                None => before,
            }
        } else {
            before
        }
    }
}

/// One more unit extends [`fleet_plan`] by its order, if it is a galley of
/// `nation` with one.
proof fn lemma_fleet_plan_step(r: Realm, nation: u16, ground: Seq<Ground>, cmds: Seq<Command>, k: int,
    c: Option<Command>)
    requires
        0 <= k,
        cmds == fleet_plan(r, nation, ground, k),
        !(r.units@[k].owner == nation && stats_of(r.units@[k].kind).naval) ==> c is None,
        r.units@[k].owner == nation && stats_of(r.units@[k].kind).naval
            ==> c == galley_order(r, nation, ground, r.units@[k]),
    ensures
        (match c {
            Some(o) => cmds.push(o),
            None => cmds,
        }) == fleet_plan(r, nation, ground, k + 1),
{
}

/// Every galley of `nation` among the first `k` units is given its order
/// ([`galley_order`]), and no other order steering it.
pub open spec fn fleet_duties_ok(r: Realm, nation: u16, ground: Seq<Ground>, cmds: Seq<Command>, k: int) -> bool {
    forall|m: int| 0 <= m < k && (#[trigger] r.units@[m]).owner == nation && stats_of(r.units@[m].kind).naval
        ==> {
            let o = galley_order(r, nation, ground, r.units@[m]);
            &&& (o is Some ==> cmds.contains(o->0))
            &&& forall|j: int| 0 <= j < cmds.len() && #[trigger] steered(cmds[j]) == Some(r.units@[m].id) ==> o == Some(cmds[j])
        }
}

/// `c` steers nothing, or one of the first `k` units, a ship.
pub open spec fn by_ship_of(r: Realm, c: Command, k: int) -> bool {
    match steered(c) {
        Some(id) => exists|m: int| 0 <= m < k && (#[trigger] r.units@[m]).id == id && stats_of(r.units@[m].kind).naval,
        None => true,
    }
}

/// `c` moves no unit but a ship of the realm, and attacks nothing.
pub open spec fn fleet_order(r: Realm, c: Command) -> bool {
    match c {
        Command::MoveUnit { unit, .. } => exists|k: int| 0 <= k < r.units@.len() && (#[trigger] r.units@[k]).id == unit
            && stats_of(r.units@[k].kind).naval,
        Command::AttackUnit { .. } => false,
        _ => true,
    }
}

/// Does `nation` own a port?
fn owns_port(realm: &Realm, nation: u16) -> (b: bool)
    ensures
        b == exists|i: int| 0 <= i < realm.plots@.len() && (#[trigger] realm.plots@[i]).owner == Some(nation)
            && realm.plots@[i].building == Some(Building::Port),
{
    let mut i: usize = 0;
    while i < realm.plots.len()
        invariant
            0 <= i <= realm.plots@.len(),
            forall|j: int| 0 <= j < i ==> !((#[trigger] realm.plots@[j]).owner == Some(nation)
                && realm.plots@[j].building == Some(Building::Port)),
        decreases realm.plots.len() - i,
    {
        let p = realm.plots[i];
        if p.owner == Some(nation) && p.building == Some(Building::Port) {
            return true;
        }
        i = i + 1;
    }
    false
}

/// What [`adjacent_enemy_land`] finds is the first free enemy land next to (x, y).
proof fn lemma_enemy_land_first(r: Realm, nation: u16, x: u32, y: u32, res: Option<(u32, u32)>)
    requires
        res matches Some(c) ==> exists|k: int| 0 <= k < 4 && #[trigger] enemy_land_at(r, nation, x, y, k)
            && c == coords_spec(nb_spec(r.idx(x, y), k, r.width as int, r.height as int)->0 as usize, r.width)
            && forall|j: int| 0 <= j < k ==> !#[trigger] enemy_land_at(r, nation, x, y, j),
        res is None ==> forall|k: int| 0 <= k < 4 ==> !#[trigger] enemy_land_at(r, nation, x, y, k),
    ensures
        res == first_enemy_land(r, nation, x, y),
{
    let p = enemy_land_pred(r, nation, x, y);
    lemma_first_of(p, 4);
    match res {
        Some(c) => {
            let k = choose|k: int| 0 <= k < 4 && #[trigger] enemy_land_at(r, nation, x, y, k)
                && c == coords_spec(nb_spec(r.idx(x, y), k, r.width as int, r.height as int)->0 as usize, r.width)
                && forall|j: int| 0 <= j < k ==> !#[trigger] enemy_land_at(r, nation, x, y, j);
            assert forall|j: int| 0 <= j < k implies !#[trigger] p(j) by {
                assert(!enemy_land_at(r, nation, x, y, j));
            }
            lemma_first_is(p, 4, k);
        },
        None => {
            if first_of(p, 4) is Some {
                let k = first_of(p, 4)->0;
                assert(p(k));
                assert(enemy_land_at(r, nation, x, y, k));
            }
        },
    }
}

/// What [`adjacent_land_unit`] finds is the first land unit next to (x, y).
proof fn lemma_land_unit_first(r: Realm, nation: u16, x: u32, y: u32, res: Option<u32>)
    requires
        res matches Some(id) ==> exists|k: int, i: int| 0 <= k < 4 && land_unit_at(r, nation, x, y, k, i)
            && r.units@[i].id == id
            && forall|j: int| 0 <= j < k ==> !#[trigger] any_land_unit_at(r, nation, x, y, j),
        res is None ==> forall|k: int| 0 <= k < 4 ==> !#[trigger] any_land_unit_at(r, nation, x, y, k),
    ensures
        res == first_land_unit(r, nation, x, y),
{
    let p = land_unit_pred(r, nation, x, y);
    lemma_first_of(p, 4);
    match res {
        Some(id) => {
            let (k, i) = choose|k: int, i: int| 0 <= k < 4 && land_unit_at(r, nation, x, y, k, i)
                && r.units@[i].id == id
                && forall|j: int| 0 <= j < k ==> !#[trigger] any_land_unit_at(r, nation, x, y, j);
            assert forall|j: int| 0 <= j < k implies !#[trigger] p(j) by {
                assert(!any_land_unit_at(r, nation, x, y, j));
            }
            assert(any_land_unit_at(r, nation, x, y, k));
            lemma_first_is(p, 4, k);
            let i2 = choose|i2: int| land_unit_at(r, nation, x, y, k, i2);
            assert(land_unit_at(r, nation, x, y, k, i2));
            let v = nb_spec(r.idx(x, y), k, r.width as int, r.height as int)->0;
            if i < i2 {
                assert(!crate::ai::fits_land(r.units@[i], v, r.width as int, nation));
            } else if i2 < i {
                assert(!crate::ai::fits_land(r.units@[i2], v, r.width as int, nation));
            }
        },
        None => {
            if first_of(p, 4) is Some {
                let k = first_of(p, 4)->0;
                assert(p(k));
                assert(any_land_unit_at(r, nation, x, y, k));
            }
        },
    }
}

/// Every order steering a galley among the first `k` is its order.
proof fn lemma_duty_of(r: Realm, nation: u16, ground: Seq<Ground>, cmds: Seq<Command>, k: int, c: Option<Command>)
    requires
        r.wf(),
        0 <= k < r.units@.len(),
        fleet_duties_ok(r, nation, ground, cmds, k),
        forall|j: int| 0 <= j < cmds.len() ==> by_ship_of(r, #[trigger] cmds[j], k),
        c matches Some(o) ==> steered(o) == Some(r.units@[k].id) && stats_of(r.units@[k].kind).naval,
        r.units@[k].owner == nation && stats_of(r.units@[k].kind).naval
            ==> c == galley_order(r, nation, ground, r.units@[k]),
    ensures
        ({
            let next = match c {
                Some(o) => cmds.push(o),
                None => cmds,
            };
            &&& fleet_duties_ok(r, nation, ground, next, k + 1)
            &&& forall|j: int| 0 <= j < next.len() ==> by_ship_of(r, #[trigger] next[j], k + 1)
        }),
{
    let next = match c {
        Some(o) => cmds.push(o),
        None => cmds,
    };
    assert forall|j: int| 0 <= j < next.len() implies by_ship_of(r, #[trigger] next[j], k + 1) by {
        if j < cmds.len() {
            assert(next[j] == cmds[j]);
            assert(by_ship_of(r, cmds[j], k));
            if steered(cmds[j]) is Some {
                let m = choose|m: int| 0 <= m < k && (#[trigger] r.units@[m]).id == steered(cmds[j])->0
                    && stats_of(r.units@[m].kind).naval;
                assert(r.units@[m].id == steered(next[j])->0);
            }
        } else {
            assert(r.units@[k].id == steered(next[j])->0);
        }
    }
    assert forall|m: int| 0 <= m < k + 1 && (#[trigger] r.units@[m]).owner == nation && stats_of(r.units@[m].kind).naval
        implies ({
            let o = galley_order(r, nation, ground, r.units@[m]);
            &&& (o is Some ==> next.contains(o->0))
            &&& forall|j: int| 0 <= j < next.len() && #[trigger] steered(next[j]) == Some(r.units@[m].id) ==> o == Some(next[j])
        }) by {
        let o = galley_order(r, nation, ground, r.units@[m]);
        let id = r.units@[m].id;
        if m < k {
            if o is Some {
                let i = choose|i: int| 0 <= i < cmds.len() && cmds[i] == o->0;
                assert(next[i] == o->0);
            }
            assert forall|j: int| 0 <= j < next.len() && #[trigger] steered(next[j]) == Some(id) implies o == Some(next[j]) by {
                if j < cmds.len() {
                    assert(next[j] == cmds[j]);
                } else {
                    assert(r.units@[k].id == id);
                }
            }
        } else {
            if o is Some {
                assert(next[cmds.len() as int] == o->0);
            }
            assert forall|j: int| 0 <= j < next.len() && #[trigger] steered(next[j]) == Some(id) implies o == Some(next[j]) by {
                if j < cmds.len() {
                    assert(next[j] == cmds[j]);
                    assert(by_ship_of(r, cmds[j], k));
                    let m2 = choose|m2: int| 0 <= m2 < k && (#[trigger] r.units@[m2]).id == id
                        && stats_of(r.units@[m2].kind).naval;
                    assert(m2 != k);
                }
            }
        }
    }
}

/// The port and the galley `nation` orders (see [`port_plan`], [`galley_plan`]).
fn fleet_building(realm: &Realm, nation: u16, ground: &Vec<Ground>) -> (cmds: Vec<Command>)
    requires
        realm.wf(),
    ensures
        orders_ok(*realm, nation, ground@, cmds@),
        cmds@ == port_plan(*realm, nation) + galley_plan(*realm, nation),
{
    let w = realm.width;
    let mut cmds: Vec<Command> = Vec::new();
    let has_port = owns_port(realm, nation);
    let who = realm.nation_index(nation);
    let site = coastal_water_to_build(realm, nation);
    proof {
        let p = port_site_pred(*realm, nation);
        lemma_first_of(p, realm.plots@.len() as int);
        match site {
            Some(c) => {
                let i = choose|i: int| 0 <= i < realm.plots@.len() && port_site(*realm, nation, i)
                    && c == coords_spec(i as usize, realm.width)
                    && forall|j: int| 0 <= j < i ==> !#[trigger] port_site(*realm, nation, j);
                assert forall|j: int| 0 <= j < i implies !#[trigger] p(j) by {
                    assert(!port_site(*realm, nation, j));
                }
                lemma_first_is(p, realm.plots@.len() as int, i);
            },
            None => {
                if first_of(p, realm.plots@.len() as int) is Some {
                    let i = first_of(p, realm.plots@.len() as int)->0;
                    assert(p(i));
                    assert(port_site(*realm, nation, i));
                }
            },
        }
    }
    if !has_port {
        if let Some((px, py)) = site {
            let (m, mat, hh) = build_cost(Building::Port);
            if let Some(k) = who {
                let n = realm.nations[k];
                if n.money >= m && n.materials >= mat && n.housing >= hh {
                    proof {
                        let i = first_of(port_site_pred(*realm, nation), realm.plots@.len() as int)->0;
                        assert(port_site_pred(*realm, nation)(i));
                        lemma_grid(i, realm.width as int, realm.height as int);
                        lemma_grid(0, realm.width as int, realm.height as int);
                        assert(i < 0x1_0000_0000);
                        assert((i as usize as u32) as int == i);
                        assert(realm.idx(px, py) == i);
                    }
                    cmds.push(Command::Build { x: px, y: py, nation, building: Building::Port });
                }
            }
        }
    }
    assert(cmds@ == port_plan(*realm, nation));
    let ghost c0 = cmds@;
    let galleys = count_units(realm, nation, true);
    if has_port && galleys < 2 {
        let s = unit_stats(UnitKind::Galley);
        let can_pay = match who {
            Some(k) => realm.nations[k].manpower >= s.cost_force && realm.nations[k].money >= s.cost_money,
            None => false,
        };
        if can_pay {
            let ghost p = free_port_pred(*realm, nation);
            let mut i: usize = 0;
            while i < realm.plots.len()
                invariant_except_break
                    cmds@ == c0,
                invariant
                    realm.wf(),
                    w == realm.width,
                    0 <= i <= realm.plots@.len(),
                    stats_of(UnitKind::Galley).naval,
                    orders_ok(*realm, nation, ground@, cmds@),
                    p == free_port_pred(*realm, nation),
                    forall|j: int| 0 <= j < i ==> !#[trigger] p(j),
                    crate::military::has_port(*realm, nation),
                    galleys < 2,
                    galleys == own_units(realm.units@, nation, true, realm.units@.len() as int),
                    has_nation(realm.nations@, nation),
                    ({
                        let n = realm.nations@[nation_pos(realm.nations@, nation)];
                        n.manpower >= stats_of(UnitKind::Galley).cost_force && n.money >= stats_of(UnitKind::Galley).cost_money
                    }),
                ensures
                    cmds@ == c0 + galley_plan(*realm, nation) || (i >= realm.plots@.len() && cmds@ == c0
                        && forall|j: int| 0 <= j < realm.plots@.len() ==> !#[trigger] p(j)),
                decreases realm.plots.len() - i,
            {
                let pl = realm.plots[i];
                proof {
                    lemma_grid(i as int, realm.width as int, realm.height as int);
                    assert(i < 0x1_0000_0000);
                }
                let (x, y) = coords(i, w);
                if pl.owner == Some(nation) && pl.building == Some(Building::Port) && !realm.unit_occupied(x, y) {
                    proof {
                        lemma_recruit_ok(*realm, nation, ground@, i as int, UnitKind::Galley);
                        assert(p(i as int));
                        lemma_first_is(p, realm.plots@.len() as int, i as int);
                    }
                    cmds.push(Command::CreateUnit { x, y, nation, kind: UnitKind::Galley });
                    break;
                }
                proof {
                    assert(!free_port(*realm, nation, i as int));
                }
                i = i + 1;
            }
            proof {
                if cmds@ == c0 && i >= realm.plots@.len() && forall|j: int| 0 <= j < realm.plots@.len() ==> !#[trigger] p(j) {
                    lemma_first_of(p, realm.plots@.len() as int);
                    if first_of(p, realm.plots@.len() as int) is Some {
                        let j = first_of(p, realm.plots@.len() as int)->0;
                        assert(p(j));
                    }
                    assert(galley_plan(*realm, nation) =~= Seq::<Command>::empty());
                }
            }
        }
    }
    assert(cmds@ =~= port_plan(*realm, nation) + galley_plan(*realm, nation));
    cmds
}

/// The duties of the galleys of `nation` (see [`galley_duty`]); a galley with
/// none sails towards the enemy tile nearest to it, if a move is granted.
fn fleet_duties(realm: &Realm, nation: u16, ground: &Vec<Ground>, targets: &Vec<(u32, u32)>) -> (cmds: Vec<Command>)
    requires
        realm.wf(),
        ground@.len() == realm.plots@.len(),
        forall|i: int| 0 <= i < ground@.len() ==> (#[trigger] ground@[i]).wf(),
        forall|k: int| 0 <= k < targets@.len() ==> #[trigger] targets@[k].0 < realm.width && targets@[k].1 < realm.height,
        targets@ == enemy_tile_list(*realm, nation, realm.plots@.len() as int),
    ensures
        orders_ok(*realm, nation, ground@, cmds@),
        forall|j: int| 0 <= j < cmds@.len() ==> fleet_order(*realm, #[trigger] cmds@[j]),
        fleet_duties_ok(*realm, nation, ground@, cmds@, realm.units@.len() as int),
        forall|j: int| 0 <= j < cmds@.len() ==> by_ship_of(*realm, #[trigger] cmds@[j], realm.units@.len() as int),
        cmds@ == fleet_plan(*realm, nation, ground@, realm.units@.len() as int),
{
    let w = realm.width;
    let mut cmds: Vec<Command> = Vec::new();
    let mut k: usize = 0;
    while k < realm.units.len()
        invariant
            realm.wf(),
            w == realm.width,
            ground@.len() == realm.plots@.len(),
            forall|i: int| 0 <= i < ground@.len() ==> (#[trigger] ground@[i]).wf(),
            forall|m: int| 0 <= m < targets@.len() ==> #[trigger] targets@[m].0 < realm.width && targets@[m].1 < realm.height,
            targets@ == enemy_tile_list(*realm, nation, realm.plots@.len() as int),
            0 <= k <= realm.units@.len(),
            orders_ok(*realm, nation, ground@, cmds@),
            forall|j: int| 0 <= j < cmds@.len() ==> fleet_order(*realm, #[trigger] cmds@[j]),
            fleet_duties_ok(*realm, nation, ground@, cmds@, k as int),
            forall|j: int| 0 <= j < cmds@.len() ==> by_ship_of(*realm, #[trigger] cmds@[j], k as int),
            cmds@ == fleet_plan(*realm, nation, ground@, k as int),
        decreases realm.units.len() - k,
    {
        let g = realm.units[k];
        let ghost gk = k as int;
        let ghost before = cmds@;
        let ghost mut pushed: Option<Command> = None;
        proof {
            lemma_unit_on_map(*realm, gk);
        }
        let s = unit_stats(g.kind);
        if g.owner == nation && s.naval {
            let load = load_len(realm, g.id);
            let mut done = false;
            let mut mate: Option<u32> = None;
            if load < s.capacity as usize {
                mate = adjacent_land_unit(realm, nation, g.x, g.y);
                proof {
                    lemma_land_unit_first(*realm, nation, g.x, g.y, mate);
                }
                if let Some(uid) = mate {
                    proof {
                        let (kk, ii) = choose|kk: int, ii: int| 0 <= kk < 4 && land_unit_at(*realm, nation, g.x, g.y, kk, ii)
                            && realm.units@[ii].id == uid
                            && forall|j: int| 0 <= j < kk ==> !#[trigger] crate::ai::any_land_unit_at(*realm, nation, g.x, g.y, j);
                        assert(realm.units@[gk].id == g.id);
                        assert(order_ok(*realm, nation, ground@, Command::Embark { unit: uid, transport: g.id }));
                    }
                    cmds.push(Command::Embark { unit: uid, transport: g.id });
                    proof {
                        pushed = Some(Command::Embark { unit: uid, transport: g.id });
                    }
                    done = true;
                }
            }
            if !done && load > 0 {
                let shore = adjacent_enemy_land(realm, nation, g.x, g.y);
                proof {
                    lemma_enemy_land_first(*realm, nation, g.x, g.y, shore);
                }
                match shore {
                    Some((ex, ey)) => {
                        proof {
                            let kk = choose|kk: int| 0 <= kk < 4 && #[trigger] enemy_land_at(*realm, nation, g.x, g.y, kk)
                                && (ex, ey) == coords_spec(nb_spec(realm.idx(g.x, g.y), kk, realm.width as int,
                                    realm.height as int)->0 as usize, realm.width)
                                && forall|j: int| 0 <= j < kk ==> !#[trigger] enemy_land_at(*realm, nation, g.x, g.y, j);
                            lemma_landing(*realm, nation, g.x, g.y, kk, (ex, ey));
                            assert(realm.units@[gk].id == g.id);
                            assert(order_ok(*realm, nation, ground@, Command::Disembark { transport: g.id, to_x: ex, to_y: ey }));
                        }
                        cmds.push(Command::Disembark { transport: g.id, to_x: ex, to_y: ey });
                        proof {
                            pushed = Some(Command::Disembark { transport: g.id, to_x: ex, to_y: ey });
                        }
                    },
                    None => {
                        if let Some((tx, ty)) = nearest_tile(targets, g.x, g.y, w) {
                            proof {
                                let m = choose|m: int| 0 <= m < targets@.len() && targets@[m] == (tx, ty);
                                assert(targets@[m].0 < realm.width);
                            }
                            if let Some((nx, ny)) = march_toward(realm, nation, &g, tx, ty, ground) {
                                proof {
                                    assert(realm.units@[gk].id == g.id && realm.units@[gk].owner == nation);
                                    assert(order_ok(*realm, nation, ground@, Command::MoveUnit { unit: g.id, to_x: nx, to_y: ny }));
                                    assert(fleet_order(*realm, Command::MoveUnit { unit: g.id, to_x: nx, to_y: ny }));
                                }
                                cmds.push(Command::MoveUnit { unit: g.id, to_x: nx, to_y: ny });
                                proof {
                                    pushed = Some(Command::MoveUnit { unit: g.id, to_x: nx, to_y: ny });
                                }
                            }
                        }
                    },
                }
            }
        }
        proof {
            assert(cmds@ == match pushed {
                Some(o) => before.push(o),
                None => before,
            });
            lemma_duty_of(*realm, nation, ground@, before, gk, pushed);
            lemma_fleet_plan_step(*realm, nation, ground@, before, gk, pushed);
        }
        k = k + 1;
    }
    cmds
}

/// Orders at sea: a port on the coast when there is none (and it can be paid),
/// a galley at the first free port while there are fewer than two, then for
/// each galley: take on a land unit next to it while there is room, else land
/// the troops on free enemy land next to it, else sail towards the nearest
/// enemy tile.
fn naval_orders(realm: &Realm, nation: u16, ground: &Vec<Ground>, targets: &Vec<(u32, u32)>) -> (cmds: Vec<Command>)
    requires
        realm.wf(),
        ground@.len() == realm.plots@.len(),
        forall|i: int| 0 <= i < ground@.len() ==> (#[trigger] ground@[i]).wf(),
        forall|k: int| 0 <= k < targets@.len() ==> #[trigger] targets@[k].0 < realm.width && targets@[k].1 < realm.height,
        targets@ == enemy_tile_list(*realm, nation, realm.plots@.len() as int),
    ensures
        orders_ok(*realm, nation, ground@, cmds@),
        forall|j: int| 0 <= j < cmds@.len() ==> fleet_order(*realm, #[trigger] cmds@[j]),
        ({
            let head = port_plan(*realm, nation) + galley_plan(*realm, nation);
            &&& head.len() <= cmds@.len()
            &&& cmds@.take(head.len() as int) == head
            &&& fleet_duties_ok(*realm, nation, ground@, cmds@.skip(head.len() as int), realm.units@.len() as int)
            &&& cmds@.skip(head.len() as int) == fleet_plan(*realm, nation, ground@, realm.units@.len() as int)
            &&& forall|j: int| head.len() <= j < cmds@.len() ==> by_ship_of(*realm, #[trigger] cmds@[j], realm.units@.len() as int)
        }),
{
    let mut cmds = fleet_building(realm, nation, ground);
    let mut duties = fleet_duties(realm, nation, ground, targets);
    let ghost c0 = cmds@;
    let ghost d0 = duties@;
    cmds.append(&mut duties);
    proof {
        assert(cmds@.take(c0.len() as int) =~= c0);
        assert(cmds@.skip(c0.len() as int) =~= d0);
        assert forall|j: int| 0 <= j < cmds@.len() implies fleet_order(*realm, #[trigger] cmds@[j]) by {
            if j < c0.len() {
                assert(cmds@[j] == c0[j]);
            } else {
                assert(cmds@[j] == d0[j - c0.len()]);
            }
        }
        assert forall|j: int| 0 <= j < cmds@.len() implies order_ok(*realm, nation, ground@, #[trigger] cmds@[j]) by {
            if j < c0.len() {
                assert(cmds@[j] == c0[j]);
            } else {
                assert(cmds@[j] == d0[j - c0.len()]);
            }
        }
        assert forall|j: int| c0.len() <= j < cmds@.len() implies by_ship_of(*realm, #[trigger] cmds@[j], realm.units@.len() as int) by {
            assert(cmds@[j] == d0[j - c0.len()]);
        }
    }
    cmds
}

/// Recruitment orders before and fleet orders after leave the attack rule of
/// the land units as it was.
proof fn lemma_attacks_framed(r: Realm, nation: u16, foes: Seq<(u32, u32)>, ground: Seq<Ground>, pre: Seq<Command>,
    mid: Seq<Command>, post: Seq<Command>)
    requires
        r.wf(),
        land_orders_ok(r, nation, foes, ground, mid, r.units@.len() as int),
        forall|j: int| 0 <= j < pre.len() ==> (#[trigger] pre[j]) is CreateUnit,
        forall|j: int| 0 <= j < post.len() ==> fleet_order(r, #[trigger] post[j]),
    ensures
        land_orders_ok(r, nation, foes, ground, pre + mid + post, r.units@.len() as int),
{
    let all = pre + mid + post;
    assert forall|m: int| 0 <= m < r.units@.len() && (#[trigger] r.units@[m]).owner == nation
        && !stats_of(r.units@[m].kind).naval
        implies orders_only(all, r.units@[m].id, land_order(r, nation, foes, ground, r.units@[m])) by {
        let id = r.units@[m].id;
        let o = land_order(r, nation, foes, ground, r.units@[m]);
        assert(orders_only(mid, id, o));
        if o is Some {
            let i = choose|i: int| 0 <= i < mid.len() && mid[i] == o->0;
            assert(all[pre.len() + i] == o->0);
        }
        assert forall|j: int| 0 <= j < all.len() && #[trigger] names(all[j], id) implies o == Some(all[j]) by {
            if j < pre.len() {
                assert(all[j] == pre[j]);
            } else if j < pre.len() + mid.len() {
                assert(all[j] == mid[j - pre.len()]);
            } else {
                let p = post[j - pre.len() - mid.len()];
                assert(all[j] == p);
                assert(fleet_order(r, p));
                let k = choose|k: int| 0 <= k < r.units@.len() && (#[trigger] r.units@[k]).id == id
                    && stats_of(r.units@[k].kind).naval;
                assert(k != m);
            }
        }
    }
}

/// The port and galley orders steer no ship.
proof fn lemma_building_steers_nothing(r: Realm, nation: u16)
    ensures
        forall|j: int| 0 <= j < (port_plan(r, nation) + galley_plan(r, nation)).len()
            ==> steered(#[trigger] (port_plan(r, nation) + galley_plan(r, nation))[j]) is None,
{
    let a = port_plan(r, nation);
    let b = galley_plan(r, nation);
    assert forall|j: int| 0 <= j < (a + b).len() implies steered(#[trigger] (a + b)[j]) is None by {
        if j < a.len() {
            assert((a + b)[j] == a[j]);
        } else {
            assert((a + b)[j] == b[j - a.len()]);
        }
    }
}

/// Orders of recruits, of land units and of harbours around the galleys'
/// orders leave each galley with its duty alone.
proof fn lemma_duties_framed(r: Realm, nation: u16, ground: Seq<Ground>, pre: Seq<Command>, land: Seq<Command>,
    head: Seq<Command>, tail: Seq<Command>)
    requires
        r.wf(),
        forall|j: int| 0 <= j < pre.len() ==> (#[trigger] pre[j]) is CreateUnit,
        named_among(r, land, r.units@.len() as int),
        forall|j: int| 0 <= j < head.len() ==> steered(#[trigger] head[j]) is None,
        fleet_duties_ok(r, nation, ground, tail, r.units@.len() as int),
        forall|j: int| 0 <= j < tail.len() ==> by_ship_of(r, #[trigger] tail[j], r.units@.len() as int),
    ensures
        fleet_duties_ok(r, nation, ground, pre + land + head + tail, r.units@.len() as int),
{
    let all = pre + land + head + tail;
    let o = pre.len() + land.len() + head.len();
    assert forall|m: int| 0 <= m < r.units@.len() && (#[trigger] r.units@[m]).owner == nation
        && stats_of(r.units@[m].kind).naval
        implies ({
            let d = galley_order(r, nation, ground, r.units@[m]);
            &&& (d is Some ==> all.contains(d->0))
            &&& forall|j: int| 0 <= j < all.len() && #[trigger] steered(all[j]) == Some(r.units@[m].id) ==> d == Some(all[j])
        }) by {
        let d = galley_order(r, nation, ground, r.units@[m]);
        let id = r.units@[m].id;
        if d is Some {
            let i = choose|i: int| 0 <= i < tail.len() && tail[i] == d->0;
            assert(all[o + i] == d->0);
        }
        assert forall|j: int| 0 <= j < all.len() && #[trigger] steered(all[j]) == Some(id) implies d == Some(all[j]) by {
            if j < pre.len() {
                assert(all[j] == pre[j]);
            } else if j < pre.len() + land.len() {
                let c = land[j - pre.len()];
                assert(all[j] == c);
                assert(by_one_of(r, c, r.units@.len() as int));
                let m2 = choose|m2: int| 0 <= m2 < r.units@.len() && #[trigger] names(c, r.units@[m2].id)
                    && !stats_of(r.units@[m2].kind).naval;
                assert(r.units@[m2].id == id);
            } else if j < o {
                assert(all[j] == head[j - pre.len() - land.len()]);
            } else {
                assert(all[j] == tail[j - o]);
            }
        }
    }
}

/// What the orders of the armed forces of `nation` are: each fits the state;
/// none when there is nothing to fight; else they open with the recruitment
/// of [`recruit_plan`] (bounded as [`lemma_recruit_law`] says), then the
/// orders of the land units, one per unit in the order of the units
/// ([`land_plan`]), then the port and the galley of [`port_plan`] and
/// [`galley_plan`], then the orders of the galleys, likewise
/// ([`fleet_plan`]). Every galley is given its order ([`galley_order`]), and
/// no other order steering it; every land unit is given its order
/// ([`land_order`]: attack the enemy in range that [`attack_target`] picks,
/// else march as [`land_move`] says), and no other attack or move.
pub open spec fn military_ok(r: Realm, nation: u16, ground: Seq<Ground>, cmds: Seq<Command>) -> bool {
    &&& orders_ok(r, nation, ground, cmds)
    &&& nothing_to_fight(r, nation) ==> cmds.len() == 0
    &&& !nothing_to_fight(r, nation) ==> recruit_plan(r, nation).len() <= cmds.len()
        && cmds.take(recruit_plan(r, nation).len() as int) == recruit_plan(r, nation)
    &&& !nothing_to_fight(r, nation)
        ==> land_orders_ok(r, nation, foe_spots(r, nation, r.units@.len() as int), ground, cmds, r.units@.len() as int)
    &&& !nothing_to_fight(r, nation) ==> fleet_duties_ok(r, nation, ground, cmds, r.units@.len() as int)
    &&& !nothing_to_fight(r, nation) ==> exists|a: int| #[trigger] harbours_at(r, nation, ground, cmds, a)
}

/// The orders from position `a` on open with the port and galley orders, and
/// those between the recruits and `a` are the orders of the land units, one
/// per unit in the order of the units ([`land_plan`]); after the port and
/// galley orders come those of the galleys, likewise ([`fleet_plan`]).
pub open spec fn harbours_at(r: Realm, nation: u16, ground: Seq<Ground>, cmds: Seq<Command>, a: int) -> bool {
    let head = port_plan(r, nation) + galley_plan(r, nation);
    &&& recruit_plan(r, nation).len() <= a
    &&& a + head.len() <= cmds.len()
    &&& cmds.subrange(a, a + head.len()) == head
    &&& cmds.subrange(recruit_plan(r, nation).len() as int, a)
        == land_plan(r, nation, foe_spots(r, nation, r.units@.len() as int), ground, r.units@.len() as int)
    &&& cmds.skip(a + head.len()) == fleet_plan(r, nation, ground, r.units@.len() as int)
    &&& forall|j: int| recruit_plan(r, nation).len() <= j < a ==> #[trigger] by_one_of(r, cmds[j], r.units@.len() as int)
}

/// The orders of `nation`'s armed forces for this turn: recruitment, land
/// units, then the fleet. A nation with no enemy unit and no enemy tile left
/// to take issues none.
pub fn military(realm: &Realm, nation: u16, ground: &Vec<Ground>) -> (cmds: Vec<Command>)
    requires
        realm.wf(),
        ground@.len() == realm.plots@.len(),
        forall|i: int| 0 <= i < ground@.len() ==> (#[trigger] ground@[i]).wf(),
    ensures
        military_ok(*realm, nation, ground@, cmds@),
{
    let foes = enemy_units(realm, nation);
    let (mask, targets) = enemy_tiles(realm, nation);
    if foes.len() == 0 && targets.len() == 0 {
        return Vec::new();
    }
    let mut cmds = recruit(realm, nation, ground);
    let mut land = land_orders(realm, nation, ground, &foes, &mask, &targets);
    let ghost c0 = cmds@;
    let ghost l0 = land@;
    cmds.append(&mut land);
    proof {
        assert forall|k: int| 0 <= k < cmds@.len() implies order_ok(*realm, nation, ground@, #[trigger] cmds@[k]) by {
            if k < c0.len() {
                assert(cmds@[k] == c0[k]);
            } else {
                assert(cmds@[k] == l0[k - c0.len()]);
            }
        }
    }
    let mut sea = naval_orders(realm, nation, ground, &targets);
    let ghost c1 = cmds@;
    let ghost s0 = sea@;
    cmds.append(&mut sea);
    proof {
        lemma_attacks_framed(*realm, nation, foes@, ground@, c0, l0, s0);
        assert(cmds@ =~= c0 + l0 + s0);
        let head = port_plan(*realm, nation) + galley_plan(*realm, nation);
        let tail = s0.skip(head.len() as int);
        lemma_building_steers_nothing(*realm, nation);
        assert(s0 =~= head + tail);
        assert forall|j: int| 0 <= j < tail.len() implies by_ship_of(*realm, #[trigger] tail[j], realm.units@.len() as int) by {
            assert(tail[j] == s0[head.len() + j]);
        }
        lemma_duties_framed(*realm, nation, ground@, c0, l0, head, tail);
        assert(cmds@ =~= c0 + l0 + head + tail);
        let a = (c0.len() + l0.len()) as int;
        assert(cmds@.subrange(a, a + head.len()) =~= head);
        assert forall|j: int| c0.len() <= j < a implies #[trigger] by_one_of(*realm, cmds@[j], realm.units@.len() as int) by {
            assert(cmds@[j] == l0[j - c0.len()]);
        }
        assert(cmds@.subrange(c0.len() as int, a) =~= l0);
        assert(cmds@.skip(a + head.len()) =~= tail);
        assert(harbours_at(*realm, nation, ground@, cmds@, a));
        assert(cmds@.take(c0.len() as int) =~= c0);
        assert forall|k: int| 0 <= k < cmds@.len() implies order_ok(*realm, nation, ground@, #[trigger] cmds@[k]) by {
            if k < c1.len() {
                assert(cmds@[k] == c1[k]);
            } else {
                assert(cmds@[k] == s0[k - c1.len()]);
            }
        }
    }
    cmds
}

} // verus!
