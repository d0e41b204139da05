//! The deterministic baseline of the non-player nations: what they read of the
//! discrete state (barracks, wars, anchors, rivals, galleys, coasts) and the
//! decisions built on it. The AI is pure: it observes and returns commands.

use vstd::prelude::*;

use crate::nation::Nation;
use crate::path::{lemma_nb_in_map, nb_spec, neighbors, opt_int};
use crate::proto::{Building, Command};
use crate::realm::{load_of, Hold, Plot, Realm};
use crate::tile::TileKind;
use crate::unit::{stats_of, unit_stats, Unit};

verus! {

/// Manhattan distance with X wrapping, as the AI computes it (in `i64`).
pub open spec fn distance_spec(x: u32, y: u32, px: u32, py: u32, width: u32) -> int {
    let dx = if x >= px { x - px } else { px - x };
    let dxw = if dx <= width - dx { dx } else { width - dx };
    let dy = if y >= py { y - py } else { py - y };
    dxw + dy
}

/// Manhattan distance with X wrapping around a map of width `width`.
pub fn distance(x: u32, y: u32, px: u32, py: u32, width: u32) -> (d: i64)
    ensures
        d == distance_spec(x, y, px, py, width),
{
    let dx: i64 = if x >= px { x as i64 - px as i64 } else { px as i64 - x as i64 };
    let w = width as i64;
    let dxw = if dx <= w - dx { dx } else { w - dx };
    let dy: i64 = if y >= py { y as i64 - py as i64 } else { py as i64 - y as i64 };
    dxw + dy
}

/// Manhattan distance (X wraps) between two tiles, as a `u32`.
pub open spec fn manhattan_spec(x0: u32, y0: u32, x1: u32, y1: u32, width: u32) -> u32 {
    distance_spec(x0, y0, x1, y1, width) as u32
}

/// Manhattan distance (X wraps) between two tiles.
pub fn manhattan(x0: u32, y0: u32, x1: u32, y1: u32, width: u32) -> (d: u32)
    ensures
        d == manhattan_spec(x0, y0, x1, y1, width),
{
    distance(x0, y0, x1, y1, width) as u32
}

/// (x, y) of a linear index on a map of width `width`.
pub open spec fn coords_spec(idx: usize, width: u32) -> (u32, u32) {
    ((idx as u32) % width, (idx as u32) / width)
}

/// (x, y) of a linear index.
pub fn coords(idx: usize, width: u32) -> (c: (u32, u32))
    requires
        width > 0,
    ensures
        c == coords_spec(idx, width),
{
    (idx as u32 % width, idx as u32 / width)
}

/// Does `nation` own a tile carrying barracks?
pub open spec fn has_barracks_spec(ps: Seq<Plot>, nation: u16) -> bool {
    exists|i: int| 0 <= i < ps.len() && (#[trigger] ps[i]).owner == Some(nation) && ps[i].building == Some(Building::Military)
}

/// Does `nation` own a tile carrying barracks (the means to field units)?
pub fn has_barracks(realm: &Realm, nation: u16) -> (r: bool)
    ensures
        r == has_barracks_spec(realm.plots@, nation),
{
    let mut i: usize = 0;
    while i < realm.plots.len()
        invariant
            0 <= i <= realm.plots@.len(),
            forall|j: int| 0 <= j < i ==> !((#[trigger] realm.plots@[j]).owner == Some(nation)
                && realm.plots@[j].building == Some(Building::Military)),
        decreases realm.plots.len() - i,
    {
        if realm.plots[i].owner == Some(nation) && realm.plots[i].building == Some(Building::Military) {
            return true;
        }
        i = i + 1;
    }
    false
}

/// Is `nation` at war with some other existing nation?
pub open spec fn at_war_with_anyone_spec(r: Realm, nation: u16) -> bool {
    exists|i: int| 0 <= i < r.nations@.len() && (#[trigger] r.nations@[i]).id != nation
        && r.diplomacy.at_war_spec(nation, r.nations@[i].id)
}

/// Is `nation` already at war with someone?
pub fn at_war_with_anyone(realm: &Realm, nation: u16) -> (r: bool)
    requires
        realm.wf(),
    ensures
        r == at_war_with_anyone_spec(*realm, nation),
{
    let mut i: usize = 0;
    while i < realm.nations.len()
        invariant
            realm.wf(),
            0 <= i <= realm.nations@.len(),
            forall|j: int| 0 <= j < i ==> !((#[trigger] realm.nations@[j]).id != nation
                && realm.diplomacy.at_war_spec(nation, realm.nations@[j].id)),
        decreases realm.nations.len() - i,
    {
        let o = realm.nations[i].id;
        if o != nation && realm.diplomacy.at_war(nation, o) {
            return true;
        }
        i = i + 1;
    }
    false
}

/// The first tile `nation` owns (its smallest index), if any.
pub open spec fn first_owned(ps: Seq<Plot>, nation: u16, i: int) -> bool {
    &&& 0 <= i < ps.len()
    &&& ps[i].owner == Some(nation)
    &&& forall|j: int| 0 <= j < i ==> (#[trigger] ps[j]).owner != Some(nation)
}

/// The anchor of `nation`: (x, y) of the first tile it owns.
pub open spec fn anchor_spec(r: Realm, nation: u16) -> Option<(u32, u32)> {
    if exists|i: int| first_owned(r.plots@, nation, i) {
        Some(coords_spec((choose|i: int| first_owned(r.plots@, nation, i)) as usize, r.width))
    } else {
        None
    }
}

/// The anchor of `nation` (its first tile), if it owns any.
pub fn nation_anchor(realm: &Realm, nation: u16) -> (a: Option<(u32, u32)>)
    requires
        realm.wf(),
    ensures
        a == anchor_spec(*realm, nation),
{
    let mut i: usize = 0;
    while i < realm.plots.len()
        invariant
            realm.wf(),
            0 <= i <= realm.plots@.len(),
            forall|j: int| 0 <= j < i ==> (#[trigger] realm.plots@[j]).owner != Some(nation),
        decreases realm.plots.len() - i,
    {
        if realm.plots[i].owner == Some(nation) {
            proof {
                let c = choose|c: int| first_owned(realm.plots@, nation, c);
                assert(first_owned(realm.plots@, nation, i as int));
                if c < i {
                    assert(realm.plots@[c].owner != Some(nation));
                } else if c > i {
                    assert(realm.plots@[i as int].owner != Some(nation));
                }
            }
            return Some(coords(i, realm.width));
        }
        i = i + 1;
    }
    None
}

/// The nearest rival among the first `k` nations (anchor distance): the best
/// so far and its distance, a rival replacing it only when strictly nearer
/// (starting from `u32::MAX`, unreached).
pub open spec fn nearest_upto(r: Realm, nation: u16, me: (u32, u32), k: int) -> (Option<u16>, u32)
    decreases k,
{
    if k <= 0 {
        (None, u32::MAX)
    } else {
        let prev = nearest_upto(r, nation, me, k - 1);
        let o = r.nations@[k - 1];
        if o.id == nation {
            prev
        } else {
            match anchor_spec(r, o.id) {
                Some(p) => {
                    let d = manhattan_spec(me.0, me.1, p.0, p.1, r.width);
                    if d < prev.1 { (Some(o.id), d) } else { prev }
                },
                None => prev,
            }
        }
    }
}

/// The nearest rival of `nation` (by anchor distance), the first one in the
/// nations' order among equals.
pub open spec fn nearest_rival_spec(r: Realm, nation: u16) -> Option<u16> {
    match anchor_spec(r, nation) {
        Some(me) => nearest_upto(r, nation, me, r.nations@.len() as int).0,
        None => None,
    }
}

/// The nearest rival nation (by anchor distance): the target of a conquest.
pub fn nearest_rival(realm: &Realm, nation: u16) -> (res: Option<u16>)
    requires
        realm.wf(),
    ensures
        res == nearest_rival_spec(*realm, nation),
{
    let me = match nation_anchor(realm, nation) {
        Some(p) => p,
        None => {
            return None;
        },
    };
    let mut best: Option<u16> = None;
    let mut best_d: u32 = u32::MAX;
    let mut k: usize = 0;
    while k < realm.nations.len()
        invariant
            realm.wf(),
            anchor_spec(*realm, nation) == Some(me),
            0 <= k <= realm.nations@.len(),
            (best, best_d) == nearest_upto(*realm, nation, me, k as int),
        decreases realm.nations.len() - k,
    {
        let o = realm.nations[k].id;
        if o != nation {
            if let Some(p) = nation_anchor(realm, o) {
                let d = manhattan(me.0, me.1, p.0, p.1, realm.width);
                if d < best_d {
                    best_d = d;
                    best = Some(o);
                }
            }
        }
        k = k + 1;
    }
    best
}

/// The smallest anchor distance from `nation` to a rival among the first `k`
/// nations.
pub open spec fn rival_distance_upto(r: Realm, nation: u16, me: (u32, u32), k: int) -> Option<u32>
    decreases k,
{
    if k <= 0 {
        None
    } else {
        let prev = rival_distance_upto(r, nation, me, k - 1);
        let o = r.nations@[k - 1];
        if o.id == nation {
            prev
        } else {
            match anchor_spec(r, o.id) {
                Some(p) => {
                    let d = manhattan_spec(me.0, me.1, p.0, p.1, r.width);
                    match prev {
                        Some(b) => Some(if d < b { d } else { b }),
                        None => Some(d),
                    }
                },
                None => prev,
            }
        }
    }
}

/// The anchor distance from `nation` to its nearest rival (the threat that
/// decides to militarise), `None` without anchor or rival.
pub fn nearest_rival_distance(realm: &Realm, nation: u16) -> (res: Option<u32>)
    requires
        realm.wf(),
    ensures
        res == match anchor_spec(*realm, nation) {
            Some(me) => rival_distance_upto(*realm, nation, me, realm.nations@.len() as int),
            None => None,
        },
{
    let me = match nation_anchor(realm, nation) {
        Some(p) => p,
        None => {
            return None;
        },
    };
    let mut best: Option<u32> = None;
    let mut k: usize = 0;
    while k < realm.nations.len()
        invariant
            realm.wf(),
            anchor_spec(*realm, nation) == Some(me),
            0 <= k <= realm.nations@.len(),
            best == rival_distance_upto(*realm, nation, me, k as int),
        decreases realm.nations.len() - k,
    {
        let o = realm.nations[k].id;
        if o != nation {
            if let Some(p) = nation_anchor(realm, o) {
                let d = manhattan(me.0, me.1, p.0, p.1, realm.width);
                best = match best {
                    Some(b) => Some(if d < b { d } else { b }),
                    None => Some(d),
                };
            }
        }
        k = k + 1;
    }
    best
}

/// A water tile where `nation` may build a port: free, not another's, on
/// its coast.
pub open spec fn port_site(r: Realm, nation: u16, i: int) -> bool {
    let p = r.plots@[i];
    &&& p.kind == TileKind::Ocean
    &&& p.building is None
    &&& !(p.owner matches Some(o) && o != nation)
    &&& crate::works::coastal(r.plots@, r.width as int, r.height as int, i, nation)
}

/// The first coastal water tile (index order) where `nation` could build a port.
pub fn coastal_water_to_build(realm: &Realm, nation: u16) -> (res: Option<(u32, u32)>)
    requires
        realm.wf(),
    ensures
        res matches Some(c) ==> exists|i: int| 0 <= i < realm.plots@.len() && port_site(*realm, nation, i)
            && c == coords_spec(i as usize, realm.width)
            && forall|j: int| 0 <= j < i ==> !#[trigger] port_site(*realm, nation, j),
        res is None ==> forall|i: int| 0 <= i < realm.plots@.len() ==> !#[trigger] port_site(*realm, nation, i),
{
    let mut i: usize = 0;
    while i < realm.plots.len()
        invariant
            realm.wf(),
            0 <= i <= realm.plots@.len(),
            forall|j: int| 0 <= j < i ==> !#[trigger] port_site(*realm, nation, j),
        decreases realm.plots.len() - i,
    {
        let p = realm.plots[i];
        let free = p.kind == TileKind::Ocean && p.building.is_none() && match p.owner {
            Some(o) => o == nation,
            None => true,
        };
        if free && realm.is_coastal_for(i, nation) {
            proof {
                assert(port_site(*realm, nation, i as int));
            }
            return Some(coords(i, realm.width));
        }
        i = i + 1;
    }
    None
}

/// Is some unit standing on tile `v` of a map of width `w`?
pub open spec fn unit_on(us: Seq<Unit>, v: int, w: int) -> bool {
    exists|k: int| 0 <= k < us.len() && (#[trigger] us[k]).x == v % w && us[k].y == v / w
}

/// The `k`-th neighbour of (x, y) is free enemy land: a land tile of a nation
/// `nation` is at war with, without a unit.
pub open spec fn enemy_land_at(r: Realm, nation: u16, x: u32, y: u32, k: int) -> bool {
    match nb_spec(r.idx(x, y), k, r.width as int, r.height as int) {
        Some(v) => {
            let p = r.plots@[v];
            &&& p.kind == TileKind::Land
            &&& p.owner matches Some(o) && o != nation && r.diplomacy.at_war_spec(nation, o)
            &&& !unit_on(r.units@, v, r.width as int)
        },
        None => false,
    }
}

/// Is some unit at (x, y)?
fn unit_at_xy(realm: &Realm, x: u32, y: u32) -> (r: bool)
    ensures
        r == exists|k: int| 0 <= k < realm.units@.len() && (#[trigger] realm.units@[k]).x == x && realm.units@[k].y == y,
{
    let mut k: usize = 0;
    while k < realm.units.len()
        invariant
            0 <= k <= realm.units@.len(),
            forall|j: int| 0 <= j < k ==> !((#[trigger] realm.units@[j]).x == x && realm.units@[j].y == y),
        decreases realm.units.len() - k,
    {
        if realm.units[k].x == x && realm.units[k].y == y {
            return true;
        }
        k = k + 1;
    }
    false
}

/// Free enemy land next to (x, y) (left, right, up, down: the first one), where
/// a galley can land its troops.
pub fn adjacent_enemy_land(realm: &Realm, nation: u16, x: u32, y: u32) -> (res: Option<(u32, u32)>)
    requires
        realm.wf(),
        x < realm.width,
        y < realm.height,
    ensures
        res matches Some(c) ==> exists|k: int| 0 <= k < 4 && #[trigger] enemy_land_at(*realm, nation, x, y, k)
            && c == coords_spec(nb_spec(realm.idx(x, y), k, realm.width as int, realm.height as int)->0 as usize, realm.width)
            && forall|j: int| 0 <= j < k ==> !#[trigger] enemy_land_at(*realm, nation, x, y, j),
        res is None ==> forall|k: int| 0 <= k < 4 ==> !#[trigger] enemy_land_at(*realm, nation, x, y, k),
{
    let i = realm.index(x, y);
    let nbs = neighbors(i, realm.width, realm.height);
    let mut k: usize = 0;
    while k < 4
        invariant
            realm.wf(),
            i == realm.idx(x, y),
            i < realm.plots@.len(),
            0 <= k <= 4,
            forall|k2: int| 0 <= k2 < 4 ==> opt_int(#[trigger] nbs@[k2]) == nb_spec(i as int, k2, realm.width as int, realm.height as int),
            forall|j: int| 0 <= j < k ==> !#[trigger] enemy_land_at(*realm, nation, x, y, j),
        decreases 4 - k,
    {
        proof {
            lemma_nb_in_map(i as int, k as int, realm.width as int, realm.height as int);
        }
        if let Some(v) = nbs[k] {
            let p = realm.plots[v];
            let (vx, vy) = coords(v, realm.width);
            proof {
                assert(v < 0x1_0000_0000);
            }
            let enemy = match p.owner {
                Some(o) => o != nation && realm.diplomacy.at_war(nation, o),
                None => false,
            };
            let occupied = unit_at_xy(realm, vx, vy);
            proof {
                assert(vx == (v as int) % (realm.width as int) && vy == (v as int) / (realm.width as int));
                if occupied {
                    let c = choose|c: int| 0 <= c < realm.units@.len() && (#[trigger] realm.units@[c]).x == vx && realm.units@[c].y == vy;
                    assert(unit_on(realm.units@, v as int, realm.width as int));
                } else {
                    if unit_on(realm.units@, v as int, realm.width as int) {
                        let c = choose|c: int| 0 <= c < realm.units@.len() && (#[trigger] realm.units@[c]).x == (v as int) % (realm.width as int)
                            && realm.units@[c].y == (v as int) / (realm.width as int);
                        assert(realm.units@[c].x == vx && realm.units@[c].y == vy);
                    }
                }
                assert(enemy_land_at(*realm, nation, x, y, k as int) == (p.kind == TileKind::Land && enemy && !occupied));
            }
            if p.kind == TileKind::Land && enemy && !occupied {
                return Some((vx, vy));
            }
        }
        k = k + 1;
    }
    None
}

/// Units aboard galley `g`.
pub open spec fn aboard(hs: Seq<Hold>, g: u32) -> int {
    load_of(hs, g).len() as int
}

/// Among the first `k` units, the nearest galley of `nation` with room left
/// (strictly nearer replaces; starting from `u32::MAX`, unreached).
pub open spec fn galley_upto(r: Realm, nation: u16, u: Unit, k: int) -> (Option<(u32, u32)>, u32)
    decreases k,
{
    if k <= 0 {
        (None, u32::MAX)
    } else {
        let prev = galley_upto(r, nation, u, k - 1);
        let g = r.units@[k - 1];
        let s = stats_of(g.kind);
        if g.owner != nation || !s.naval || aboard(r.holds@, g.id) >= s.capacity {
            prev
        } else {
            let d = manhattan_spec(u.x, u.y, g.x, g.y, r.width);
            if d < prev.1 { (Some((g.x, g.y)), d) } else { prev }
        }
    }
}

/// Load of galley `g` (0 when it carries nothing).
pub(crate) fn load_len(realm: &Realm, g: u32) -> (n: usize)
    requires
        realm.wf(),
    ensures
        n == aboard(realm.holds@, g),
{
    let (k, found) = realm.find_hold(g);
    if found {
        proof {
            crate::realm::lemma_hold_pos_pub(realm.holds@, k as int);
        }
        realm.holds[k].load.len()
    } else {
        0
    }
}

/// Position of the nearest galley of `nation` with room left (to join and
/// board).
pub fn nearest_loadable_galley(realm: &Realm, nation: u16, u: &Unit) -> (res: Option<(u32, u32)>)
    requires
        realm.wf(),
    ensures
        res == galley_upto(*realm, nation, *u, realm.units@.len() as int).0,
{
    let mut best: Option<(u32, u32)> = None;
    let mut best_d: u32 = u32::MAX;
    let mut k: usize = 0;
    while k < realm.units.len()
        invariant
            realm.wf(),
            0 <= k <= realm.units@.len(),
            (best, best_d) == galley_upto(*realm, nation, *u, k as int),
        decreases realm.units.len() - k,
    {
        let g = realm.units[k];
        let s = unit_stats(g.kind);
        if g.owner == nation && s.naval {
            let load = load_len(realm, g.id);
            if load < s.capacity as usize {
                let d = manhattan(u.x, u.y, g.x, g.y, realm.width);
                if d < best_d {
                    best_d = d;
                    best = Some((g.x, g.y));
                }
            }
        }
        k = k + 1;
    }
    best
}

/// A land unit of `nation` standing on tile `v` of a map of width `w`.
pub open spec fn fits_land(u: Unit, v: int, w: int, nation: u16) -> bool {
    u.x == v % w && u.y == v / w && u.owner == nation && !stats_of(u.kind).naval
}

/// A land unit of `nation` stands on the `k`-th neighbour of (x, y); the first
/// one (units' order) is `i`.
pub open spec fn land_unit_at(r: Realm, nation: u16, x: u32, y: u32, k: int, i: int) -> bool {
    match nb_spec(r.idx(x, y), k, r.width as int, r.height as int) {
        Some(v) => {
            &&& 0 <= i < r.units@.len()
            &&& fits_land(r.units@[i], v, r.width as int, nation)
            &&& forall|j: int| 0 <= j < i ==> !fits_land(#[trigger] r.units@[j], v, r.width as int, nation)
        },
        None => false,
    }
}

/// Some land unit of `nation` stands on the `k`-th neighbour of (x, y).
pub open spec fn any_land_unit_at(r: Realm, nation: u16, x: u32, y: u32, k: int) -> bool {
    exists|i: int| land_unit_at(r, nation, x, y, k, i)
}

/// The id of a land unit of `nation` next to (x, y) (to board a galley there).
pub fn adjacent_land_unit(realm: &Realm, nation: u16, x: u32, y: u32) -> (res: Option<u32>)
    requires
        realm.wf(),
        x < realm.width,
        y < realm.height,
    ensures
        res matches Some(id) ==> exists|k: int, i: int| 0 <= k < 4 && land_unit_at(*realm, nation, x, y, k, i)
            && realm.units@[i].id == id
            && forall|j: int| 0 <= j < k ==> !#[trigger] any_land_unit_at(*realm, nation, x, y, j),
        res is None ==> forall|k: int| 0 <= k < 4 ==> !#[trigger] any_land_unit_at(*realm, nation, x, y, k),
{
    let i = realm.index(x, y);
    let nbs = neighbors(i, realm.width, realm.height);
    let w = realm.width;
    let mut k: usize = 0;
    while k < 4
        invariant
            realm.wf(),
            w == realm.width,
            i == realm.idx(x, y),
            i < realm.plots@.len(),
            0 <= k <= 4,
            forall|k2: int| 0 <= k2 < 4 ==> opt_int(#[trigger] nbs@[k2]) == nb_spec(i as int, k2, realm.width as int, realm.height as int),
            forall|j: int| 0 <= j < k ==> !#[trigger] any_land_unit_at(*realm, nation, x, y, j),
        decreases 4 - k,
    {
        proof {
            lemma_nb_in_map(i as int, k as int, realm.width as int, realm.height as int);
        }
        if let Some(v) = nbs[k] {
            let (vx, vy) = coords(v, w);
            proof {
                assert(v < 0x1_0000_0000);
                assert(vx == (v as int) % (w as int) && vy == (v as int) / (w as int));
            }
            let mut m: usize = 0;
            while m < realm.units.len()
                invariant
                    realm.wf(),
                    w == realm.width,
                    vx == (v as int) % (w as int),
                    vy == (v as int) / (w as int),
                    0 <= k < 4,
                    nb_spec(realm.idx(x, y), k as int, realm.width as int, realm.height as int) == Some(v as int),
                    forall|j: int| 0 <= j < k ==> !#[trigger] any_land_unit_at(*realm, nation, x, y, j),
                    0 <= m <= realm.units@.len(),
                    forall|j: int| 0 <= j < m ==> !((#[trigger] realm.units@[j]).x == vx && realm.units@[j].y == vy
                        && realm.units@[j].owner == nation && !stats_of(realm.units@[j].kind).naval),
                decreases realm.units.len() - m,
            {
                let u = realm.units[m];
                if u.x == vx && u.y == vy && u.owner == nation && !unit_stats(u.kind).naval {
                    proof {
                        assert(fits_land(realm.units@[m as int], v as int, realm.width as int, nation));
                        assert forall|j: int| 0 <= j < m implies !fits_land(#[trigger] realm.units@[j], v as int, realm.width as int, nation) by {
                            assert(!(realm.units@[j].x == vx && realm.units@[j].y == vy
                                && realm.units@[j].owner == nation && !stats_of(realm.units@[j].kind).naval));
                        }
                        assert(land_unit_at(*realm, nation, x, y, k as int, m as int));
                    }
                    return Some(u.id);
                }
                m = m + 1;
            }
            proof {
                if any_land_unit_at(*realm, nation, x, y, k as int) {
                    let c = choose|c: int| land_unit_at(*realm, nation, x, y, k as int, c);
                    assert(fits_land(realm.units@[c], v as int, realm.width as int, nation));
                    assert(!(realm.units@[c].x == vx && realm.units@[c].y == vy
                        && realm.units@[c].owner == nation && !stats_of(realm.units@[c].kind).naval));
                }
            }
        }
        k = k + 1;
    }
    None
}

/// Tiles among the first `n` that `nation` owns and that carry `b`.
pub open spec fn count_built(ps: Seq<Plot>, nation: u16, b: Building, n: int) -> int
    decreases n,
{
    if n <= 0 {
        0
    } else {
        count_built(ps, nation, b, n - 1) + if ps[n - 1].owner == Some(nation) && ps[n - 1].building == Some(b) { 1int } else { 0 }
    }
}

/// Tiles among the first `n` that `nation` owns.
pub open spec fn count_owned(ps: Seq<Plot>, nation: u16, n: int) -> int
    decreases n,
{
    if n <= 0 {
        0
    } else {
        count_owned(ps, nation, n - 1) + if ps[n - 1].owner == Some(nation) { 1int } else { 0 }
    }
}

/// A free land tile of `nation` (where it may build).
pub open spec fn free_land(p: Plot, nation: u16) -> bool {
    p.owner == Some(nation) && p.building is None && p.kind == TileKind::Land
}

/// The wish list of the economy, by priority: first one of each link of the
/// chain (city, industry, farm, barracks when threatened, commerce, school),
/// then balance against the cities, connect a spread territory, and grow.
pub open spec fn wish_spec(cities: int, industries: int, farms: int, commerces: int, educations: int,
    infras: int, militaries: int, tiles_owned: int, militarize: bool) -> Seq<Building>
{
    let w1 = if cities == 0 { seq![Building::City] } else { Seq::empty() };
    let w2 = if industries == 0 { w1.push(Building::Industry) } else { w1 };
    let w3 = if farms == 0 { w2.push(Building::Farm) } else { w2 };
    let w4 = if militaries == 0 && militarize { w3.push(Building::Military) } else { w3 };
    let w5 = if commerces == 0 { w4.push(Building::Commerce) } else { w4 };
    let w6 = if educations == 0 { w5.push(Building::Education) } else { w5 };
    let w7 = if farms < cities { w6.push(Building::Farm) } else { w6 };
    let w8 = if commerces < cities { w7.push(Building::Commerce) } else { w7 };
    let w9 = if industries < cities { w8.push(Building::Industry) } else { w8 };
    let w10 = if educations * 2 < cities { w9.push(Building::Education) } else { w9 };
    let w11 = if militarize && militaries < cities { w10.push(Building::Military) } else { w10 };
    let w12 = if infras * 6 < tiles_owned { w11.push(Building::Infrastructure) } else { w11 };
    w12.push(Building::City)
}

/// Can `n` pay for `b`?
pub open spec fn affordable(n: Nation, b: Building) -> bool {
    let c = crate::works::build_cost_spec(b);
    n.money >= c.0 && n.materials >= c.1 && n.housing >= c.2
}

/// The first wish `n` can afford.
pub open spec fn first_affordable(wish: Seq<Building>, n: Nation) -> Option<Building>
    decreases wish.len(),
{
    if wish.len() == 0 {
        None
    } else if affordable(n, wish[0]) {
        Some(wish[0])
    } else {
        first_affordable(wish.drop_first(), n)
    }
}

/// Among the first `n` tiles, the free land of `nation` best suited to `b`:
/// cities and farms on the highest capacity rank, the rest on the lowest (the
/// first one among equals).
pub open spec fn best_site_upto(ps: Seq<Plot>, rank: Seq<u64>, nation: u16, high: bool, n: int) -> Option<int>
    decreases n,
{
    if n <= 0 {
        None
    } else {
        let prev = best_site_upto(ps, rank, nation, high, n - 1);
        let i = n - 1;
        if !free_land(ps[i], nation) {
            prev
        } else {
            match prev {
                None => Some(i),
                Some(b) => if (high && rank[i] > rank[b]) || (!high && rank[i] < rank[b]) { Some(i) } else { prev },
            }
        }
    }
}

/// The building the economy of `nation` asks for and where, if any.
pub open spec fn economy_spec(r: Realm, nation: u16, rank: Seq<u64>, militarize: bool) -> Seq<Command> {
    let ps = r.plots@;
    let len = ps.len() as int;
    if !crate::realm::has_nation(r.nations@, nation) {
        Seq::empty()
    } else {
        let n = r.nations@[crate::realm::nation_pos(r.nations@, nation)];
        let wish = wish_spec(count_built(ps, nation, Building::City, len), count_built(ps, nation, Building::Industry, len),
            count_built(ps, nation, Building::Farm, len), count_built(ps, nation, Building::Commerce, len),
            count_built(ps, nation, Building::Education, len), count_built(ps, nation, Building::Infrastructure, len),
            count_built(ps, nation, Building::Military, len), count_owned(ps, nation, len), militarize);
        match first_affordable(wish, n) {
            Some(b) => match best_site_upto(ps, rank, nation, b == Building::City || b == Building::Farm, len) {
                Some(i) => {
                    let c = coords_spec(i as usize, r.width);
                    seq![Command::Build { x: c.0, y: c.1, nation, building: b }]
                },
                None => Seq::empty(),
            },
            None => Seq::empty(),
        }
    }
}

proof fn lemma_best_site(ps: Seq<Plot>, rank: Seq<u64>, nation: u16, high: bool, n: int)
    requires
        0 <= n <= ps.len(),
    ensures
        best_site_upto(ps, rank, nation, high, n) matches Some(b) ==> 0 <= b < n && free_land(ps[b], nation),
        best_site_upto(ps, rank, nation, high, n) is None ==> forall|j: int| 0 <= j < n ==> !free_land(#[trigger] ps[j], nation),
    decreases n,
{
    if n > 0 {
        lemma_best_site(ps, rank, nation, high, n - 1);
    }
}

proof fn lemma_count_bounds(ps: Seq<Plot>, nation: u16, b: Building, n: int)
    requires
        0 <= n,
    ensures
        0 <= count_built(ps, nation, b, n) <= n,
        0 <= count_owned(ps, nation, n) <= n,
    decreases n,
{
    if n > 0 {
        lemma_count_bounds(ps, nation, b, n - 1);
    }
}

/// The wish list of the economy (see [`wish_spec`]).
fn wishes(cities: u64, industries: u64, farms: u64, commerces: u64, educations: u64, infras: u64,
    militaries: u64, owned: u64, militarize: bool) -> (wish: Vec<Building>)
    requires
        educations <= u32::MAX,
        infras <= u32::MAX,
    ensures
        wish@ == wish_spec(cities as int, industries as int, farms as int, commerces as int, educations as int,
            infras as int, militaries as int, owned as int, militarize),
{
    let mut wish: Vec<Building> = Vec::new();
    if cities == 0 { wish.push(Building::City); }
    if industries == 0 { wish.push(Building::Industry); }
    if farms == 0 { wish.push(Building::Farm); }
    if militaries == 0 && militarize { wish.push(Building::Military); }
    if commerces == 0 { wish.push(Building::Commerce); }
    if educations == 0 { wish.push(Building::Education); }
    if farms < cities { wish.push(Building::Farm); }
    if commerces < cities { wish.push(Building::Commerce); }
    if industries < cities { wish.push(Building::Industry); }
    if educations * 2 < cities { wish.push(Building::Education); }
    if militarize && militaries < cities { wish.push(Building::Military); }
    if infras * 6 < owned { wish.push(Building::Infrastructure); }
    wish.push(Building::City);
    assert(wish@ =~= wish_spec(cities as int, industries as int, farms as int, commerces as int, educations as int,
        infras as int, militaries as int, owned as int, militarize));
    wish
}

/// The first wish `n` can afford.
fn pick_affordable(wish: &Vec<Building>, n: &Nation) -> (r: Option<Building>)
    ensures
        r == first_affordable(wish@, *n),
{
    let mut j: usize = 0;
    assert(wish@.subrange(0, wish@.len() as int) =~= wish@);
    while j < wish.len()
        invariant
            0 <= j <= wish@.len(),
            first_affordable(wish@, *n) == first_affordable(wish@.subrange(j as int, wish@.len() as int), *n),
        decreases wish.len() - j,
    {
        let b = wish[j];
        let (m, mat, hou) = crate::works::build_cost(b);
        proof {
            let rest = wish@.subrange(j as int, wish@.len() as int);
            assert(rest[0] == b);
            assert(rest.drop_first() =~= wish@.subrange(j + 1, wish@.len() as int));
        }
        if n.money >= m && n.materials >= mat && n.housing >= hou {
            return Some(b);
        }
        j = j + 1;
    }
    None
}

/// What the economy reads of the tiles of `nation`: its buildings by kind,
/// its tiles, and its best free land tile for each preference.
struct Census {
    cities: u64,
    industries: u64,
    farms: u64,
    commerces: u64,
    educations: u64,
    infras: u64,
    militaries: u64,
    owned: u64,
    high_site: Option<usize>,
    low_site: Option<usize>,
}

fn take_census(realm: &Realm, nation: u16, rank: &Vec<u64>) -> (c: Census)
    requires
        realm.wf(),
        rank@.len() == realm.plots@.len(),
    ensures
        ({
            let ps = realm.plots@;
            let len = ps.len() as int;
            &&& c.cities == count_built(ps, nation, Building::City, len)
            &&& c.industries == count_built(ps, nation, Building::Industry, len)
            &&& c.farms == count_built(ps, nation, Building::Farm, len)
            &&& c.commerces == count_built(ps, nation, Building::Commerce, len)
            &&& c.educations == count_built(ps, nation, Building::Education, len)
            &&& c.infras == count_built(ps, nation, Building::Infrastructure, len)
            &&& c.militaries == count_built(ps, nation, Building::Military, len)
            &&& c.owned == count_owned(ps, nation, len)
            &&& opt_int(c.high_site) == best_site_upto(ps, rank@, nation, true, len)
            &&& opt_int(c.low_site) == best_site_upto(ps, rank@, nation, false, len)
            &&& c.educations <= u32::MAX
            &&& c.infras <= u32::MAX
        }),
{
    let len = realm.plots.len();
    let ghost ps = realm.plots@;
    let mut c = Census {
        cities: 0, industries: 0, farms: 0, commerces: 0, educations: 0, infras: 0, militaries: 0, owned: 0,
        high_site: None, low_site: None,
    };
    let mut i: usize = 0;
    while i < len
        invariant
            realm.wf(),
            ps == realm.plots@,
            len == ps.len(),
            len <= u32::MAX,
            rank@.len() == len,
            0 <= i <= len,
            c.cities == count_built(ps, nation, Building::City, i as int),
            c.industries == count_built(ps, nation, Building::Industry, i as int),
            c.farms == count_built(ps, nation, Building::Farm, i as int),
            c.commerces == count_built(ps, nation, Building::Commerce, i as int),
            c.educations == count_built(ps, nation, Building::Education, i as int),
            c.infras == count_built(ps, nation, Building::Infrastructure, i as int),
            c.militaries == count_built(ps, nation, Building::Military, i as int),
            c.owned == count_owned(ps, nation, i as int),
            opt_int(c.high_site) == best_site_upto(ps, rank@, nation, true, i as int),
            opt_int(c.low_site) == best_site_upto(ps, rank@, nation, false, i as int),
        decreases len - i,
    {
        proof {
            lemma_best_site(ps, rank@, nation, true, i as int);
            lemma_best_site(ps, rank@, nation, false, i as int);
            lemma_count_bounds(ps, nation, Building::City, i as int);
            lemma_count_bounds(ps, nation, Building::Industry, i as int);
            lemma_count_bounds(ps, nation, Building::Farm, i as int);
            lemma_count_bounds(ps, nation, Building::Commerce, i as int);
            lemma_count_bounds(ps, nation, Building::Education, i as int);
            lemma_count_bounds(ps, nation, Building::Infrastructure, i as int);
            lemma_count_bounds(ps, nation, Building::Military, i as int);
        }
        let p = realm.plots[i];
        if p.owner == Some(nation) {
            c.owned = c.owned + 1;
            match p.building {
                Some(Building::City) => { c.cities = c.cities + 1; },
                Some(Building::Industry) => { c.industries = c.industries + 1; },
                Some(Building::Farm) => { c.farms = c.farms + 1; },
                Some(Building::Commerce) => { c.commerces = c.commerces + 1; },
                Some(Building::Education) => { c.educations = c.educations + 1; },
                Some(Building::Infrastructure) => { c.infras = c.infras + 1; },
                Some(Building::Military) => { c.militaries = c.militaries + 1; },
                Some(Building::Port) => {},
                None => {
                    if p.kind == TileKind::Land {
                        c.high_site = match c.high_site {
                            None => Some(i),
                            Some(b) => if rank[i] > rank[b] { Some(i) } else { Some(b) },
                        };
                        c.low_site = match c.low_site {
                            None => Some(i),
                            Some(b) => if rank[i] < rank[b] { Some(i) } else { Some(b) },
                        };
                    }
                },
            }
        }
        i = i + 1;
    }
    proof {
        lemma_count_bounds(ps, nation, Building::Education, len as int);
        lemma_count_bounds(ps, nation, Building::Infrastructure, len as int);
    }
    c
}

/// Building economy of an AI nation: among its free land tiles, the most
/// useful building for its development (the first affordable wish) on the
/// best tile for it (`rank` orders the tiles by carrying capacity). At most
/// one building a turn.
pub fn economy(realm: &Realm, nation: u16, rank: &Vec<u64>) -> (cmds: Vec<Command>)
    requires
        realm.wf(),
        rank@.len() == realm.plots@.len(),
    ensures
        cmds@ == economy_spec(*realm, nation, rank@,
            at_war_with_anyone_spec(*realm, nation) || (match anchor_spec(*realm, nation) {
                Some(me) => rival_distance_upto(*realm, nation, me, realm.nations@.len() as int),
                None => None,
            }) is Some),
{
    let k = match realm.nation_index(nation) {
        Some(k) => k,
        None => {
            return Vec::new();
        },
    };
    let n = realm.nations[k];
    let c = take_census(realm, nation, rank);
    proof {
        let len = realm.plots@.len() as int;
        lemma_best_site(realm.plots@, rank@, nation, true, len);
        lemma_best_site(realm.plots@, rank@, nation, false, len);
    }
    if c.high_site.is_none() {
        return Vec::new();
    }
    let at_war = at_war_with_anyone(realm, nation);
    let threatened = nearest_rival_distance(realm, nation).is_some();
    let militarize = at_war || threatened;
    let wish = wishes(c.cities, c.industries, c.farms, c.commerces, c.educations, c.infras, c.militaries, c.owned, militarize);
    let b = match pick_affordable(&wish, &n) {
        Some(b) => b,
        None => {
            return Vec::new();
        },
    };
    let site = if b == Building::City || b == Building::Farm { c.high_site } else { c.low_site };
    let idx = match site {
        Some(s) => s,
        None => {
            return Vec::new();
        },
    };
    let (x, y) = coords(idx, realm.width);
    vec![Command::Build { x, y, nation, building: b }]
}

/// Distance from tile `v` to the rival's anchor (0 without a rival).
pub open spec fn rival_pull(r: Realm, rival: Option<(u32, u32)>, v: int) -> u32 {
    match rival {
        Some(p) => {
            let c = coords_spec(v as usize, r.width);
            manhattan_spec(c.0, c.1, p.0, p.1, r.width)
        },
        None => 0,
    }
}

/// A free land neighbour a swarm may aim at: unowned land not yet targeted.
pub open spec fn swarm_target(r: Realm, targeted: Seq<int>, v: int) -> bool {
    r.plots@[v].kind == TileKind::Land && r.plots@[v].owner is None && !targeted.contains(v)
}

/// Among the first `k` neighbours of tile `i`, the target that brings the
/// swarm nearest to the rival (the first one among equals).
pub open spec fn best_target_upto(r: Realm, rival: Option<(u32, u32)>, targeted: Seq<int>, i: int, k: int) -> Option<int>
    decreases k,
{
    if k <= 0 {
        None
    } else {
        let prev = best_target_upto(r, rival, targeted, i, k - 1);
        match nb_spec(i, k - 1, r.width as int, r.height as int) {
            Some(v) => if !swarm_target(r, targeted, v) {
                prev
            } else {
                match prev {
                    None => Some(v),
                    Some(b) => if rival_pull(r, rival, v) < rival_pull(r, rival, b) { Some(v) } else { prev },
                }
            },
            None => prev,
        }
    }
}

/// The swarms planned over the first `n` tiles: (budget left, targeted
/// tiles, commands).
pub open spec fn expansion_upto(r: Realm, nation: u16, populous: Seq<bool>, rival: Option<(u32, u32)>, budget: int, n: int)
    -> (int, Seq<int>, Seq<Command>)
    decreases n,
{
    if n <= 0 {
        (budget, Seq::empty(), Seq::empty())
    } else {
        let prev = expansion_upto(r, nation, populous, rival, budget, n - 1);
        let i = n - 1;
        if prev.0 <= 0 || r.plots@[i].owner != Some(nation) || !populous[i] {
            prev
        } else {
            match best_target_upto(r, rival, prev.1, i, 4) {
                Some(v) => {
                    let c = coords_spec(i as usize, r.width);
                    let t = coords_spec(v as usize, r.width);
                    (prev.0 - 1, prev.1.push(v), prev.2.push(Command::Swarm { from_x: c.0, from_y: c.1, to_x: t.0, to_y: t.1 }))
                },
                None => prev,
            }
        }
    }
}

/// Is `v` in the list?
fn listed(list: &Vec<usize>, v: usize) -> (r: bool)
    ensures
        r == Seq::new(list@.len(), |k: int| list@[k] as int).contains(v as int),
{
    let ghost s = Seq::new(list@.len(), |k: int| list@[k] as int);
    let mut k: usize = 0;
    while k < list.len()
        invariant
            s == Seq::new(list@.len(), |k: int| list@[k] as int),
            0 <= k <= list@.len(),
            forall|j: int| 0 <= j < k ==> list@[j] != v,
        decreases list.len() - k,
    {
        if list[k] == v {
            assert(s[k as int] == v);
            return true;
        }
        k = k + 1;
    }
    false
}

/// Greedy expansion towards the nearest rival (territories meet, frontier
/// friction follows): every tile of `nation` holding a thousand people or more
/// (`populous`) swarms to the free neighbouring land that brings it nearest
/// to the rival's anchor, as long as the nation's influence lasts.
pub fn expansion(realm: &Realm, nation: u16, populous: &Vec<bool>) -> (cmds: Vec<Command>)
    requires
        realm.wf(),
        populous@.len() == realm.plots@.len(),
    ensures
        ({
            let budget = if crate::realm::has_nation(realm.nations@, nation) {
                (realm.nations@[crate::realm::nation_pos(realm.nations@, nation)].influence as int) / (crate::works::SWARM_INFLUENCE as int)
            } else {
                0
            };
            let rival = match nearest_rival_spec(*realm, nation) {
                Some(o) => anchor_spec(*realm, o),
                None => None,
            };
            cmds@ == if budget <= 0 { Seq::empty() } else {
                expansion_upto(*realm, nation, populous@, rival, budget, realm.plots@.len() as int).2
            }
        }),
{
    let mut budget: i64 = match realm.nation_index(nation) {
        Some(k) => realm.nations[k].influence / crate::works::SWARM_INFLUENCE,
        None => 0,
    };
    if budget <= 0 {
        return Vec::new();
    }
    let ghost b0 = budget as int;
    let rival = match nearest_rival(realm, nation) {
        Some(o) => nation_anchor(realm, o),
        None => None,
    };
    let w = realm.width;
    let len = realm.plots.len();
    let mut targeted: Vec<usize> = Vec::new();
    let mut cmds: Vec<Command> = Vec::new();
    let mut i: usize = 0;
    while i < len
        invariant
            realm.wf(),
            w == realm.width,
            len == realm.plots@.len(),
            populous@.len() == len,
            0 <= i <= len,
            ({
                let st = expansion_upto(*realm, nation, populous@, rival, b0, i as int);
                &&& budget == st.0
                &&& Seq::new(targeted@.len(), |k: int| targeted@[k] as int) == st.1
                &&& cmds@ == st.2
            }),
        decreases len - i,
    {
        if budget > 0 && realm.plots[i].owner == Some(nation) && populous[i] {
            let nbs = neighbors(i, realm.width, realm.height);
            let ghost tg = Seq::new(targeted@.len(), |k: int| targeted@[k] as int);
            let mut best: Option<usize> = None;
            let mut best_d: u32 = 0;
            let mut k: usize = 0;
            while k < 4
                invariant
                    realm.wf(),
                    w == realm.width,
                    i < len,
                    len == realm.plots@.len(),
                    0 <= k <= 4,
                    tg == Seq::new(targeted@.len(), |k: int| targeted@[k] as int),
                    forall|k2: int| 0 <= k2 < 4 ==> opt_int(#[trigger] nbs@[k2]) == nb_spec(i as int, k2, realm.width as int, realm.height as int),
                    opt_int(best) == best_target_upto(*realm, rival, tg, i as int, k as int),
                    best matches Some(b) ==> best_d == rival_pull(*realm, rival, b as int),
                decreases 4 - k,
            {
                proof {
                    lemma_nb_in_map(i as int, k as int, realm.width as int, realm.height as int);
                }
                if let Some(v) = nbs[k] {
                    let p = realm.plots[v];
                    let seen = listed(&targeted, v);
                    if p.kind == TileKind::Land && p.owner.is_none() && !seen {
                        let (nx, ny) = coords(v, w);
                        let d = match rival {
                            Some((rx, ry)) => manhattan(nx, ny, rx, ry, w),
                            None => 0,
                        };
                        let better = match best {
                            None => true,
                            Some(_) => d < best_d,
                        };
                        if better {
                            best = Some(v);
                            best_d = d;
                        }
                    }
                }
                k = k + 1;
            }
            if let Some(v) = best {
                let (x, y) = coords(i, w);
                let (nx, ny) = coords(v, w);
                targeted.push(v);
                cmds.push(Command::Swarm { from_x: x, from_y: y, to_x: nx, to_y: ny });
                budget = budget - 1;
                proof {
                    assert(Seq::new(targeted@.len(), |k: int| targeted@[k] as int) =~= tg.push(v as int));
                }
            }
        }
        i = i + 1;
    }
    cmds
}

/// The map as one owner for all the land (its regions are the land masses).
pub open spec fn land_view(ps: Seq<Plot>) -> Seq<Plot> {
    Seq::new(ps.len(), |i: int| Plot {
        kind: ps[i].kind,
        owner: if ps[i].kind == TileKind::Land { Some(0u16) } else { None },
        occupier: None,
        building: None,
    })
}

/// Land tiles among the first `n` labelled `g`.
pub open spec fn class_size(ps: Seq<Plot>, label: Seq<u32>, g: int, n: int) -> int
    decreases n,
{
    if n <= 0 {
        0
    } else {
        class_size(ps, label, g, n - 1) + if ps[n - 1].kind == TileKind::Land && label[n - 1] == g { 1int } else { 0 }
    }
}

/// Among the land masses whose label is below `n`, the largest (the first one
/// among equals).
pub open spec fn best_class_upto(ps: Seq<Plot>, label: Seq<u32>, n: int) -> Option<int>
    decreases n,
{
    if n <= 0 {
        None
    } else {
        let prev = best_class_upto(ps, label, n - 1);
        let g = n - 1;
        if ps[g].kind != TileKind::Land || label[g] != g {
            prev
        } else {
            match prev {
                None => Some(g),
                Some(b) => if class_size(ps, label, g, ps.len() as int) > class_size(ps, label, b, ps.len() as int) {
                    Some(g)
                } else {
                    prev
                },
            }
        }
    }
}

/// The tiles of the largest land mass, given the labelling `label`.
pub open spec fn continent_mask(ps: Seq<Plot>, label: Seq<u32>) -> Seq<bool> {
    let best = best_class_upto(ps, label, ps.len() as int);
    Seq::new(ps.len(), |i: int| ps[i].kind == TileKind::Land && best == Some(label[i] as int))
}

proof fn lemma_class_size_bound(ps: Seq<Plot>, label: Seq<u32>, g: int, n: int)
    requires
        0 <= n,
    ensures
        0 <= class_size(ps, label, g, n) <= n,
    decreases n,
{
    if n > 0 {
        lemma_class_size_bound(ps, label, g, n - 1);
    }
}

/// The tiles of the largest land mass (four neighbours, X wraps), the first
/// one among equals: all the nations are settled there, so their armies can
/// meet overland.
pub fn largest_land_component(realm: &Realm) -> (mask: Vec<bool>)
    requires
        realm.wf(),
    ensures
        exists|label: Seq<u32>| crate::connect::labels_regions(land_view(realm.plots@), realm.width as int, realm.height as int, label)
            && mask@ == continent_mask(realm.plots@, label),
{
    let n = realm.plots.len();
    let mut land: Vec<Plot> = Vec::new();
    let mut i: usize = 0;
    while i < n
        invariant
            n == realm.plots@.len(),
            0 <= i <= n,
            land@ == land_view(realm.plots@).subrange(0, i as int),
        decreases n - i,
    {
        let k = realm.plots[i].kind;
        let owner: Option<u16> = if k == TileKind::Land { Some(0) } else { None };
        land.push(Plot { kind: k, owner, occupier: None, building: None });
        proof {
            assert(land@ =~= land_view(realm.plots@).subrange(0, i + 1));
        }
        i = i + 1;
    }
    assert(land@ =~= land_view(realm.plots@));
    let label = crate::connect::regions(&land, realm.width, realm.height);
    let ghost ps = realm.plots@;
    let mut sizes: Vec<u32> = Vec::new();
    let mut g: usize = 0;
    while g < n
        invariant
            n == ps.len(),
            0 <= g <= n,
            sizes@.len() == g,
            forall|j: int| 0 <= j < g ==> #[trigger] sizes@[j] == 0,
        decreases n - g,
    {
        sizes.push(0);
        g = g + 1;
    }
    let mut i: usize = 0;
    while i < n
        invariant
            n == ps.len(),
            ps == realm.plots@,
            n <= u32::MAX,
            label@.len() == n,
            crate::connect::labels_regions(land_view(ps), realm.width as int, realm.height as int, label@),
            0 <= i <= n,
            sizes@.len() == n,
            forall|j: int| 0 <= j < n ==> #[trigger] sizes@[j] == class_size(ps, label@, j, i as int),
        decreases n - i,
    {
        if realm.plots[i].kind == TileKind::Land {
            let l = label[i] as usize;
            proof {
                assert(label@[i as int] <= i);
                lemma_class_size_bound(ps, label@, l as int, i as int);
            }
            let c = sizes[l];
            sizes.set(l, c + 1);
        }
        i = i + 1;
    }
    let mut best: Option<usize> = None;
    let mut g: usize = 0;
    while g < n
        invariant
            n == ps.len(),
            ps == realm.plots@,
            label@.len() == n,
            sizes@.len() == n,
            forall|j: int| 0 <= j < n ==> #[trigger] sizes@[j] == class_size(ps, label@, j, n as int),
            0 <= g <= n,
            opt_int(best) == best_class_upto(ps, label@, g as int),
            best matches Some(b) ==> b < g,
        decreases n - g,
    {
        if realm.plots[g].kind == TileKind::Land && label[g] as usize == g {
            best = match best {
                None => Some(g),
                Some(b) => if sizes[g] > sizes[b] { Some(g) } else { Some(b) },
            };
        }
        g = g + 1;
    }
    let mut mask: Vec<bool> = Vec::new();
    let mut i: usize = 0;
    while i < n
        invariant
            n == ps.len(),
            ps == realm.plots@,
            label@.len() == n,
            opt_int(best) == best_class_upto(ps, label@, n as int),
            0 <= i <= n,
            mask@ == continent_mask(ps, label@).subrange(0, i as int),
        decreases n - i,
    {
        let on = realm.plots[i].kind == TileKind::Land && match best {
            Some(b) => label[i] as usize == b,
            None => false,
        };
        mask.push(on);
        proof {
            assert(mask@ =~= continent_mask(ps, label@).subrange(0, i + 1));
        }
        i = i + 1;
    }
    assert(mask@ =~= continent_mask(ps, label@));
    mask
}

/// Salt of the seeded draw of the settlement sites (independent of the world
/// generation).
pub const SPAWN_SALT: u64 = 0xA53C_9E2D_7F10_4B6B;

/// Tiles (row-major) of the largest land mass meeting hospitality level `lvl`,
/// among the first `n`.
pub open spec fn cands_upto(mask: Seq<bool>, level: Seq<u8>, w: u32, lvl: u8, n: int) -> Seq<(u32, u32)>
    decreases n,
{
    if n <= 0 {
        Seq::empty()
    } else {
        let prev = cands_upto(mask, level, w, lvl, n - 1);
        if mask[n - 1] && level[n - 1] >= lvl { prev.push(coords_spec((n - 1) as usize, w)) } else { prev }
    }
}

/// The candidate sites: the most hospitable level that offers `count` of
/// them, the last level (any land of the mass) otherwise.
pub open spec fn candidates_spec(mask: Seq<bool>, level: Seq<u8>, w: u32, count: u16) -> Seq<(u32, u32)> {
    let n = mask.len() as int;
    let c5 = cands_upto(mask, level, w, 5, n);
    let c4 = cands_upto(mask, level, w, 4, n);
    let c3 = cands_upto(mask, level, w, 3, n);
    let c2 = cands_upto(mask, level, w, 2, n);
    let c1 = cands_upto(mask, level, w, 1, n);
    if c5.len() >= count { c5 } else if c4.len() >= count { c4 } else if c3.len() >= count { c3 }
    else if c2.len() >= count { c2 } else { c1 }
}

/// Fisher–Yates from position `i` down to 1, drawing from a generator in
/// state `st`.
pub open spec fn shuffle_from(c: Seq<(u32, u32)>, st: u64, i: int) -> Seq<(u32, u32)>
    decreases i,
{
    if i < 1 || i >= c.len() {
        c
    } else {
        let j = (crate::rng::draw(st) % ((i + 1) as u64)) as int;
        shuffle_from(c.update(i, c[j]).update(j, c[i]), crate::rng::advance(st), i - 1)
    }
}

/// Greedy spaced placement over the first `k` candidates: a site is kept when
/// at least `min_dist` away from all the sites kept, until `count` are kept.
pub open spec fn place_spaced(c: Seq<(u32, u32)>, w: u32, min_dist: i64, count: u16, k: int) -> Seq<(u32, u32)>
    decreases k,
{
    if k <= 0 {
        Seq::empty()
    } else {
        let prev = place_spaced(c, w, min_dist, count, k - 1);
        let s = c[k - 1];
        if prev.len() == count {
            prev
        } else if forall|j: int| 0 <= j < prev.len() ==> distance_spec(s.0, s.1, (#[trigger] prev[j]).0, prev[j].1, w) >= min_dist {
            prev.push(s)
        } else {
            prev
        }
    }
}

/// Fallback placement: the remaining candidates in order, without spacing.
pub open spec fn place_fill(c: Seq<(u32, u32)>, count: u16, start: Seq<(u32, u32)>, k: int) -> Seq<(u32, u32)>
    decreases k,
{
    if k <= 0 {
        start
    } else {
        let prev = place_fill(c, count, start, k - 1);
        if prev.len() == count || prev.contains(c[k - 1]) { prev } else { prev.push(c[k - 1]) }
    }
}

/// The sites chosen for `count` nations.
pub open spec fn sites_spec(mask: Seq<bool>, level: Seq<u8>, w: u32, seed: u64, count: u16, min_dist: i64) -> Seq<(u32, u32)> {
    let c0 = candidates_spec(mask, level, w, count);
    let c = shuffle_from(c0, seed ^ SPAWN_SALT, c0.len() - 1);
    let spaced = place_spaced(c, w, min_dist, count, c.len() as int);
    if spaced.len() < count { place_fill(c, count, spaced, c.len() as int) } else { spaced }
}

/// Settlement and city of the first `k` sites (nation `i` on site `i`).
pub open spec fn settle_cmds(sites: Seq<(u32, u32)>, k: int) -> Seq<Command>
    decreases k,
{
    if k <= 0 {
        Seq::empty()
    } else {
        let s = sites[k - 1];
        let n = (k - 1) as u16;
        settle_cmds(sites, k - 1).push(Command::Settle { x: s.0, y: s.1, nation: n, population: 300 })
            .push(Command::Build { x: s.0, y: s.1, nation: n, building: Building::City })
    }
}

/// Starting resources for the AI nations among the first `k` (not the player).
pub open spec fn endow_cmds(player: u16, k: int) -> Seq<Command>
    decreases k,
{
    if k <= 0 {
        Seq::empty()
    } else {
        let prev = endow_cmds(player, k - 1);
        let id = (k - 1) as u16;
        if id == player {
            prev
        } else {
            prev.push(Command::Endow { nation: id, money: 3000, materials: 800, influence: 60, housing: 250, food: 600 })
        }
    }
}

/// Candidate sites at hospitality level `lvl`.
fn candidates_at(mask: &Vec<bool>, level: &Vec<u8>, w: u32, lvl: u8) -> (c: Vec<(u32, u32)>)
    requires
        w > 0,
        level@.len() == mask@.len(),
    ensures
        c@ == cands_upto(mask@, level@, w, lvl, mask@.len() as int),
{
    let mut c: Vec<(u32, u32)> = Vec::new();
    let mut i: usize = 0;
    while i < mask.len()
        invariant
            w > 0,
            level@.len() == mask@.len(),
            0 <= i <= mask@.len(),
            c@ == cands_upto(mask@, level@, w, lvl, i as int),
        decreases mask.len() - i,
    {
        if mask[i] && level[i] >= lvl {
            c.push(coords(i, w));
        }
        i = i + 1;
    }
    c
}

/// Places `count` nations on hospitable land of the largest land mass, drawn
/// at random but seeded (same seed, same sites, same replay), keeping a
/// minimal spacing `min_dist` when the land allows it. `level[i]` is the
/// hospitality of tile `i`: how many of the capacity thresholds (1500, 1000,
/// 600, 400, 1) it meets. Each nation gets a city; the AI nations (all but
/// `player`) get starting resources.
pub fn spawn_nations(realm: &Realm, seed: u64, count: u16, player: u16, level: &Vec<u8>, min_dist: i64)
    -> (cmds: Vec<Command>)
    requires
        realm.wf(),
        level@.len() == realm.plots@.len(),
    ensures
        count == 0 ==> cmds@ == Seq::<Command>::empty(),
        count > 0 ==> exists|label: Seq<u32>| #[trigger] crate::connect::labels_regions(land_view(realm.plots@),
            realm.width as int, realm.height as int, label) && ({
                let mask = continent_mask(realm.plots@, label);
                let c0 = candidates_spec(mask, level@, realm.width, count);
                let sites = sites_spec(mask, level@, realm.width, seed, count, min_dist);
                cmds@ == if c0.len() == 0 { Seq::empty() } else {
                    settle_cmds(sites, sites.len() as int) + endow_cmds(player, sites.len() as int)
                }
            }),
{
    if count == 0 {
        return Vec::new();
    }
    let mask = largest_land_component(realm);
    let w = realm.width;
    let ghost label = choose|label: Seq<u32>| crate::connect::labels_regions(land_view(realm.plots@),
        realm.width as int, realm.height as int, label) && mask@ == continent_mask(realm.plots@, label);
    let c5 = candidates_at(&mask, level, w, 5);
    let mut cands = if c5.len() >= count as usize { c5 } else {
        let c4 = candidates_at(&mask, level, w, 4);
        if c4.len() >= count as usize { c4 } else {
            let c3 = candidates_at(&mask, level, w, 3);
            if c3.len() >= count as usize { c3 } else {
                let c2 = candidates_at(&mask, level, w, 2);
                if c2.len() >= count as usize { c2 } else {
                    candidates_at(&mask, level, w, 1)
                }
            }
        }
    };
    proof {
        assert(cands@ == candidates_spec(mask@, level@, w, count));
    }
    if cands.len() == 0 {
        return Vec::new();
    }
    let ghost c0 = cands@;
    let mut rng = crate::rng::Rng::new(seed ^ SPAWN_SALT);
    let clen = cands.len();
    let mut i: usize = clen - 1;
    while i >= 1
        invariant
            clen == c0.len(),
            cands@.len() == c0.len(),
            0 <= i < c0.len(),
            shuffle_from(cands@, rng.state(), i as int) == shuffle_from(c0, seed ^ SPAWN_SALT, c0.len() - 1),
        decreases i,
    {
        let r = rng.next_u64();
        let j = (r % (i as u64 + 1)) as usize;
        let a = cands[i];
        let b = cands[j];
        proof {
            let before = cands@;
            assert(before.update(i as int, before[j as int]).update(j as int, before[i as int])
                == before.update(i as int, b).update(j as int, a));
        }
        cands.set(i, b);
        cands.set(j, a);
        i = i - 1;
    }
    proof {
        assert(shuffle_from(cands@, rng.state(), 0) == cands@);
    }
    let ghost c = cands@;
    let mut placed: Vec<(u32, u32)> = Vec::new();
    let mut k: usize = 0;
    while k < cands.len()
        invariant
            c == cands@,
            0 <= k <= c.len(),
            placed@ == place_spaced(c, w, min_dist, count, k as int),
            placed@.len() <= count,
        decreases cands.len() - k,
    {
        if placed.len() < count as usize {
            let s = cands[k];
            let mut ok = true;
            let mut j: usize = 0;
            while j < placed.len()
                invariant
                    0 <= j <= placed@.len(),
                    ok == forall|m: int| 0 <= m < j ==> distance_spec(s.0, s.1, (#[trigger] placed@[m]).0, placed@[m].1, w) >= min_dist,
                decreases placed.len() - j,
            {
                let p = placed[j];
                if distance(s.0, s.1, p.0, p.1, w) < min_dist {
                    ok = false;
                }
                j = j + 1;
            }
            if ok {
                placed.push(s);
            }
        }
        k = k + 1;
    }
    if placed.len() < count as usize {
        let ghost spaced = placed@;
        let mut k: usize = 0;
        while k < cands.len()
            invariant
                c == cands@,
                0 <= k <= c.len(),
                placed@ == place_fill(c, count, spaced, k as int),
                placed@.len() <= count,
            decreases cands.len() - k,
        {
            if placed.len() < count as usize {
                let s = cands[k];
                let mut seen = false;
                let mut j: usize = 0;
                while j < placed.len()
                    invariant
                        0 <= j <= placed@.len(),
                        seen == exists|m: int| 0 <= m < j && placed@[m] == s,
                    decreases placed.len() - j,
                {
                    let p = placed[j];
                    if p.0 == s.0 && p.1 == s.1 {
                        seen = true;
                    }
                    j = j + 1;
                }
                proof {
                    if seen {
                        let m = choose|m: int| 0 <= m < placed@.len() && placed@[m] == s;
                        assert(placed@.contains(s));
                    } else {
                        if placed@.contains(s) {
                            let m = choose|m: int| 0 <= m < placed@.len() && placed@[m] == s;
                            assert(placed@[m] == s);
                        }
                    }
                }
                if !seen {
                    placed.push(s);
                }
            }
            k = k + 1;
        }
    }
    let mut cmds: Vec<Command> = Vec::new();
    let mut k: usize = 0;
    while k < placed.len()
        invariant
            0 <= k <= placed@.len(),
            placed@.len() <= count,
            cmds@ == settle_cmds(placed@, k as int),
        decreases placed.len() - k,
    {
        let (x, y) = placed[k];
        cmds.push(Command::Settle { x, y, nation: k as u16, population: 300 });
        cmds.push(Command::Build { x, y, nation: k as u16, building: Building::City });
        k = k + 1;
    }
    let n = placed.len() as u16;
    let ghost settled = cmds@;
    let mut id: u16 = 0;
    while id < n
        invariant
            0 <= id <= n,
            n == placed@.len(),
            cmds@ == settled + endow_cmds(player, id as int),
        decreases n - id,
    {
        if id != player {
            cmds.push(Command::Endow { nation: id, money: 3000, materials: 800, influence: 60, housing: 250, food: 600 });
            proof {
                assert(cmds@ =~= settled + endow_cmds(player, id + 1));
            }
        } else {
            proof {
                assert(endow_cmds(player, id + 1) == endow_cmds(player, id as int));
            }
        }
        id = id + 1;
    }
    proof {
        assert(crate::connect::labels_regions(land_view(realm.plots@), realm.width as int, realm.height as int, label));
    }
    cmds
}

} // verus!
