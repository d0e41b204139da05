//! Reachability on the grid: integral entry costs and a bounded shortest-path
//! search. X wraps around (the map is a cylinder), Y does not (the poles).
//!
//! A tile is entered at an integral cost; `u32::MAX` marks an impassable tile.
//! The continuous terrain layers are quantised by the application into the
//! integral ratings these functions take (ruggedness, rain, devastation points).

use vstd::prelude::*;

use crate::tile::TileKind;

verus! {

/// Entry cost of an impassable tile.
pub const IMPASSABLE: u32 = 0xffff_ffff;

/// Entry cost of a tile for settlers: land costs 10 plus its ruggedness points;
/// the ocean is impassable without the sea branch, and cheaper as it grows.
pub open spec fn tile_cost_spec(kind: TileKind, rugged_pts: u32, naval_tier: u8) -> int {
    match kind {
        TileKind::Land => 10 + rugged_pts,
        TileKind::Ocean => if naval_tier == 0 {
            IMPASSABLE as int
        } else {
            30 + 20 * (if naval_tier >= 3 { 0 } else { 3 - naval_tier })
        },
    }
}

/// Entry cost of a tile, given its ruggedness points (ruggedness × 40) and the
/// tier of the sea branch.
pub fn tile_cost(kind: TileKind, rugged_pts: u32, naval_tier: u8) -> (c: u32)
    requires
        rugged_pts <= IMPASSABLE - 11,
    ensures
        c == tile_cost_spec(kind, rugged_pts, naval_tier),
{
    match kind {
        TileKind::Land => 10 + rugged_pts,
        TileKind::Ocean => {
            if naval_tier == 0 {
                IMPASSABLE
            } else {
                let t = naval_tier as u32;
                30 + 20 * (if t >= 3 { 0 } else { 3 - t })
            }
        },
    }
}

/// Range budget of a swarm, by tier of the growth branch.
pub fn range_budget(essor_tier: u8) -> (b: u32)
    ensures
        b == 60 + 40 * essor_tier,
{
    60 + 40 * essor_tier as u32
}

/// Entry cost of a tile for a land unit: the terrain cost plus the weather's
/// toll (rain points, devastation points, 8 more on frozen ground).
pub open spec fn unit_move_cost_spec(base: u32, rain_pts: u32, ravage_pts: u32, freezing: bool) -> int {
    if base == IMPASSABLE {
        IMPASSABLE as int
    } else {
        base + rain_pts + ravage_pts + if freezing { 8int } else { 0 }
    }
}

/// Entry cost of a tile for a land unit (see [`unit_move_cost_spec`]).
pub fn unit_move_cost(base: u32, rain_pts: u32, ravage_pts: u32, freezing: bool) -> (c: u32)
    requires
        base == IMPASSABLE || base + rain_pts + ravage_pts + 8 < IMPASSABLE,
    ensures
        c == unit_move_cost_spec(base, rain_pts, ravage_pts, freezing),
{
    if base == IMPASSABLE {
        return IMPASSABLE;
    }
    let mut penalty = rain_pts + ravage_pts;
    if freezing {
        penalty = penalty + 8;
    }
    base + penalty
}

/// Entry cost of a tile for a galley: water costs 10 plus the rain points, land
/// is impassable.
pub fn naval_move_cost(kind: TileKind, rain_pts: u32) -> (c: u32)
    requires
        rain_pts < IMPASSABLE - 10,
    ensures
        c == match kind {
            TileKind::Ocean => 10 + rain_pts,
            TileKind::Land => IMPASSABLE as int,
        },
{
    match kind {
        TileKind::Ocean => 10 + rain_pts,
        TileKind::Land => IMPASSABLE,
    }
}

/// The `k`-th neighbour of tile `u` on a `w` × `h` map (left, right, up, down):
/// X wraps around, Y stops at the poles.
pub open spec fn nb_spec(u: int, k: int, w: int, h: int) -> Option<int> {
    let x = u % w;
    let y = u / w;
    if k == 0 {
        Some(y * w + if x == 0 { w - 1 } else { x - 1 })
    } else if k == 1 {
        Some(y * w + if x + 1 == w { 0 } else { x + 1 })
    } else if k == 2 {
        if y > 0 { Some((y - 1) * w + x) } else { None }
    } else if k == 3 {
        if y + 1 < h { Some((y + 1) * w + x) } else { None }
    } else {
        None
    }
}

/// The tile an optional index names, as a mathematical integer.
pub open spec fn opt_int(o: Option<usize>) -> Option<int> {
    match o {
        Some(v) => Some(v as int),
        None => None,
    }
}

/// Coordinates of a tile of the grid.
pub proof fn lemma_grid(u: int, w: int, h: int)
    requires
        w > 0,
        h > 0,
        0 <= u < w * h,
    ensures
        u == (u / w) * w + u % w,
        0 <= u % w < w,
        0 <= u / w < h,
{
    vstd::arithmetic::div_mod::lemma_fundamental_div_mod(u, w);
    assert(0 <= u % w < w) by (nonlinear_arith)
        requires w > 0;
    assert(0 <= u / w < h) by (nonlinear_arith)
        requires w > 0, 0 <= u < w * h, u == w * (u / w) + u % w, 0 <= u % w < w;
    assert((u / w) * w == w * (u / w)) by (nonlinear_arith);
}

/// A tile of row `y` < `h` and column `x` < `w` lies on the map.
pub proof fn lemma_cell(x: int, y: int, w: int, h: int)
    requires
        0 <= x < w,
        0 <= y < h,
    ensures
        0 <= y * w + x < w * h,
{
    assert(0 <= y * w + x < w * h) by (nonlinear_arith)
        requires 0 <= x < w, 0 <= y < h;
}

/// Neighbours of a tile lie on the map.
pub proof fn lemma_nb_in_map(u: int, k: int, w: int, h: int)
    requires
        w > 0,
        h > 0,
        0 <= u < w * h,
    ensures
        nb_spec(u, k, w, h) matches Some(v) ==> 0 <= v < w * h,
        nb_spec(u, k, w, h) is Some <==> (0 <= k < 2 || (k == 2 && u / w > 0) || (k == 3 && u / w + 1 < h)),
{
    lemma_grid(u, w, h);
    let x = u % w;
    let y = u / w;
    if k == 0 {
        lemma_cell(if x == 0 { w - 1 } else { x - 1 }, y, w, h);
    } else if k == 1 {
        lemma_cell(if x + 1 == w { 0 } else { x + 1 }, y, w, h);
    } else if k == 2 && y > 0 {
        lemma_cell(x, y - 1, w, h);
    } else if k == 3 && y + 1 < h {
        lemma_cell(x, y + 1, w, h);
    }
}

/// The four neighbours of tile `idx` (left, right, up, down; `None` past a pole).
pub fn neighbors(idx: usize, width: u32, height: u32) -> (out: [Option<usize>; 4])
    requires
        width > 0,
        height > 0,
        idx < width as int * height as int,
        width as int * height as int <= usize::MAX,
    ensures
        forall|k: int| 0 <= k < 4 ==> opt_int(#[trigger] out@[k]) == nb_spec(idx as int, k, width as int, height as int),
{
    let w = width as usize;
    let h = height as usize;
    proof {
        lemma_grid(idx as int, w as int, h as int);
    }
    let x = idx % w;
    let y = idx / w;
    let lx = if x == 0 { w - 1 } else { x - 1 };
    let rx = if x + 1 == w { 0 } else { x + 1 };
    proof {
        lemma_cell(lx as int, y as int, w as int, h as int);
        lemma_cell(rx as int, y as int, w as int, h as int);
    }
    let left = Some(y * w + lx);
    let right = Some(y * w + rx);
    let up = if y > 0 {
        proof {
            lemma_cell(x as int, y - 1, w as int, h as int);
        }
        Some((y - 1) * w + x)
    } else {
        None
    };
    let down = if y + 1 < h {
        proof {
            lemma_cell(x as int, y + 1, w as int, h as int);
        }
        Some((y + 1) * w + x)
    } else {
        None
    };
    let out = [left, right, up, down];
    assert(opt_int(out@[0]) == nb_spec(idx as int, 0, width as int, height as int));
    assert(opt_int(out@[1]) == nb_spec(idx as int, 1, width as int, height as int));
    assert(opt_int(out@[2]) == nb_spec(idx as int, 2, width as int, height as int));
    assert(opt_int(out@[3]) == nb_spec(idx as int, 3, width as int, height as int));
    out
}

/// Manhattan distance (X wraps) between two tiles of a map of width `w`.
pub open spec fn idx_dist(a: int, b: int, w: int) -> int {
    let dx = if a % w >= b % w { a % w - b % w } else { b % w - a % w };
    let dxw = if dx <= w - dx { dx } else { w - dx };
    let dy = if a / w >= b / w { a / w - b / w } else { b / w - a / w };
    dxw + dy
}

/// Manhattan distance (X wraps) between two tile indices.
pub fn manhattan_idx(a: usize, b: usize, width: u32) -> (d: u32)
    requires
        width > 0,
        (a as int) / (width as int) + (b as int) / (width as int) + width <= u32::MAX,
    ensures
        d == idx_dist(a as int, b as int, width as int),
{
    let w = width as usize;
    let ax = a % w;
    let ay = a / w;
    let bx = b % w;
    let by = b / w;
    let dx = if ax >= bx { ax - bx } else { bx - ax };
    let dxw = if dx <= w - dx { dx } else { w - dx };
    let dy = if ay >= by { ay - by } else { by - ay };
    (dxw + dy) as u32
}

/// The tile reached from `from` by following the directions `dirs` (each one
/// of the four neighbours), `None` once the walk leaves the map.
pub open spec fn walk_end(from: int, dirs: Seq<int>, w: int, h: int) -> Option<int>
    decreases dirs.len(),
{
    if dirs.len() == 0 {
        Some(from)
    } else {
        match walk_end(from, dirs.drop_last(), w, h) {
            Some(u) => nb_spec(u, dirs.last(), w, h),
            None => None,
        }
    }
}

/// The walk stays on the map and only enters passable tiles.
pub open spec fn walk_ok(costs: Seq<u32>, from: int, dirs: Seq<int>, w: int, h: int) -> bool
    decreases dirs.len(),
{
    if dirs.len() == 0 {
        true
    } else {
        &&& walk_ok(costs, from, dirs.drop_last(), w, h)
        &&& match walk_end(from, dirs, w, h) {
            Some(v) => costs[v] != IMPASSABLE,
            None => false,
        }
    }
}

/// Total cost of a walk: the entry costs of the tiles it steps on.
pub open spec fn walk_cost(costs: Seq<u32>, from: int, dirs: Seq<int>, w: int, h: int) -> int
    decreases dirs.len(),
{
    if dirs.len() == 0 {
        0
    } else {
        walk_cost(costs, from, dirs.drop_last(), w, h) + match walk_end(from, dirs, w, h) {
            Some(v) => costs[v] as int,
            None => 0,
        }
    }
}

/// `dirs` is a passable walk from `from` to `to`.
pub open spec fn reaches(costs: Seq<u32>, w: int, h: int, from: int, to: int, dirs: Seq<int>) -> bool {
    walk_ok(costs, from, dirs, w, h) && walk_end(from, dirs, w, h) == Some(to)
}

/// Some passable walk from `from` to `to` costs exactly `c`.
pub open spec fn walk_of_cost(costs: Seq<u32>, w: int, h: int, from: int, to: int, c: int) -> bool {
    exists|dirs: Seq<int>| #[trigger] reaches(costs, w, h, from, to, dirs) && walk_cost(costs, from, dirs, w, h) == c
}

/// No passable walk from `from` to `to` costs less than `c`.
pub open spec fn none_cheaper(costs: Seq<u32>, w: int, h: int, from: int, to: int, c: int) -> bool {
    forall|dirs: Seq<int>| #[trigger] reaches(costs, w, h, from, to, dirs) ==> walk_cost(costs, from, dirs, w, h) >= c
}

/// Known distances: each one is the cost of some walk and within the budget.
spec fn sound(d: Seq<Option<u32>>, costs: Seq<u32>, w: int, h: int, from: int, budget: u32) -> bool {
    forall|v: int| 0 <= v < d.len() && (#[trigger] d[v]) is Some ==> {
        &&& d[v]->0 <= budget
        &&& walk_of_cost(costs, w, h, from, v, d[v]->0 as int)
    }
}

/// No shortcut through the `k`-th neighbour of `u` is left within the budget.
spec fn relaxed(d: Seq<Option<u32>>, costs: Seq<u32>, w: int, h: int, budget: u32, u: int, k: int) -> bool {
    d[u] matches Some(du) ==> match nb_spec(u, k, w, h) {
        Some(v) => costs[v] == IMPASSABLE || du + costs[v] > budget
            || (d[v] matches Some(dv) && dv <= du + costs[v]),
        None => true,
    }
}

/// Potential of the distance table: unknown counts above the budget.
spec fn potential(d: Seq<Option<u32>>, budget: u32) -> nat
    decreases d.len(),
{
    if d.len() == 0 {
        0
    } else {
        potential(d.drop_last(), budget) + match d.last() {
            Some(x) => x as nat,
            None => budget as nat + 1,
        }
    }
}

spec fn weight(o: Option<u32>, budget: u32) -> nat {
    match o {
        Some(x) => x as nat,
        None => budget as nat + 1,
    }
}

proof fn lemma_potential_update(d: Seq<Option<u32>>, budget: u32, i: int, x: Option<u32>)
    requires
        0 <= i < d.len(),
    ensures
        potential(d.update(i, x), budget) + weight(d[i], budget) == potential(d, budget) + weight(x, budget),
    decreases d.len(),
{
    let e = d.update(i, x);
    if i == d.len() - 1 {
        assert(e.drop_last() =~= d.drop_last());
    } else {
        lemma_potential_update(d.drop_last(), budget, i, x);
        assert(e.drop_last() =~= d.drop_last().update(i, x));
    }
}

/// Following one more step extends the walk's end, validity and cost.
proof fn lemma_walk_push(costs: Seq<u32>, from: int, dirs: Seq<int>, k: int, w: int, h: int)
    ensures
        dirs.push(k).drop_last() == dirs,
        walk_end(from, dirs.push(k), w, h) == match walk_end(from, dirs, w, h) {
            Some(u) => nb_spec(u, k, w, h),
            None => None,
        },
{
    assert(dirs.push(k).drop_last() =~= dirs);
}

/// Every stop of a walk lies on the map.
proof fn lemma_walk_in_map(from: int, dirs: Seq<int>, w: int, h: int)
    requires
        w > 0,
        h > 0,
        0 <= from < w * h,
    ensures
        walk_end(from, dirs, w, h) matches Some(v) ==> 0 <= v < w * h,
    decreases dirs.len(),
{
    if dirs.len() > 0 {
        lemma_walk_in_map(from, dirs.drop_last(), w, h);
        if let Some(u) = walk_end(from, dirs.drop_last(), w, h) {
            lemma_nb_in_map(u, dirs.last(), w, h);
        }
    }
}

/// Once no shortcut is left, the table holds at most the cost of every walk
/// within the budget.
proof fn lemma_relaxed_optimal(
    d: Seq<Option<u32>>,
    costs: Seq<u32>,
    w: int,
    h: int,
    budget: u32,
    from: int,
    dirs: Seq<int>,
)
    requires
        w > 0,
        h > 0,
        0 <= from < w * h,
        d.len() == w * h,
        costs.len() == w * h,
        d[from] == Some(0u32),
        forall|u: int, k: int| 0 <= u < w * h && 0 <= k < 4 ==> #[trigger] relaxed(d, costs, w, h, budget, u, k),
        walk_ok(costs, from, dirs, w, h),
        walk_cost(costs, from, dirs, w, h) <= budget,
    ensures
        walk_end(from, dirs, w, h) matches Some(v) && d[v] matches Some(dv) && dv <= walk_cost(costs, from, dirs, w, h),
    decreases dirs.len(),
{
    if dirs.len() > 0 {
        let prev = dirs.drop_last();
        lemma_walk_in_map(from, prev, w, h);
        lemma_walk_in_map(from, dirs, w, h);
        lemma_relaxed_optimal(d, costs, w, h, budget, from, prev);
        let u = walk_end(from, prev, w, h)->0;
        let k = dirs.last();
        lemma_nb_in_map(u, k, w, h);
        assert(relaxed(d, costs, w, h, budget, u, k));
    }
}

/// Lowest cost of a passable walk from `from` to `to`, if some walk costs at
/// most `budget`. `costs[i]` is the entry cost of tile `i` (`IMPASSABLE` for
/// an impassable one); the walk pays for every tile it enters.
pub fn reach_cost(costs: &Vec<u32>, width: u32, height: u32, from: usize, to: usize, budget: u32) -> (r: Option<u32>)
    requires
        width > 0,
        height > 0,
        costs@.len() == width as int * height as int,
        from < costs@.len(),
        to < costs@.len(),
    ensures
        r matches Some(c) ==> {
            &&& c <= budget
            &&& walk_of_cost(costs@, width as int, height as int, from as int, to as int, c as int)
            &&& none_cheaper(costs@, width as int, height as int, from as int, to as int, c as int)
        },
        r is None ==> none_cheaper(costs@, width as int, height as int, from as int, to as int, budget + 1),
{
    let ghost w = width as int;
    let ghost h = height as int;
    let n = costs.len();
    if from == to {
        proof {
            let e = Seq::<int>::empty();
            assert(reaches(costs@, w, h, from as int, to as int, e));
            assert forall|dirs: Seq<int>| #[trigger] reaches(costs@, w, h, from as int, to as int, dirs)
                implies walk_cost(costs@, from as int, dirs, w, h) >= 0 by {
                lemma_cost_nonneg(costs@, from as int, dirs, w, h);
            }
        }
        return Some(0);
    }
    let mut dist: Vec<Option<u32>> = Vec::new();
    let mut i: usize = 0;
    while i < n
        invariant
            0 <= i <= n,
            n == costs@.len(),
            dist@.len() == i,
            forall|j: int| 0 <= j < i ==> (#[trigger] dist@[j]) is None,
        decreases n - i,
    {
        dist.push(None);
        i = i + 1;
    }
    dist.set(from, Some(0));
    proof {
        let e = Seq::<int>::empty();
        assert(reaches(costs@, w, h, from as int, from as int, e));
        assert(walk_cost(costs@, from as int, e, w, h) == 0);
    }
    loop
        invariant
            n == costs@.len(),
            n == w * h,
            w == width,
            h == height,
            from < n,
            to < n,
            dist@.len() == n,
            dist@[from as int] == Some(0u32),
            sound(dist@, costs@, w, h, from as int, budget),
        ensures
            dist@.len() == n,
            sound(dist@, costs@, w, h, from as int, budget),
            forall|dirs: Seq<int>| #[trigger] reaches(costs@, w, h, from as int, to as int, dirs)
                && walk_cost(costs@, from as int, dirs, w, h) <= budget ==>
                (dist@[to as int] matches Some(dv) && dv <= walk_cost(costs@, from as int, dirs, w, h)),
        decreases potential(dist@, budget),
    {
        let ghost start = dist@;
        let mut changed = false;
        let mut u: usize = 0;
        while u < n
            invariant
                n == costs@.len(),
                n == w * h,
                w == width,
                h == height,
                from < n,
                0 <= u <= n,
                dist@.len() == n,
                start.len() == n,
                dist@[from as int] == Some(0u32),
                sound(dist@, costs@, w, h, from as int, budget),
                !changed ==> dist@ == start,
                !changed ==> forall|u2: int, k: int| 0 <= u2 < u && 0 <= k < 4
                    ==> #[trigger] relaxed(start, costs@, w, h, budget, u2, k),
                potential(dist@, budget) + (if changed { 1nat } else { 0nat }) <= potential(start, budget),
            decreases n - u,
        {
            if let Some(du) = dist[u] {
                let nbs = neighbors(u, width, height);
                let mut k: usize = 0;
                while k < 4
                    invariant
                        n == costs@.len(),
                        n == w * h,
                        w == width,
                        h == height,
                        from < n,
                        u < n,
                        0 <= k <= 4,
                        dist@.len() == n,
                        start.len() == n,
                        dist@[from as int] == Some(0u32),
                        dist@[u as int] == Some(du),
                        forall|k2: int| 0 <= k2 < 4 ==> opt_int(#[trigger] nbs@[k2]) == nb_spec(u as int, k2, w, h),
                        sound(dist@, costs@, w, h, from as int, budget),
                        !changed ==> dist@ == start,
                        !changed ==> forall|u2: int, k2: int| 0 <= u2 < u && 0 <= k2 < 4
                            ==> #[trigger] relaxed(start, costs@, w, h, budget, u2, k2),
                        !changed ==> forall|k2: int| 0 <= k2 < k ==> #[trigger] relaxed(start, costs@, w, h, budget, u as int, k2),
                        potential(dist@, budget) + (if changed { 1nat } else { 0nat }) <= potential(start, budget),
                    decreases 4 - k,
                {
                    proof {
                        lemma_nb_in_map(u as int, k as int, w, h);
                    }
                    if let Some(v) = nbs[k] {
                        let c = costs[v];
                        if c != IMPASSABLE {
                            let nd: u64 = du as u64 + c as u64;
                            if nd <= budget as u64 {
                                let better = match dist[v] {
                                    None => true,
                                    Some(dv) => (nd as u32) < dv,
                                };
                                if better {
                                    proof {
                                        let wu = choose|dirs: Seq<int>| #[trigger] reaches(costs@, w, h, from as int, u as int, dirs)
                                            && walk_cost(costs@, from as int, dirs, w, h) == du as int;
                                        lemma_walk_push(costs@, from as int, wu, k as int, w, h);
                                        let wv = wu.push(k as int);
                                        assert(reaches(costs@, w, h, from as int, v as int, wv));
                                        lemma_potential_update(dist@, budget, v as int, Some(nd as u32));
                                    }
                                    dist.set(v, Some(nd as u32));
                                    changed = true;
                                }
                            }
                        }
                    }
                    k = k + 1;
                }
            }
            u = u + 1;
        }
        if !changed {
            proof {
                assert forall|dirs: Seq<int>| #[trigger] reaches(costs@, w, h, from as int, to as int, dirs)
                    && walk_cost(costs@, from as int, dirs, w, h) <= budget implies
                    (dist@[to as int] matches Some(dv) && dv <= walk_cost(costs@, from as int, dirs, w, h)) by {
                    lemma_relaxed_optimal(dist@, costs@, w, h, budget, from as int, dirs);
                }
            }
            break;
        }
    }
    dist[to]
}

/// A walk never costs less than nothing.
pub proof fn lemma_cost_nonneg(costs: Seq<u32>, from: int, dirs: Seq<int>, w: int, h: int)
    ensures
        walk_cost(costs, from, dirs, w, h) >= 0,
    decreases dirs.len(),
{
    if dirs.len() > 0 {
        lemma_cost_nonneg(costs, from, dirs.drop_last(), w, h);
    }
}


/// The integral movement ratings of a tile, quantised from its continuous layers.
#[derive(Debug, Clone, Copy, PartialEq, Eq, Structural)]
pub struct Ground {
    pub kind: TileKind,
    /// Ruggedness × 40.
    pub rugged_pts: u32,
    /// Current rain × 15 (land march).
    pub rain_pts: u32,
    /// Current rain × 12 (sailing).
    pub sea_rain_pts: u32,
    /// Devastation × 25.
    pub ravage_pts: u32,
    /// Frozen ground (temperature below zero).
    pub freezing: bool,
}

/// Bound on a quantised rating (the continuous layers are fractions).
pub const MAX_PTS: u32 = 1_000_000;

impl Ground {
    /// Ratings stay far from overflow.
    pub open spec fn wf(&self) -> bool {
        &&& self.rugged_pts <= MAX_PTS
        &&& self.rain_pts <= MAX_PTS
        &&& self.sea_rain_pts <= MAX_PTS
        &&& self.ravage_pts <= MAX_PTS
    }

    /// Entry cost for a land unit of a nation whose sea branch is at `naval_tier`.
    pub open spec fn land_cost_spec(&self, naval_tier: u8) -> int {
        let base = tile_cost_spec(self.kind, self.rugged_pts, naval_tier);
        unit_move_cost_spec(base as u32, self.rain_pts, self.ravage_pts, self.freezing)
    }

    /// Entry cost for a galley.
    pub open spec fn sea_cost_spec(&self) -> int {
        match self.kind {
            TileKind::Ocean => 10 + self.sea_rain_pts,
            TileKind::Land => IMPASSABLE as int,
        }
    }

    /// Entry cost for a unit: a galley sails, a land unit marches.
    pub open spec fn cost_spec(&self, naval: bool, naval_tier: u8) -> int {
        if naval { self.sea_cost_spec() } else { self.land_cost_spec(naval_tier) }
    }

    /// Entry cost for a unit (see [`Ground::cost_spec`]).
    pub fn cost(&self, naval: bool, naval_tier: u8) -> (c: u32)
        requires
            self.wf(),
        ensures
            c == self.cost_spec(naval, naval_tier),
    {
        if naval {
            naval_move_cost(self.kind, self.sea_rain_pts)
        } else {
            let base = tile_cost(self.kind, self.rugged_pts, naval_tier);
            unit_move_cost(base, self.rain_pts, self.ravage_pts, self.freezing)
        }
    }
}

/// Entry costs of every tile for a unit.
pub open spec fn costs_for(ground: Seq<Ground>, naval: bool, naval_tier: u8) -> Seq<u32> {
    Seq::new(ground.len(), |i: int| ground[i].cost_spec(naval, naval_tier) as u32)
}

/// Entry costs of every tile for a unit (galley or land unit of a nation whose
/// sea branch is at `naval_tier`).
pub fn unit_costs(ground: &Vec<Ground>, naval: bool, naval_tier: u8) -> (costs: Vec<u32>)
    requires
        forall|i: int| 0 <= i < ground@.len() ==> (#[trigger] ground@[i]).wf(),
    ensures
        costs@ == costs_for(ground@, naval, naval_tier),
{
    let mut costs: Vec<u32> = Vec::new();
    let mut i: usize = 0;
    while i < ground.len()
        invariant
            0 <= i <= ground@.len(),
            forall|j: int| 0 <= j < ground@.len() ==> (#[trigger] ground@[j]).wf(),
            costs@.len() == i,
            forall|j: int| 0 <= j < i ==> #[trigger] costs@[j] == ground@[j].cost_spec(naval, naval_tier),
        decreases ground.len() - i,
    {
        let c = ground[i].cost(naval, naval_tier);
        costs.push(c);
        i = i + 1;
    }
    assert(costs@ =~= costs_for(ground@, naval, naval_tier));
    costs
}

/// The lowest cost of a passable walk from `from` to `to`, when one costs at
/// most `budget`.
pub open spec fn best_cost(costs: Seq<u32>, w: int, h: int, from: int, to: int, budget: u32) -> Option<u32> {
    if exists|c: u32| c <= budget && walk_of_cost(costs, w, h, from, to, c as int)
        && none_cheaper(costs, w, h, from, to, c as int) {
        Some(choose|c: u32| c <= budget && walk_of_cost(costs, w, h, from, to, c as int)
            && none_cheaper(costs, w, h, from, to, c as int))
    } else {
        None
    }
}

/// The answer of [`reach_cost`] is [`best_cost`].
pub proof fn lemma_reach_is_best(costs: Seq<u32>, w: int, h: int, from: int, to: int, budget: u32, r: Option<u32>)
    requires
        r matches Some(c) ==> {
            &&& c <= budget
            &&& walk_of_cost(costs, w, h, from, to, c as int)
            &&& none_cheaper(costs, w, h, from, to, c as int)
        },
        r is None ==> none_cheaper(costs, w, h, from, to, budget + 1),
    ensures
        r == best_cost(costs, w, h, from, to, budget),
{
    match r {
        Some(c) => {
            let c2 = choose|c: u32| c <= budget && walk_of_cost(costs, w, h, from, to, c as int)
                && none_cheaper(costs, w, h, from, to, c as int);
            assert(c2 <= budget && walk_of_cost(costs, w, h, from, to, c2 as int)
                && none_cheaper(costs, w, h, from, to, c2 as int));
            let d1 = choose|dirs: Seq<int>| #[trigger] reaches(costs, w, h, from, to, dirs)
                && walk_cost(costs, from, dirs, w, h) == c as int;
            let d2 = choose|dirs: Seq<int>| #[trigger] reaches(costs, w, h, from, to, dirs)
                && walk_cost(costs, from, dirs, w, h) == c2 as int;
            assert(reaches(costs, w, h, from, to, d1));
            assert(reaches(costs, w, h, from, to, d2));
        },
        None => {
            if exists|c: u32| c <= budget && walk_of_cost(costs, w, h, from, to, c as int)
                && none_cheaper(costs, w, h, from, to, c as int) {
                let c = choose|c: u32| c <= budget && walk_of_cost(costs, w, h, from, to, c as int)
                    && none_cheaper(costs, w, h, from, to, c as int);
                let d1 = choose|dirs: Seq<int>| #[trigger] reaches(costs, w, h, from, to, dirs)
                    && walk_cost(costs, from, dirs, w, h) == c as int;
                assert(reaches(costs, w, h, from, to, d1));
            }
        },
    }
}

/// Entry costs of every tile for settlers of a nation whose sea branch is at
/// `naval_tier` (the terrain alone; the weather does not stop them).
pub open spec fn settler_costs_for(ground: Seq<Ground>, naval_tier: u8) -> Seq<u32> {
    Seq::new(ground.len(), |i: int| tile_cost_spec(ground[i].kind, ground[i].rugged_pts, naval_tier) as u32)
}

/// Entry costs of every tile for settlers (see [`settler_costs_for`]).
pub fn settler_costs(ground: &Vec<Ground>, naval_tier: u8) -> (costs: Vec<u32>)
    requires
        forall|i: int| 0 <= i < ground@.len() ==> (#[trigger] ground@[i]).wf(),
    ensures
        costs@ == settler_costs_for(ground@, naval_tier),
{
    let mut costs: Vec<u32> = Vec::new();
    let mut i: usize = 0;
    while i < ground.len()
        invariant
            0 <= i <= ground@.len(),
            forall|j: int| 0 <= j < ground@.len() ==> (#[trigger] ground@[j]).wf(),
            costs@.len() == i,
            forall|j: int| 0 <= j < i ==> #[trigger] costs@[j]
                == tile_cost_spec(ground@[j].kind, ground@[j].rugged_pts, naval_tier),
        decreases ground.len() - i,
    {
        let c = tile_cost(ground[i].kind, ground[i].rugged_pts, naval_tier);
        costs.push(c);
        i = i + 1;
    }
    assert(costs@ =~= settler_costs_for(ground@, naval_tier));
    costs
}

} // verus!
