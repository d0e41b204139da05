//! Marching orders: a bounded shortest-path exploration from a unit (the
//! cheapest tile first, ties broken by index), the path to a goal, and the
//! farthest free tile of that path the unit can reach this month.
//!
//! Every destination these functions return is a move the rules grant (see
//! [`crate::realm::Realm::move_unit`]): a tile reached by a passable walk
//! within the unit's points, or, at full points, the first step of the path.

use vstd::prelude::*;

use crate::proto::Command;
use crate::realm::unit_pos;
use crate::path::{lemma_nb_in_map, nb_spec, neighbors, opt_int, walk_cost, walk_of_cost, reaches,
    IMPASSABLE};

verus! {

/// `b` is one passable step from `a` (a neighbour other than `a` itself).
pub open spec fn step(costs: Seq<u32>, w: int, h: int, a: int, b: int) -> bool {
    &&& a != b
    &&& costs[b] != IMPASSABLE
    &&& exists|k: int| 0 <= k < 4 && #[trigger] nb_spec(a, k, w, h) == Some(b)
}

/// What an exploration knows: every reached tile (distance below `u32::MAX`)
/// is reached by a walk of that cost, and remembers the passable step it came
/// from, out of a reached tile.
pub open spec fn explored_ok(dist: Seq<u32>, prev: Seq<usize>, costs: Seq<u32>, w: int, h: int, start: int) -> bool {
    &&& dist.len() == costs.len()
    &&& prev.len() == costs.len()
    &&& 0 <= start < costs.len()
    &&& dist[start] == 0
    &&& forall|v: int| 0 <= v < dist.len() && #[trigger] dist[v] < u32::MAX ==> walk_of_cost(costs, w, h, start, v, dist[v] as int)
    &&& forall|v: int| 0 <= v < dist.len() && v != start && #[trigger] dist[v] < u32::MAX ==> {
        &&& prev[v] < dist.len()
        &&& dist[prev[v] as int] < u32::MAX
        &&& step(costs, w, h, prev[v] as int, v)
    }
}

/// The tile a target names.
pub open spec fn target_tile(t: Option<(usize, u32, u32)>) -> int {
    match t {
        Some(x) => x.0 as int,
        None => 0,
    }
}

/// Result of an exploration: distances (`u32::MAX` unreached), the step each
/// reached tile came from, and the goal found.
pub struct Explored {
    pub dist: Vec<u32>,
    pub prev: Vec<usize>,
    pub goal: Option<usize>,
}

/// Lexicographic order of keys (distance to the goal, cost, index).
pub open spec fn key_lt(a: (u32, u32, usize), b: (u32, u32, usize)) -> bool {
    a.0 < b.0 || (a.0 == b.0 && (a.1 < b.1 || (a.1 == b.1 && a.2 < b.2)))
}

fn key_less(a: (u32, u32, usize), b: (u32, u32, usize)) -> (r: bool)
    ensures
        r == key_lt(a, b),
{
    a.0 < b.0 || (a.0 == b.0 && (a.1 < b.1 || (a.1 == b.1 && a.2 < b.2)))
}

/// One more passable step extends a walk by its entry cost.
proof fn lemma_extend(costs: Seq<u32>, w: int, h: int, start: int, u: int, v: int, k: int, c: int)
    requires
        walk_of_cost(costs, w, h, start, u, c),
        nb_spec(u, k, w, h) == Some(v),
        costs[v] != IMPASSABLE,
    ensures
        walk_of_cost(costs, w, h, start, v, c + costs[v]),
{
    let d = choose|dirs: Seq<int>| #[trigger] reaches(costs, w, h, start, u, dirs) && walk_cost(costs, start, dirs, w, h) == c;
    let d2 = d.push(k);
    assert(d2.drop_last() =~= d);
    assert(reaches(costs, w, h, start, v, d2));
}

/// Where an exploration stands: the distances found, the step each tile came
/// from, which tiles wait to be expanded, the best goal so far and its key,
/// how many tiles were expanded, and whether it stopped (on the target, on an
/// enemy tile, or for good).
pub struct Sweep {
    pub dist: Seq<u32>,
    pub prev: Seq<usize>,
    pub queued: Seq<bool>,
    pub best: usize,
    pub key: (u32, u32, usize),
    pub count: nat,
    pub reached: bool,
    pub found: Option<usize>,
    pub done: bool,
}

/// Tile `a` is expanded before tile `b`: cheaper, or as cheap with a smaller index.
pub open spec fn sooner(dist: Seq<u32>, a: int, b: int) -> bool {
    dist[a] < dist[b] || (dist[a] == dist[b] && a < b)
}

/// `m` is the waiting tile expanded next.
pub open spec fn is_next(dist: Seq<u32>, queued: Seq<bool>, m: int) -> bool {
    &&& 0 <= m < queued.len()
    &&& queued[m]
    &&& forall|v: int| 0 <= v < queued.len() && #[trigger] queued[v] && v != m ==> sooner(dist, m, v)
}

/// Distances, steps and waiting tiles after trying the `k`-th neighbour of
/// `m`: entered for less than its distance, it gets the new distance, comes
/// from `m` and waits.
pub open spec fn relax(t: (Seq<u32>, Seq<usize>, Seq<bool>), costs: Seq<u32>, w: int, h: int, m: int, k: int)
    -> (Seq<u32>, Seq<usize>, Seq<bool>)
{
    match nb_spec(m, k, w, h) {
        Some(v) => {
            let nd = t.0[m].saturating_add(costs[v]);
            if costs[v] != IMPASSABLE && nd < t.0[v] {
                (t.0.update(v, nd), t.1.update(v, m as usize), t.2.update(v, true))
            } else {
                t
            }
        },
        None => t,
    }
}

/// [`relax`] over the first `k` neighbours of `m`, in order.
pub open spec fn relax_upto(t: (Seq<u32>, Seq<usize>, Seq<bool>), costs: Seq<u32>, w: int, h: int, m: int, k: nat)
    -> (Seq<u32>, Seq<usize>, Seq<bool>)
    decreases k,
{
    if k == 0 {
        t
    } else {
        relax(relax_upto(t, costs, w, h, m, (k - 1) as nat), costs, w, h, m, k - 1)
    }
}

/// Expanding `m` (the `count`-th expansion): stop when `cap` expansions were
/// made, else try its four neighbours.
pub open spec fn expand(s: Sweep, costs: Seq<u32>, w: int, h: int, m: int, cap: nat) -> Sweep {
    if s.count >= cap {
        Sweep { done: true, ..s }
    } else {
        let t = relax_upto((s.dist, s.prev, s.queued), costs, w, h, m, 4);
        Sweep { dist: t.0, prev: t.1, queued: t.2, count: s.count + 1, ..s }
    }
}

/// One turn of the exploration: stop when nothing waits; else take the next
/// tile off; stop on the target (or, seeking enemies, on a marked tile other
/// than the start); else, seeking a target, keep the tile as best goal when its
/// key (distance to (tx, ty), cost, index) is smaller; then expand it.
pub open spec fn sweep_step(s: Sweep, costs: Seq<u32>, width: u32, height: u32, start: int,
    target: Option<(usize, u32, u32)>, enemy: Seq<bool>, cap: nat) -> Sweep
{
    if !(exists|v: int| 0 <= v < s.queued.len() && #[trigger] s.queued[v]) {
        Sweep { done: true, ..s }
    } else {
        let m = choose|m: int| is_next(s.dist, s.queued, m);
        let s1 = Sweep { queued: s.queued.update(m, false), ..s };
        match target {
            Some(t) => if m == t.0 {
                Sweep { reached: true, done: true, ..s1 }
            } else {
                let key = (crate::ai::manhattan_spec((m as usize as u32) % width, (m as usize as u32) / width, t.1, t.2, width),
                    s.dist[m], m as usize);
                let s2 = if key_lt(key, s1.key) { Sweep { best: m as usize, key, ..s1 } } else { s1 };
                expand(s2, costs, width as int, height as int, m, cap)
            },
            None => if m != start && enemy[m] {
                Sweep { found: Some(m as usize), done: true, ..s1 }
            } else {
                expand(s1, costs, width as int, height as int, m, cap)
            },
        }
    }
}

/// The exploration run from `s` for at most `fuel` turns.
pub open spec fn sweep(s: Sweep, costs: Seq<u32>, width: u32, height: u32, start: int,
    target: Option<(usize, u32, u32)>, enemy: Seq<bool>, cap: nat, fuel: nat) -> Sweep
    decreases fuel,
{
    if s.done || fuel == 0 {
        s
    } else {
        sweep(sweep_step(s, costs, width, height, start, target, enemy, cap), costs, width, height, start, target,
            enemy, cap, (fuel - 1) as nat)
    }
}

/// The exploration before its first turn: only `start` is known, at cost 0.
pub open spec fn sweep_init(n: int, width: u32, start: int, target: Option<(usize, u32, u32)>) -> Sweep {
    Sweep {
        dist: Seq::new(n as nat, |i: int| if i == start { 0u32 } else { u32::MAX }),
        prev: Seq::new(n as nat, |i: int| 0usize),
        queued: Seq::new(n as nat, |i: int| i == start),
        best: start as usize,
        key: match target {
            Some(t) => (crate::ai::manhattan_spec((start as usize as u32) % width, (start as usize as u32) / width,
                t.1, t.2, width), 0u32, start as usize),
            None => (0u32, 0u32, start as usize),
        },
        count: 0,
        reached: false,
        found: None,
        done: false,
    }
}

/// The whole exploration from `start` (see [`explore`]).
pub open spec fn sweep_of(costs: Seq<u32>, width: u32, height: u32, start: int, target: Option<(usize, u32, u32)>,
    enemy: Seq<bool>, cap: nat) -> Sweep
{
    sweep(sweep_init(costs.len() as int, width, start, target), costs, width, height, start, target, enemy, cap,
        cap + 1)
}

/// The goal an exploration ends on: the target once reached, else the best
/// tile; seeking enemies, the marked tile it stopped on. None when that would
/// be the start.
pub open spec fn goal_of(s: Sweep, start: int, target: Option<(usize, u32, u32)>) -> Option<usize> {
    match target {
        Some(t) => {
            let g = if s.reached { t.0 } else { s.best };
            if g == start { None } else { Some(g) }
        },
        None => s.found,
    }
}

/// An exploration still running, in the given state.
pub open spec fn running(dist: Seq<u32>, prev: Seq<usize>, queued: Seq<bool>, best: usize, key: (u32, u32, usize),
    count: nat) -> Sweep
{
    Sweep { dist, prev, queued, best, key, count, reached: false, found: None, done: false }
}

/// Only one waiting tile is the next one.
proof fn lemma_next_unique(dist: Seq<u32>, queued: Seq<bool>, a: int, b: int)
    requires
        is_next(dist, queued, a),
        is_next(dist, queued, b),
    ensures
        a == b,
{
    if a != b {
        assert(queued[b] && queued[a]);
        assert(sooner(dist, a, b));
        assert(sooner(dist, b, a));
    }
}

/// Explores from `start` over the entry costs `costs` (cheapest tile first,
/// ties by index), exploring at most `cap` + 1 tiles. Seeking a `target`, the
/// goal is the target once reached, else the explored tile nearest to it (by
/// distance to (tx, ty), then cost, then index); seeking enemies, it is the
/// first tile other than `start` that `enemy` marks. No goal when it would be
/// `start`. The result is that of [`sweep_of`] and [`goal_of`].
pub fn explore(
    costs: &Vec<u32>,
    width: u32,
    height: u32,
    start: usize,
    target: Option<(usize, u32, u32)>,
    enemy: &Vec<bool>,
    cap: usize,
) -> (e: Explored)
    requires
        width > 0,
        height > 0,
        costs@.len() == width as int * height as int,
        costs@.len() <= u32::MAX,
        start < costs@.len(),
        target matches Some(t) ==> t.0 < costs@.len(),
        enemy@.len() == costs@.len(),
    ensures
        explored_ok(e.dist@, e.prev@, costs@, width as int, height as int, start as int),
        e.goal matches Some(g) ==> g < costs@.len() && g != start && e.dist@[g as int] < u32::MAX,
        target is None && e.goal is Some ==> enemy@[e.goal->0 as int],
        e.dist@ == sweep_of(costs@, width, height, start as int, target, enemy@, cap as nat).dist,
        e.prev@ == sweep_of(costs@, width, height, start as int, target, enemy@, cap as nat).prev,
        e.goal == goal_of(sweep_of(costs@, width, height, start as int, target, enemy@, cap as nat), start as int, target),
{
    let ghost fin = sweep_of(costs@, width, height, start as int, target, enemy@, cap as nat);
    let n = costs.len();
    let ghost w = width as int;
    let ghost h = height as int;
    let mut dist: Vec<u32> = Vec::new();
    let mut prev: Vec<usize> = Vec::new();
    let mut queued: Vec<bool> = Vec::new();
    let mut i: usize = 0;
    while i < n
        invariant
            n == costs@.len(),
            0 <= i <= n,
            dist@.len() == i,
            prev@.len() == i,
            queued@.len() == i,
            forall|j: int| 0 <= j < i ==> #[trigger] dist@[j] == u32::MAX,
            forall|j: int| 0 <= j < i ==> !#[trigger] queued@[j],
            forall|j: int| 0 <= j < i ==> #[trigger] prev@[j] == 0,
        decreases n - i,
    {
        dist.push(u32::MAX);
        prev.push(0);
        queued.push(false);
        i = i + 1;
    }
    dist.set(start, 0);
    queued.set(start, true);
    let mut frontier: Vec<usize> = vec![start];
    proof {
        let e = Seq::<int>::empty();
        assert(reaches(costs@, w, h, start as int, start as int, e));
        assert(walk_cost(costs@, start as int, e, w, h) == 0);
    }
    let (sx, sy) = (start as u32 % width, start as u32 / width);
    let mut best_goal = start;
    let mut best_key: (u32, u32, usize) = match target {
        Some((_, tx, ty)) => (crate::ai::manhattan(sx, sy, tx, ty, width), 0, start),
        None => (0, 0, start),
    };
    let mut reached = false;
    let mut found: Option<usize> = None;
    let mut explored: usize = 0;
    proof {
        let i0 = sweep_init(n as int, width, start as int, target);
        assert(dist@ =~= i0.dist);
        assert(prev@ =~= i0.prev);
        assert(queued@ =~= i0.queued);
        assert(running(dist@, prev@, queued@, best_goal, best_key, 0) == i0);
    }
    loop
        invariant_except_break
            !reached,
            found is None,
            sweep(running(dist@, prev@, queued@, best_goal, best_key, explored as nat), costs@, width, height,
                start as int, target, enemy@, cap as nat, (cap + 1 - explored) as nat) == fin,
        invariant
            fin == sweep_of(costs@, width, height, start as int, target, enemy@, cap as nat),
            n == costs@.len(),
            n == w * h,
            w == width,
            h == height,
            n <= u32::MAX,
            start < n,
            enemy@.len() == n,
            target matches Some(t) ==> t.0 < n,
            explored_ok(dist@, prev@, costs@, w, h, start as int),
            queued@.len() == n,
            forall|j: int| 0 <= j < frontier@.len() ==> #[trigger] frontier@[j] < n && dist@[frontier@[j] as int] < u32::MAX,
            forall|v: int| 0 <= v < n ==> (#[trigger] queued@[v] <==> frontier@.contains(v as usize)),
            forall|a: int, b: int| 0 <= a < frontier@.len() && 0 <= b < frontier@.len() && a != b
                ==> #[trigger] frontier@[a] != #[trigger] frontier@[b],
            best_goal < n,
            dist@[best_goal as int] < u32::MAX,
            explored <= cap,
            reached ==> target is Some && dist@[target_tile(target)] < u32::MAX,
            found matches Some(g) ==> g < n && g != start && dist@[g as int] < u32::MAX && enemy@[g as int],
        ensures
            explored_ok(dist@, prev@, costs@, w, h, start as int),
            dist@ == fin.dist,
            prev@ == fin.prev,
            best_goal == fin.best,
            reached == fin.reached,
            found == fin.found,
            best_goal < n,
            dist@[best_goal as int] < u32::MAX,
            reached ==> target is Some && dist@[target_tile(target)] < u32::MAX,
            found matches Some(g) ==> g < n && g != start && dist@[g as int] < u32::MAX && enemy@[g as int],
        decreases cap - explored,
    {
        let ghost s0 = running(dist@, prev@, queued@, best_goal, best_key, explored as nat);
        let ghost fuel = (cap + 1 - explored) as nat;
        if frontier.len() == 0 {
            proof {
                assert(!(exists|v: int| 0 <= v < s0.queued.len() && #[trigger] s0.queued[v])) by {
                    if exists|v: int| 0 <= v < s0.queued.len() && #[trigger] s0.queued[v] {
                        let v = choose|v: int| 0 <= v < s0.queued.len() && #[trigger] s0.queued[v];
                        assert(frontier@.contains(v as usize));
                    }
                }
                let st = sweep_step(s0, costs@, width, height, start as int, target, enemy@, cap as nat);
                assert(st.done);
                assert(sweep(st, costs@, width, height, start as int, target, enemy@, cap as nat, (fuel - 1) as nat) == st);
            }
            break;
        }
        let mut p: usize = 0;
        let mut q: usize = 1;
        while q < frontier.len()
            invariant
                0 <= p < frontier@.len(),
                1 <= q <= frontier@.len(),
                p < q,
                forall|j: int| 0 <= j < frontier@.len() ==> #[trigger] frontier@[j] < dist@.len(),
                forall|a: int, b: int| 0 <= a < frontier@.len() && 0 <= b < frontier@.len() && a != b
                    ==> #[trigger] frontier@[a] != #[trigger] frontier@[b],
                forall|j: int| 0 <= j < q && j != p ==> sooner(dist@, frontier@[p as int] as int, #[trigger] frontier@[j] as int),
            decreases frontier.len() - q,
        {
            let a = frontier[q];
            let b = frontier[p];
            if dist[a] < dist[b] || (dist[a] == dist[b] && a < b) {
                proof {
                    assert forall|j: int| 0 <= j < q + 1 && j != q implies
                        sooner(dist@, a as int, #[trigger] frontier@[j] as int) by {
                        if j != p {
                            assert(sooner(dist@, b as int, frontier@[j] as int));
                        }
                    }
                }
                p = q;
            } else {
                proof {
                    assert(frontier@[q as int] != frontier@[p as int]);
                }
            }
            q = q + 1;
        }
        let ghost fr0 = frontier@;
        let m = frontier.remove(p);
        proof {
            assert forall|v: int| 0 <= v < s0.queued.len() && #[trigger] s0.queued[v] && v != m
                implies sooner(s0.dist, m as int, v) by {
                assert(fr0.contains(v as usize));
                let j = choose|j: int| 0 <= j < fr0.len() && fr0[j] == v as usize;
                assert(j != p);
            }
            assert(is_next(s0.dist, s0.queued, m as int));
            let mc = choose|mm: int| is_next(s0.dist, s0.queued, mm);
            lemma_next_unique(s0.dist, s0.queued, m as int, mc);
        }
        queued.set(m, false);
        proof {
            assert forall|j: int| 0 <= j < frontier@.len() implies #[trigger] frontier@[j] == fr0[if j < p { j } else { j + 1 }] by {}
            assert forall|v: int| 0 <= v < n implies (#[trigger] queued@[v] <==> frontier@.contains(v as usize)) by {
                if frontier@.contains(v as usize) {
                    let j = choose|j: int| 0 <= j < frontier@.len() && frontier@[j] == v as usize;
                    let jo = if j < p { j } else { j + 1 };
                    assert(fr0[jo] == v as usize);
                    assert(fr0.contains(v as usize));
                    if v == m {
                        assert(fr0[p as int] == m);
                        assert(jo != p);
                    }
                }
                if v != m && fr0.contains(v as usize) {
                    let j = choose|j: int| 0 <= j < fr0.len() && fr0[j] == v as usize;
                    assert(j != p);
                    let jr = if j < p { j } else { j - 1 };
                    assert(frontier@[jr] == v as usize);
                }
            }
            assert forall|a: int, b: int| 0 <= a < frontier@.len() && 0 <= b < frontier@.len() && a != b
                implies #[trigger] frontier@[a] != #[trigger] frontier@[b] by {
                let ao = if a < p { a } else { a + 1 };
                let bo = if b < p { b } else { b + 1 };
                assert(frontier@[a] == fr0[ao]);
                assert(frontier@[b] == fr0[bo]);
            }
        }
        let dm = dist[m];
        let ghost s1 = Sweep { queued: s0.queued.update(m as int, false), ..s0 };
        proof {
            assert(queued@ == s1.queued);
        }
        match target {
            Some((t, tx, ty)) => {
                if m == t {
                    reached = true;
                    proof {
                        let st = sweep_step(s0, costs@, width, height, start as int, target, enemy@, cap as nat);
                        assert(st == Sweep { reached: true, done: true, ..s1 });
                        assert(sweep(st, costs@, width, height, start as int, target, enemy@, cap as nat, (fuel - 1) as nat) == st);
                    }
                    break;
                }
                let key = (crate::ai::manhattan(m as u32 % width, m as u32 / width, tx, ty, width), dm, m);
                if key_less(key, best_key) {
                    best_key = key;
                    best_goal = m;
                }
            },
            None => {
                if m != start && enemy[m] {
                    found = Some(m);
                    proof {
                        let st = sweep_step(s0, costs@, width, height, start as int, target, enemy@, cap as nat);
                        assert(st == Sweep { found: Some(m), done: true, ..s1 });
                        assert(sweep(st, costs@, width, height, start as int, target, enemy@, cap as nat, (fuel - 1) as nat) == st);
                    }
                    break;
                }
            },
        }
        let ghost s2 = Sweep { best: best_goal, key: best_key, ..s1 };
        proof {
            assert(sweep_step(s0, costs@, width, height, start as int, target, enemy@, cap as nat)
                == expand(s2, costs@, w, h, m as int, cap as nat));
        }
        if explored >= cap {
            proof {
                let st = sweep_step(s0, costs@, width, height, start as int, target, enemy@, cap as nat);
                assert(st == Sweep { done: true, ..s2 });
                assert(sweep(st, costs@, width, height, start as int, target, enemy@, cap as nat, (fuel - 1) as nat) == st);
            }
            break;
        }
        explored = explored + 1;
        let nbs = neighbors(m, width, height);
        let ghost base = (dist@, prev@, queued@);
        let mut k: usize = 0;
        while k < 4
            invariant
                (dist@, prev@, queued@) == relax_upto(base, costs@, w, h, m as int, k as nat),
                n == costs@.len(),
                n == w * h,
                w == width,
                h == height,
                n <= u32::MAX,
                m < n,
                dist@[m as int] < u32::MAX,
                dm == dist@[m as int],
                0 <= k <= 4,
                forall|k2: int| 0 <= k2 < 4 ==> opt_int(#[trigger] nbs@[k2]) == nb_spec(m as int, k2, w, h),
                explored_ok(dist@, prev@, costs@, w, h, start as int),
                queued@.len() == n,
                forall|j: int| 0 <= j < frontier@.len() ==> #[trigger] frontier@[j] < n && dist@[frontier@[j] as int] < u32::MAX,
                forall|v: int| 0 <= v < n ==> (#[trigger] queued@[v] <==> frontier@.contains(v as usize)),
                forall|a: int, b: int| 0 <= a < frontier@.len() && 0 <= b < frontier@.len() && a != b
                    ==> #[trigger] frontier@[a] != #[trigger] frontier@[b],
                best_goal < n,
                dist@[best_goal as int] < u32::MAX,
                !reached,
                found is None,
            decreases 4 - k,
        {
            let ghost t0 = (dist@, prev@, queued@);
            proof {
                lemma_nb_in_map(m as int, k as int, w, h);
            }
            if let Some(v) = nbs[k] {
                let c = costs[v];
                if c != IMPASSABLE {
                    let nd = dm.saturating_add(c);
                    if nd < dist[v] {
                        proof {
                            lemma_extend(costs@, w, h, start as int, m as int, v as int, k as int, dm as int);
                            assert(v != m);
                            assert(v != start);
                            assert(nb_spec(m as int, k as int, w, h) == Some(v as int));
                        }
                        dist.set(v, nd);
                        prev.set(v, m);
                        let ghost fr1 = frontier@;
                        if !queued[v] {
                            frontier.push(v);
                            queued.set(v, true);
                            proof {
                                assert forall|x: int| 0 <= x < n implies (#[trigger] queued@[x] <==> frontier@.contains(x as usize)) by {
                                    if x != v {
                                        if frontier@.contains(x as usize) {
                                            let j = choose|j: int| 0 <= j < frontier@.len() && frontier@[j] == x as usize;
                                            if j < frontier@.len() - 1 {
                                                assert(fr1[j] == x as usize);
                                                assert(fr1.contains(x as usize));
                                            }
                                        }
                                        if fr1.contains(x as usize) {
                                            let j = choose|j: int| 0 <= j < fr1.len() && fr1[j] == x as usize;
                                            assert(frontier@[j] == x as usize);
                                        }
                                    } else {
                                        assert(frontier@[frontier@.len() - 1] == v);
                                    }
                                }
                                assert forall|a: int, b: int| 0 <= a < frontier@.len() && 0 <= b < frontier@.len() && a != b
                                    implies #[trigger] frontier@[a] != #[trigger] frontier@[b] by {
                                    if a == frontier@.len() - 1 {
                                        assert(frontier@[b] == fr1[b]);
                                        assert(!fr1.contains(v));
                                    } else if b == frontier@.len() - 1 {
                                        assert(frontier@[a] == fr1[a]);
                                        assert(!fr1.contains(v));
                                    } else {
                                        assert(frontier@[a] == fr1[a]);
                                        assert(frontier@[b] == fr1[b]);
                                    }
                                }
                            }
                        }
                    }
                }
            }
            proof {
                let t1 = relax(t0, costs@, w, h, m as int, k as int);
                assert(dist@ =~= t1.0);
                assert(prev@ =~= t1.1);
                assert(queued@ =~= t1.2);
                assert(relax_upto(base, costs@, w, h, m as int, (k + 1) as nat) == t1);
            }
            k = k + 1;
        }
        proof {
            let st = sweep_step(s0, costs@, width, height, start as int, target, enemy@, cap as nat);
            assert(st == running(dist@, prev@, queued@, best_goal, best_key, explored as nat));
        }
    }
    let goal = match target {
        Some((t, _, _)) => {
            let g = if reached { t } else { best_goal };
            if g == start { None } else { Some(g) }
        },
        None => found,
    };
    Explored { dist, prev, goal }
}

/// A walk of cost `c` within the budget means the cheapest one exists.
pub proof fn lemma_best_exists(costs: Seq<u32>, w: int, h: int, from: int, to: int, c: int, budget: u32)
    requires
        walk_of_cost(costs, w, h, from, to, c),
        c <= budget,
    ensures
        crate::path::best_cost(costs, w, h, from, to, budget) is Some,
    decreases c,
{
    let d = choose|dirs: Seq<int>| #[trigger] reaches(costs, w, h, from, to, dirs) && walk_cost(costs, from, dirs, w, h) == c;
    crate::path::lemma_cost_nonneg(costs, from, d, w, h);
    if crate::path::none_cheaper(costs, w, h, from, to, c) {
        assert(c as u32 as int == c);
        assert((c as u32) <= budget && walk_of_cost(costs, w, h, from, to, (c as u32) as int)
            && crate::path::none_cheaper(costs, w, h, from, to, (c as u32) as int));
    } else {
        let d2 = choose|dirs: Seq<int>| #[trigger] reaches(costs, w, h, from, to, dirs) && !(walk_cost(costs, from, dirs, w, h) >= c);
        crate::path::lemma_cost_nonneg(costs, from, d2, w, h);
        let c2 = walk_cost(costs, from, d2, w, h);
        assert(walk_of_cost(costs, w, h, from, to, c2));
        lemma_best_exists(costs, w, h, from, to, c2, budget);
    }
}

/// A neighbour other than the tile itself is at distance one.
pub proof fn lemma_nb_dist(u: int, k: int, w: int, h: int)
    requires
        w > 0,
        h > 0,
        0 <= u < w * h,
        nb_spec(u, k, w, h) matches Some(v) && v != u,
    ensures
        crate::realm::wrap_dist(u % w, u / w, nb_spec(u, k, w, h)->0 % w, nb_spec(u, k, w, h)->0 / w, w) == 1,
{
    crate::path::lemma_grid(u, w, h);
    let x = u % w;
    let y = u / w;
    let v = nb_spec(u, k, w, h)->0;
    if k == 0 {
        let nx = if x == 0 { w - 1 } else { x - 1 };
        vstd::arithmetic::div_mod::lemma_fundamental_div_mod_converse(v, w, y, nx);
        if x == 0 {
            assert(w - 1 != 0);
        }
    } else if k == 1 {
        let nx = if x + 1 == w { 0 } else { x + 1 };
        vstd::arithmetic::div_mod::lemma_fundamental_div_mod_converse(v, w, y, nx);
        if x + 1 == w {
            assert(w != 1);
        }
    } else if k == 2 {
        vstd::arithmetic::div_mod::lemma_fundamental_div_mod_converse(v, w, y - 1, x);
        assert(v == (y - 1) * w + x);
    } else {
        vstd::arithmetic::div_mod::lemma_fundamental_div_mod_converse(v, w, y + 1, x);
        assert(v == (y + 1) * w + x);
    }
}

/// Following the remembered steps back from `cur`, `start` comes within
/// `fuel` steps.
pub open spec fn leads_back(prev: Seq<usize>, start: int, cur: int, fuel: nat) -> bool
    decreases fuel,
{
    if cur == start {
        true
    } else if fuel == 0 {
        false
    } else {
        leads_back(prev, start, prev[cur] as int, (fuel - 1) as nat)
    }
}

/// The tiles from `start` to `cur` along the remembered steps (when they lead
/// back to `start` within `fuel` steps).
pub open spec fn back_path(prev: Seq<usize>, start: int, cur: int, fuel: nat) -> Seq<usize>
    decreases fuel,
{
    if cur == start {
        seq![start as usize]
    } else if fuel == 0 {
        Seq::empty()
    } else {
        back_path(prev, start, prev[cur] as int, (fuel - 1) as nat).push(cur as usize)
    }
}

/// The path from `start` to `goal` following the remembered steps backwards
/// (at most as many steps as there are tiles): found exactly when those steps
/// lead back to `start` within that many steps.
pub fn path_to(e: &Explored, costs: &Vec<u32>, width: u32, height: u32, start: usize, goal: usize) -> (r: Option<Vec<usize>>)
    requires
        explored_ok(e.dist@, e.prev@, costs@, width as int, height as int, start as int),
        goal < costs@.len(),
        goal != start,
        e.dist@[goal as int] < u32::MAX,
    ensures
        r is Some <==> leads_back(e.prev@, start as int, goal as int, costs@.len()),
        r matches Some(path) ==> path@ == back_path(e.prev@, start as int, goal as int, costs@.len()),
        r matches Some(path) ==> {
            &&& path@.len() >= 2
            &&& path@[0] == start
            &&& path@[path@.len() - 1] == goal
            &&& forall|j: int| 1 <= j < path@.len() ==> {
                &&& #[trigger] path@[j] != start
                &&& path@[j] < costs@.len()
                &&& e.dist@[path@[j] as int] < u32::MAX
                &&& e.prev@[path@[j] as int] == path@[j - 1]
            }
        },
{
    let n = costs.len();
    let mut rev: Vec<usize> = vec![goal];
    let mut cur = goal;
    let mut fuel: usize = n;
    let ghost mut tail: Seq<usize> = Seq::empty();
    while cur != start
        invariant
            leads_back(e.prev@, start as int, goal as int, n as nat) ==> back_path(e.prev@, start as int, goal as int, n as nat)
                == back_path(e.prev@, start as int, cur as int, fuel as nat) + tail,
            tail.len() + 1 == rev@.len(),
            forall|i: int| 0 <= i < rev@.len() ==> #[trigger] rev@[i] == (seq![cur] + tail)[rev@.len() - 1 - i],
            explored_ok(e.dist@, e.prev@, costs@, width as int, height as int, start as int),
            n == costs@.len(),
            rev@.len() >= 1,
            rev@[0] == goal,
            rev@[rev@.len() - 1] == cur,
            rev@.len() == 1 ==> cur == goal,
            goal != start,
            fuel <= n,
            leads_back(e.prev@, start as int, goal as int, n as nat) == leads_back(e.prev@, start as int, cur as int, fuel as nat),
            cur < n,
            e.dist@[cur as int] < u32::MAX,
            forall|j: int| 0 <= j < rev@.len() - 1 ==> {
                &&& #[trigger] rev@[j] != start
                &&& rev@[j] < n
                &&& e.dist@[rev@[j] as int] < u32::MAX
                &&& e.prev@[rev@[j] as int] == rev@[j + 1]
            },
        decreases fuel,
    {
        if fuel == 0 {
            return None;
        }
        let ghost r0 = rev@;
        let ghost t0 = tail;
        let next = e.prev[cur];
        rev.push(next);
        proof {
            tail = seq![cur] + t0;
            let bn = back_path(e.prev@, start as int, next as int, (fuel - 1) as nat);
            assert(back_path(e.prev@, start as int, cur as int, fuel as nat) == bn.push(cur));
            assert(bn.push(cur) + t0 =~= bn + tail);
            assert forall|i: int| 0 <= i < rev@.len() implies #[trigger] rev@[i] == (seq![next] + tail)[rev@.len() - 1 - i] by {
                if i < r0.len() {
                    assert(rev@[i] == r0[i]);
                    assert((seq![next] + tail)[rev@.len() - 1 - i] == (seq![cur] + t0)[r0.len() - 1 - i]);
                }
            }
        }
        proof {
            assert forall|j: int| 0 <= j < rev@.len() - 1 implies {
                &&& #[trigger] rev@[j] != start
                &&& rev@[j] < n
                &&& e.dist@[rev@[j] as int] < u32::MAX
                &&& e.prev@[rev@[j] as int] == rev@[j + 1]
            } by {
                if j < r0.len() - 1 {
                    assert(rev@[j] == r0[j]);
                    assert(rev@[j + 1] == r0[j + 1]);
                } else {
                    assert(rev@[j] == cur);
                }
            }
        }
        cur = next;
        fuel = fuel - 1;
    }
    let len = rev.len();
    let mut path: Vec<usize> = Vec::new();
    let mut j: usize = 0;
    while j < len
        invariant
            len == rev@.len(),
            0 <= j <= len,
            path@.len() == j,
            forall|m: int| 0 <= m < j ==> #[trigger] path@[m] == rev@[len - 1 - m],
        decreases len - j,
    {
        path.push(rev[len - 1 - j]);
        j = j + 1;
    }
    if path.len() < 2 {
        return None;
    }
    proof {
        assert(path@ =~= seq![start] + tail) by {
            assert forall|m: int| 0 <= m < path@.len() implies path@[m] == (seq![start] + tail)[m] by {
                assert(path@[m] == rev@[len - 1 - m]);
            }
        }
        assert forall|m: int| 1 <= m < path@.len() implies {
            &&& #[trigger] path@[m] != start
            &&& path@[m] < costs@.len()
            &&& e.dist@[path@[m] as int] < u32::MAX
            &&& e.prev@[path@[m] as int] == path@[m - 1]
        } by {
            let r = len - 1 - m;
            assert(path@[m] == rev@[r]);
            assert(path@[m - 1] == rev@[r + 1]);
        }
    }
    Some(path)
}

/// Is some unit standing on tile `v`?
pub open spec fn tile_occupied(us: Seq<crate::unit::Unit>, v: int, w: int) -> bool {
    crate::realm::occupied_spec(us, (v % w) as u32, (v / w) as u32)
}

/// The first `m` steps of the path (after its start) all fit in `moves`.
pub open spec fn within(path: Seq<usize>, dist: Seq<u32>, moves: u32, m: int) -> bool {
    forall|q: int| 1 <= q <= m ==> dist[#[trigger] path[q] as int] <= moves
}

/// Along the path, the farthest tile reachable within `moves` points (before
/// the first one beyond them) that no unit stands on.
pub fn farthest_free(realm: &crate::realm::Realm, path: &Vec<usize>, dist: &Vec<u32>, moves: u32) -> (r: Option<usize>)
    requires
        realm.wf(),
        dist@.len() == realm.plots@.len(),
        forall|j: int| 0 <= j < path@.len() ==> #[trigger] path@[j] < realm.plots@.len(),
    ensures
        r matches Some(v) ==> exists|j: int| 1 <= j < path@.len() && #[trigger] path@[j] == v
            && within(path@, dist@, moves, j)
            && !tile_occupied(realm.units@, v as int, realm.width as int)
            && forall|m: int| j < m < path@.len() && within(path@, dist@, moves, m)
                ==> tile_occupied(realm.units@, #[trigger] path@[m] as int, realm.width as int),
        r is None ==> forall|m: int| 1 <= m < path@.len() && within(path@, dist@, moves, m)
            ==> tile_occupied(realm.units@, #[trigger] path@[m] as int, realm.width as int),
{
    let w = realm.width;
    let mut dest: Option<usize> = None;
    let ghost mut at: int = 0;
    let mut j: usize = 1;
    while j < path.len()
        invariant_except_break
            within(path@, dist@, moves, j - 1),
        invariant
            realm.wf(),
            w == realm.width,
            dist@.len() == realm.plots@.len(),
            forall|m: int| 0 <= m < path@.len() ==> #[trigger] path@[m] < realm.plots@.len(),
            1 <= j,
            j <= path@.len() || path@.len() == 0,
            dest matches Some(v) ==> 1 <= at < j && at < path@.len() && path@[at] == v && within(path@, dist@, moves, at)
                && !tile_occupied(realm.units@, v as int, realm.width as int),
            forall|m: int| (if dest is Some { at } else { 0 }) < m < j && m < path@.len()
                ==> tile_occupied(realm.units@, #[trigger] path@[m] as int, realm.width as int),
        ensures
            dest matches Some(v) ==> 1 <= at < path@.len() && path@[at] == v && within(path@, dist@, moves, at)
                && !tile_occupied(realm.units@, v as int, realm.width as int),
            forall|m: int| (if dest is Some { at } else { 0 }) < m < path@.len() && within(path@, dist@, moves, m)
                ==> tile_occupied(realm.units@, #[trigger] path@[m] as int, realm.width as int),
        decreases path.len() - j,
    {
        let idx = path[j];
        if dist[idx] > moves {
            proof {
                assert forall|m: int| (if dest is Some { at } else { 0 }) < m < path@.len()
                    && within(path@, dist@, moves, m)
                    implies tile_occupied(realm.units@, #[trigger] path@[m] as int, realm.width as int) by {
                    if m >= j {
                        assert(dist@[path@[j as int] as int] <= moves);
                    }
                }
            }
            break;
        }
        proof {
            assert(idx < 0x1_0000_0000);
        }
        let x = idx as u32 % w;
        let y = idx as u32 / w;
        if !realm.unit_occupied(x, y) {
            proof {
                assert(path@[j as int] == idx);
                at = j as int;
            }
            dest = Some(idx);
        }
        j = j + 1;
    }
    proof {
        if dest is Some {
            let jj = at;
            assert(1 <= jj < path@.len() && path@[jj] == dest->0);
        }
    }
    dest
}

/// Coordinates of a tile index of the map.
proof fn lemma_coords(r: crate::realm::Realm, v: int)
    requires
        r.wf(),
        0 <= v < r.plots@.len(),
    ensures
        (v as u32) as int == v,
        0 <= v % (r.width as int) < r.width,
        0 <= v / (r.width as int) < r.height,
        r.idx((v % (r.width as int)) as u32, (v / (r.width as int)) as u32) == v,
{
    crate::path::lemma_grid(v, r.width as int, r.height as int);
}

/// A move the rules grant to unit `u` (of the realm) towards (x, y).
pub open spec fn granted(r: crate::realm::Realm, u: crate::unit::Unit, x: u32, y: u32, ground: Seq<crate::path::Ground>) -> bool {
    r.move_refusal(u.id, x, y) is None && r.move_cost(u.id, x, y, ground) is Some
}

/// The first step of `path` for unit `u`, when it has all its movement points
/// and no unit stands there.
pub open spec fn full_step(r: crate::realm::Realm, u: crate::unit::Unit, path: Seq<usize>) -> Option<(u32, u32)> {
    if u.moves_left == crate::unit::stats_of(u.kind).moves && path.len() >= 2
        && !tile_occupied(r.units@, path[1] as int, r.width as int) {
        Some(((path[1] as int % r.width as int) as u32, (path[1] as int / r.width as int) as u32))
    } else {
        None
    }
}

/// "At least one tile": at full movement points, the first step of the path,
/// if no unit stands there.
pub fn step_at_full_moves(realm: &crate::realm::Realm, u: &crate::unit::Unit, path: &Vec<usize>) -> (r: Option<(u32, u32)>)
    requires
        realm.wf(),
        forall|j: int| 0 <= j < path@.len() ==> #[trigger] path@[j] < realm.plots@.len(),
    ensures
        r == full_step(*realm, *u, path@),
{
    if u.moves_left != crate::unit::unit_stats(u.kind).moves {
        return None;
    }
    if path.len() < 2 {
        return None;
    }
    let first = path[1];
    proof {
        assert(first < 0x1_0000_0000);
    }
    let x = first as u32 % realm.width;
    let y = first as u32 / realm.width;
    if realm.unit_occupied(x, y) {
        return None;
    }
    Some((x, y))
}

/// The way a unit enters tiles: its entry costs (a galley sails, a land unit
/// marches, crossing water by its nation's sea branch).
fn costs_of(realm: &crate::realm::Realm, u: &crate::unit::Unit, ground: &Vec<crate::path::Ground>) -> (c: Vec<u32>)
    requires
        realm.wf(),
        forall|i: int| 0 <= i < ground@.len() ==> (#[trigger] ground@[i]).wf(),
    ensures
        c@ == crate::path::costs_for(ground@, crate::unit::stats_of(u.kind).naval, realm.naval_tier_of(u.owner)),
{
    let tier = realm.naval_tier(u.owner);
    crate::path::unit_costs(ground, crate::unit::unit_stats(u.kind).naval, tier)
}

/// Tile `j` of the path (after its start) is the farthest one within `moves`
/// points (before the first beyond them) that no unit stands on.
pub open spec fn farthest_at(r: crate::realm::Realm, path: Seq<usize>, dist: Seq<u32>, moves: u32, j: int) -> bool {
    &&& 1 <= j < path.len()
    &&& within(path, dist, moves, j)
    &&& !tile_occupied(r.units@, path[j] as int, r.width as int)
    &&& forall|m: int| j < m < path.len() && within(path, dist, moves, m)
        ==> tile_occupied(r.units@, #[trigger] path[m] as int, r.width as int)
}

/// Where unit `u` marching along `path` (at distances `dist`) goes this month:
/// the farthest free tile within its points, else [`full_step`].
pub open spec fn march_dest(r: crate::realm::Realm, u: crate::unit::Unit, path: Seq<usize>, dist: Seq<u32>) -> Option<(u32, u32)> {
    if exists|j: int| #[trigger] farthest_at(r, path, dist, u.moves_left, j) {
        let v = path[choose|j: int| #[trigger] farthest_at(r, path, dist, u.moves_left, j)] as int;
        Some(((v % r.width as int) as u32, (v / r.width as int) as u32))
    } else {
        full_step(r, u, path)
    }
}

/// Only one tile of a path is the farthest free one.
proof fn lemma_farthest_unique(r: crate::realm::Realm, path: Seq<usize>, dist: Seq<u32>, moves: u32, a: int, b: int)
    requires
        farthest_at(r, path, dist, moves, a),
        farthest_at(r, path, dist, moves, b),
    ensures
        a == b,
{
    if a < b {
        assert(tile_occupied(r.units@, path[b] as int, r.width as int));
    } else if b < a {
        assert(tile_occupied(r.units@, path[a] as int, r.width as int));
    }
}

/// Where a unit marching along `path` (explored as `e`) goes this month: the
/// farthest free tile within its points, else the first step at full points.
fn advance_along(realm: &crate::realm::Realm, u: &crate::unit::Unit, e: &Explored, path: &Vec<usize>,
    costs: &Vec<u32>, ground: &Vec<crate::path::Ground>) -> (r: Option<(u32, u32)>)
    requires
        realm.wf(),
        realm.units@.contains(*u),
        ground@.len() == realm.plots@.len(),
        forall|i: int| 0 <= i < ground@.len() ==> (#[trigger] ground@[i]).wf(),
        costs@ == crate::path::costs_for(ground@, crate::unit::stats_of(u.kind).naval, realm.naval_tier_of(u.owner)),
        explored_ok(e.dist@, e.prev@, costs@, realm.width as int, realm.height as int, realm.idx(u.x, u.y)),
        path@.len() >= 2,
        path@[0] == realm.idx(u.x, u.y),
        forall|j: int| 1 <= j < path@.len() ==> {
            &&& #[trigger] path@[j] != realm.idx(u.x, u.y)
            &&& path@[j] < costs@.len()
            &&& e.dist@[path@[j] as int] < u32::MAX
            &&& e.prev@[path@[j] as int] == path@[j - 1]
        },
    ensures
        r matches Some(p) ==> granted(*realm, *u, p.0, p.1, ground@),
        r == march_dest(*realm, *u, path@, e.dist@),
{
    let ghost w = realm.width as int;
    let ghost h = realm.height as int;
    let ghost start = realm.idx(u.x, u.y);
    let ghost i = choose|i: int| 0 <= i < realm.units@.len() && realm.units@[i] == *u;
    proof {
        assert(realm.units@[i] == *u);
        crate::realm::lemma_unit_pos(realm.units@, i, u.id);
        crate::path::lemma_cell(u.x as int, u.y as int, w, h);
        assert forall|j: int| 0 <= j < path@.len() implies #[trigger] path@[j] < realm.plots@.len() by {
            if j >= 1 {
                assert(path@[j] < costs@.len());
            }
        }
    }
    match farthest_free(realm, path, &e.dist, u.moves_left) {
        Some(v) => {
            proof {
                let j = choose|j: int| 1 <= j < path@.len() && #[trigger] path@[j] == v
                    && e.dist@[v as int] <= u.moves_left && !tile_occupied(realm.units@, v as int, w);
                lemma_coords(*realm, v as int);
                lemma_best_exists(costs@, w, h, start, v as int, e.dist@[v as int] as int, u.moves_left);
                let px = (v as int % w) as u32;
                let py = (v as int / w) as u32;
                assert(unit_pos(realm.units@, u.id) == i);
                assert(crate::realm::has_unit(realm.units@, u.id));
                assert(realm.idx(px, py) == v);
                assert(!(u.x == px && u.y == py));
                assert(!crate::realm::occupied_spec(realm.units@, px, py));
                assert(realm.move_refusal(u.id, px, py) is None);
                assert(realm.move_cost(u.id, px, py, ground@) is Some);
                let jf = choose|jf: int| 1 <= jf < path@.len() && #[trigger] path@[jf] == v
                    && within(path@, e.dist@, u.moves_left, jf)
                    && !tile_occupied(realm.units@, v as int, realm.width as int)
                    && forall|m: int| jf < m < path@.len() && within(path@, e.dist@, u.moves_left, m)
                        ==> tile_occupied(realm.units@, #[trigger] path@[m] as int, realm.width as int);
                assert(farthest_at(*realm, path@, e.dist@, u.moves_left, jf));
                let jc = choose|j: int| #[trigger] farthest_at(*realm, path@, e.dist@, u.moves_left, j);
                lemma_farthest_unique(*realm, path@, e.dist@, u.moves_left, jf, jc);
            }
            Some((v as u32 % realm.width, v as u32 / realm.width))
        },
        None => {
            let r = step_at_full_moves(realm, u, path);
            proof {
                if exists|j: int| #[trigger] farthest_at(*realm, path@, e.dist@, u.moves_left, j) {
                    let j = choose|j: int| #[trigger] farthest_at(*realm, path@, e.dist@, u.moves_left, j);
                    assert(tile_occupied(realm.units@, path@[j] as int, realm.width as int));
                }
                if let Some(p) = r {
                    let v = path@[1] as int;
                    lemma_coords(*realm, v);
                    let prev = e.prev@[v];
                    assert(prev == start);
                    assert(step(costs@, w, h, start, v));
                    let k = choose|k: int| 0 <= k < 4 && #[trigger] nb_spec(start, k, w, h) == Some(v);
                    lemma_coords(*realm, start);
                    lemma_nb_dist(start, k, w, h);
                    assert(unit_pos(realm.units@, u.id) == i);
                    assert(realm.idx(p.0, p.1) == v);
                    assert(start % w == u.x && start / w == u.y) by {
                        vstd::arithmetic::div_mod::lemma_fundamental_div_mod_converse(start, w, u.y as int, u.x as int);
                    }
                    assert(!(u.x == p.0 && u.y == p.1));
                    assert(realm.move_refusal(u.id, p.0, p.1) is None);
                    assert(costs@[v] != IMPASSABLE);
                    assert(crate::realm::wrap_dist(u.x as int, u.y as int, p.0 as int, p.1 as int, w) == 1);
                    assert(realm.move_cost(u.id, p.0, p.1, ground@) is Some);
                }
            }
            r
        },
    }
}

/// No enemy to seek.
fn no_enemy(n: usize) -> (m: Vec<bool>)
    ensures
        m@ == Seq::new(n as nat, |i: int| false),
{
    let mut m: Vec<bool> = Vec::new();
    let mut i: usize = 0;
    while i < n
        invariant
            0 <= i <= n,
            m@.len() == i,
            forall|j: int| 0 <= j < i ==> !#[trigger] m@[j],
        decreases n - i,
    {
        m.push(false);
        i = i + 1;
    }
    assert(m@ =~= Seq::new(n as nat, |i: int| false));
    m
}

/// Where unit `u` goes after the exploration `fin` from `start` (over `n`
/// tiles): along the remembered steps to its goal, as [`march_dest`] says;
/// nowhere without a goal.
pub open spec fn march_after(r: crate::realm::Realm, u: crate::unit::Unit, fin: Sweep, start: int,
    target: Option<(usize, u32, u32)>, n: nat) -> Option<(u32, u32)>
{
    match goal_of(fin, start, target) {
        None => None,
        Some(g) => if leads_back(fin.prev, start, g as int, n) {
            march_dest(r, u, back_path(fin.prev, start, g as int, n), fin.dist)
        } else {
            None
        },
    }
}

/// Where [`march_toward`] sends unit `u`: nowhere when it stands on (tx, ty);
/// else after an exploration of its entry costs towards (tx, ty) of 4000
/// expansions at most (see [`sweep_of`], [`march_after`]).
pub open spec fn march_toward_spec(r: crate::realm::Realm, u: crate::unit::Unit, tx: u32, ty: u32,
    ground: Seq<crate::path::Ground>) -> Option<(u32, u32)>
{
    let start = r.idx(u.x, u.y);
    let t = r.idx(tx, ty);
    if start == t {
        None
    } else {
        let costs = crate::path::costs_for(ground, crate::unit::stats_of(u.kind).naval, r.naval_tier_of(u.owner));
        let target = Some((t as usize, tx, ty));
        let fin = sweep_of(costs, r.width, r.height, start, target, Seq::new(costs.len(), |i: int| false), 4000);
        march_after(r, u, fin, start, target, costs.len())
    }
}

/// Where [`march_to_enemy`] sends unit `u`: after an exploration of its entry
/// costs seeking a tile `enemy` marks, of 12000 expansions at most (see
/// [`sweep_of`], [`march_after`]).
pub open spec fn march_to_enemy_spec(r: crate::realm::Realm, u: crate::unit::Unit, enemy: Seq<bool>,
    ground: Seq<crate::path::Ground>) -> Option<(u32, u32)>
{
    let start = r.idx(u.x, u.y);
    let costs = crate::path::costs_for(ground, crate::unit::stats_of(u.kind).naval, r.naval_tier_of(u.owner));
    let fin = sweep_of(costs, r.width, r.height, start, None, enemy, 12000);
    march_after(r, u, fin, start, None, costs.len())
}

/// Next destination of a march of unit `u` towards (tx, ty), around the
/// obstacles: a bounded exploration from the unit aims at the target, or, out
/// of reach, at the explored tile nearest to it (so the unit still makes
/// progress), and the unit goes as far as it can this month along the way.
/// Every destination returned is a move the rules grant.
pub fn march_toward(realm: &crate::realm::Realm, nation: u16, u: &crate::unit::Unit, tx: u32, ty: u32,
    ground: &Vec<crate::path::Ground>) -> (r: Option<(u32, u32)>)
    requires
        realm.wf(),
        realm.units@.contains(*u),
        u.owner == nation,
        tx < realm.width,
        ty < realm.height,
        ground@.len() == realm.plots@.len(),
        forall|i: int| 0 <= i < ground@.len() ==> (#[trigger] ground@[i]).wf(),
    ensures
        r matches Some(p) ==> granted(*realm, *u, p.0, p.1, ground@),
        r == march_toward_spec(*realm, *u, tx, ty, ground@),
{
    let ghost i = choose|i: int| 0 <= i < realm.units@.len() && realm.units@[i] == *u;
    proof {
        assert(realm.units@[i] == *u);
    }
    let costs = costs_of(realm, u, ground);
    let start = realm.index(u.x, u.y);
    let target = realm.index(tx, ty);
    proof {
        assert(costs@.len() == realm.plots@.len());
    }
    if start == target {
        return None;
    }
    let n = realm.plots.len();
    let enemy = no_enemy(n);
    let e = explore(&costs, realm.width, realm.height, start, Some((target, tx, ty)), &enemy, 4000);
    let goal = match e.goal {
        Some(g) => g,
        None => {
            return None;
        },
    };
    let path = match path_to(&e, &costs, realm.width, realm.height, start, goal) {
        Some(p) => p,
        None => {
            return None;
        },
    };
    advance_along(realm, u, &e, &path, &costs, ground)
}

/// Next destination of a land unit marching on the nearest enemy tile it can
/// really reach (by the cost of the walk, not as the crow flies): the first
/// tile of `enemy` a bounded exploration from the unit meets; `None` when no
/// enemy tile is reachable overland within the horizon. Every destination
/// returned is a move the rules grant.
pub fn march_to_enemy(realm: &crate::realm::Realm, nation: u16, u: &crate::unit::Unit, enemy: &Vec<bool>,
    ground: &Vec<crate::path::Ground>) -> (r: Option<(u32, u32)>)
    requires
        realm.wf(),
        realm.units@.contains(*u),
        u.owner == nation,
        !crate::unit::stats_of(u.kind).naval,
        enemy@.len() == realm.plots@.len(),
        ground@.len() == realm.plots@.len(),
        forall|i: int| 0 <= i < ground@.len() ==> (#[trigger] ground@[i]).wf(),
    ensures
        r matches Some(p) ==> granted(*realm, *u, p.0, p.1, ground@),
        r == march_to_enemy_spec(*realm, *u, enemy@, ground@),
{
    let ghost i = choose|i: int| 0 <= i < realm.units@.len() && realm.units@[i] == *u;
    proof {
        assert(realm.units@[i] == *u);
    }
    let costs = costs_of(realm, u, ground);
    let start = realm.index(u.x, u.y);
    let e = explore(&costs, realm.width, realm.height, start, None, enemy, 12000);
    let goal = match e.goal {
        Some(g) => g,
        None => {
            return None;
        },
    };
    let path = match path_to(&e, &costs, realm.width, realm.height, start, goal) {
        Some(p) => p,
        None => {
            return None;
        },
    };
    advance_along(realm, u, &e, &path, &costs, ground)
}

/// Tile `j` of `path` (after its start) is the farthest one within `budget`
/// points (before the first beyond them) that `occupied` leaves free.
pub open spec fn free_at(path: Seq<usize>, dist: Seq<u32>, budget: u32, occupied: Seq<bool>, j: int) -> bool {
    &&& 1 <= j < path.len()
    &&& within(path, dist, budget, j)
    &&& !occupied[path[j] as int]
    &&& forall|m: int| j < m < path.len() && within(path, dist, budget, m) ==> occupied[#[trigger] path[m] as int]
}

/// Only one tile of a path is the farthest free one.
proof fn lemma_free_unique(path: Seq<usize>, dist: Seq<u32>, budget: u32, occupied: Seq<bool>, a: int, b: int)
    requires
        free_at(path, dist, budget, occupied, a),
        free_at(path, dist, budget, occupied, b),
    ensures
        a == b,
{
    if a < b {
        assert(occupied[path[b] as int]);
    } else if b < a {
        assert(occupied[path[a] as int]);
    }
}

/// Where a walker with `budget` points out of `full_moves` goes along `path`:
/// the farthest free tile within its points, else, at full points, the first
/// step if it is free.
pub open spec fn step_along(path: Seq<usize>, dist: Seq<u32>, budget: u32, full_moves: u32, occupied: Seq<bool>)
    -> Option<usize>
{
    if exists|j: int| #[trigger] free_at(path, dist, budget, occupied, j) {
        Some(path[choose|j: int| #[trigger] free_at(path, dist, budget, occupied, j)])
    } else if budget == full_moves && path.len() >= 2 && !occupied[path[1] as int] {
        Some(path[1])
    } else {
        None
    }
}

/// Where [`march_step`] goes: nowhere from `to` itself; else the exploration
/// of [`sweep_of`] towards `to` (4000 expansions at most) gives the goal, the
/// remembered steps give the path to it, and [`step_along`] the tile.
pub open spec fn march_step_spec(costs: Seq<u32>, width: u32, height: u32, from: usize, to: usize, budget: u32,
    full_moves: u32, occupied: Seq<bool>) -> Option<usize>
{
    if from == to {
        None
    } else {
        let target = Some((to, (to as u32) % width, (to as u32) / width));
        let fin = sweep_of(costs, width, height, from as int, target, Seq::new(costs.len(), |i: int| false), 4000);
        match goal_of(fin, from as int, target) {
            None => None,
            Some(g) => if leads_back(fin.prev, from as int, g as int, costs.len()) {
                step_along(back_path(fin.prev, from as int, g as int, costs.len()), fin.dist, budget, full_moves, occupied)
            } else {
                None
            },
        }
    }
}

/// Next destination of a march from `from` towards `to` over the entry costs
/// `costs` (see [`march_toward`]), for a walker with `budget` points left out
/// of `full_moves`, avoiding the tiles `occupied` marks: the farthest free tile
/// of the path within the budget, else, at full points, the first step. The
/// destination is reached by a passable walk within the budget, or is one
/// passable step away at full points.
pub fn march_step(costs: &Vec<u32>, width: u32, height: u32, from: usize, to: usize, budget: u32, full_moves: u32,
    occupied: &Vec<bool>) -> (r: Option<usize>)
    requires
        width > 0,
        height > 0,
        costs@.len() == width as int * height as int,
        costs@.len() <= u32::MAX,
        from < costs@.len(),
        to < costs@.len(),
        occupied@.len() == costs@.len(),
    ensures
        r matches Some(v) ==> {
            &&& v < costs@.len()
            &&& v != from
            &&& !occupied@[v as int]
            &&& (exists|c: int| c <= budget && walk_of_cost(costs@, width as int, height as int, from as int, v as int, c))
                || (budget == full_moves && step(costs@, width as int, height as int, from as int, v as int))
        },
        r == march_step_spec(costs@, width, height, from, to, budget, full_moves, occupied@),
{
    if from == to {
        return None;
    }
    let n = costs.len();
    let enemy = no_enemy(n);
    let tx = (to as u32) % width;
    let ty = (to as u32) / width;
    let e = explore(costs, width, height, from, Some((to, tx, ty)), &enemy, 4000);
    let goal = match e.goal {
        Some(g) => g,
        None => {
            return None;
        },
    };
    let path = match path_to(&e, costs, width, height, from, goal) {
        Some(p) => p,
        None => {
            return None;
        },
    };
    let mut dest: Option<usize> = None;
    let ghost mut at: int = 0;
    let mut j: usize = 1;
    while j < path.len()
        invariant_except_break
            within(path@, e.dist@, budget, j - 1),
        invariant
            dest matches Some(v) ==> 1 <= at < j && at < path@.len() && path@[at] == v
                && within(path@, e.dist@, budget, at) && !occupied@[v as int],
            forall|m: int| (if dest is Some { at } else { 0 }) < m < j && m < path@.len()
                ==> occupied@[#[trigger] path@[m] as int],
            n == costs@.len(),
            occupied@.len() == n,
            explored_ok(e.dist@, e.prev@, costs@, width as int, height as int, from as int),
            1 <= j <= path@.len(),
            forall|m: int| 1 <= m < path@.len() ==> {
                &&& #[trigger] path@[m] != from
                &&& path@[m] < costs@.len()
                &&& e.dist@[path@[m] as int] < u32::MAX
                &&& e.prev@[path@[m] as int] == path@[m - 1]
            },
            dest matches Some(v) ==> v < n && v != from && !occupied@[v as int] && e.dist@[v as int] <= budget
                && e.dist@[v as int] < u32::MAX,
        ensures
            dest matches Some(v) ==> 1 <= at < path@.len() && path@[at] == v
                && within(path@, e.dist@, budget, at) && !occupied@[v as int],
            forall|m: int| (if dest is Some { at } else { 0 }) < m < path@.len() && within(path@, e.dist@, budget, m)
                ==> occupied@[#[trigger] path@[m] as int],
        decreases path.len() - j,
    {
        let idx = path[j];
        if e.dist[idx] > budget {
            proof {
                assert forall|m: int| (if dest is Some { at } else { 0 }) < m < path@.len()
                    && within(path@, e.dist@, budget, m) implies occupied@[#[trigger] path@[m] as int] by {
                    if m >= j {
                        assert(e.dist@[path@[j as int] as int] <= budget);
                    }
                }
            }
            break;
        }
        if !occupied[idx] {
            proof {
                at = j as int;
            }
            dest = Some(idx);
        }
        j = j + 1;
    }
    proof {
        let p = path@;
        let target = Some((to, (to as u32) % width, (to as u32) / width));
        assert(enemy@ =~= Seq::new(costs@.len(), |i: int| false));
        if dest is Some {
            assert(free_at(p, e.dist@, budget, occupied@, at));
            let jc = choose|jj: int| #[trigger] free_at(p, e.dist@, budget, occupied@, jj);
            lemma_free_unique(p, e.dist@, budget, occupied@, at, jc);
        } else if exists|jj: int| #[trigger] free_at(p, e.dist@, budget, occupied@, jj) {
            let jj = choose|jj: int| #[trigger] free_at(p, e.dist@, budget, occupied@, jj);
            assert(occupied@[p[jj] as int]);
        }
    }
    match dest {
        Some(v) => Some(v),
        None => {
            if budget == full_moves {
                let first = path[1];
                if !occupied[first] {
                    proof {
                        assert(e.prev@[first as int] == from);
                    }
                    return Some(first);
                }
            }
            None
        },
    }
}

/// An order of the military AI of `nation` that fits the current state: its
/// own barracks or port recruits (free tile), its own units move where the
/// rules let them, attack an enemy unit of a nation at war within range, board
/// an adjacent galley of theirs with room, or land on adjacent free enemy land.
pub open spec fn order_ok(r: crate::realm::Realm, nation: u16, ground: Seq<crate::path::Ground>, c: Command) -> bool {
    match c {
        Command::CreateUnit { x, y, nation: n2, kind } => {
            &&& n2 == nation
            &&& x < r.width && y < r.height
            &&& r.plots@[r.idx(x, y)].owner == Some(nation)
            &&& r.plots@[r.idx(x, y)].building == Some(if crate::unit::stats_of(kind).naval {
                crate::proto::Building::Port } else { crate::proto::Building::Military })
            &&& !crate::realm::occupied_spec(r.units@, x, y)
        },
        Command::MoveUnit { unit, to_x, to_y } => exists|i: int| 0 <= i < r.units@.len() && (#[trigger] r.units@[i]).id == unit
            && r.units@[i].owner == nation && granted(r, r.units@[i], to_x, to_y, ground),
        Command::AttackUnit { unit, x, y } => exists|i: int, j: int| 0 <= i < r.units@.len() && 0 <= j < r.units@.len()
            && (#[trigger] r.units@[i]).id == unit && r.units@[i].owner == nation
            && (#[trigger] r.units@[j]).x == x && r.units@[j].y == y && r.units@[j].owner != nation
            && r.diplomacy.at_war_spec(nation, r.units@[j].owner)
            && 1 <= crate::ai::manhattan_spec(r.units@[i].x, r.units@[i].y, x, y, r.width)
                <= crate::unit::stats_of(r.units@[i].kind).range,
        Command::Embark { unit, transport } => exists|i: int, j: int| 0 <= i < r.units@.len() && 0 <= j < r.units@.len()
            && (#[trigger] r.units@[i]).id == unit && (#[trigger] r.units@[j]).id == transport
            && r.units@[i].owner == nation && r.units@[j].owner == nation
            && !crate::unit::stats_of(r.units@[i].kind).naval && crate::unit::stats_of(r.units@[j].kind).naval
            && crate::ai::aboard(r.holds@, transport) < crate::unit::stats_of(r.units@[j].kind).capacity,
        Command::Disembark { transport, to_x, to_y } => exists|j: int| 0 <= j < r.units@.len()
            && (#[trigger] r.units@[j]).id == transport && r.units@[j].owner == nation
            && crate::ai::aboard(r.holds@, transport) > 0
            && to_x < r.width && to_y < r.height
            && r.plots@[r.idx(to_x, to_y)].kind == crate::tile::TileKind::Land
            && !crate::realm::occupied_spec(r.units@, to_x, to_y),
        Command::Build { x, y, nation: n2, building } => {
            &&& n2 == nation
            &&& building == crate::proto::Building::Port
            &&& x < r.width && y < r.height
            &&& crate::ai::port_site(r, nation, r.idx(x, y))
        },
        _ => false,
    }
}

} // verus!
