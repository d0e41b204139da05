//! Border friction: the pairs of nations whose territories touch. Each month,
//! every nation holds a small grievance against each neighbour across its
//! borders; the pairs come out sorted, once each, so the grievances are
//! raised in a stable order and the state replays bit for bit.

use vstd::prelude::*;

use crate::path::{lemma_nb_in_map, nb_spec, neighbors, opt_int};
use crate::realm::Plot;

verus! {

/// Pair `a` sorts strictly before pair `b` (first member, then second).
pub open spec fn pair_lt(a: (u16, u16), b: (u16, u16)) -> bool {
    a.0 < b.0 || (a.0 == b.0 && a.1 < b.1)
}

/// Strictly increasing pairs: sorted, each one once.
pub open spec fn sorted_pairs(s: Seq<(u16, u16)>) -> bool {
    forall|a: int, b: int| 0 <= a < b < s.len() ==> pair_lt(#[trigger] s[a], #[trigger] s[b])
}

/// The `k`-th neighbour of tile `i` belongs to `p.1`, and tile `i` to `p.0`,
/// another nation.
pub open spec fn hit(ps: Seq<Plot>, w: int, h: int, i: int, k: int, p: (u16, u16)) -> bool {
    &&& ps[i].owner == Some(p.0)
    &&& p.0 != p.1
    &&& nb_spec(i, k, w, h) matches Some(v) && ps[v].owner == Some(p.1)
}

/// The pair `p` is found among the neighbours of the tiles before `i`, or
/// among the first `k` neighbours of tile `i`.
pub open spec fn seen(ps: Seq<Plot>, w: int, h: int, i: int, k: int, p: (u16, u16)) -> bool {
    exists|j: int, q: int| ((0 <= j < i && 0 <= q < 4) || (j == i && 0 <= q < k)) && #[trigger] hit(ps, w, h, j, q, p)
}

/// The territories of `p.0` and `p.1` touch: a tile of the first has a
/// neighbour of the second.
pub open spec fn borders(ps: Seq<Plot>, w: int, h: int, p: (u16, u16)) -> bool {
    seen(ps, w, h, ps.len() as int, 0, p)
}

/// Adds `p` to a strictly increasing sequence of pairs, at its place.
fn insert_pair(v: &mut Vec<(u16, u16)>, p: (u16, u16))
    requires
        sorted_pairs(old(v)@),
    ensures
        sorted_pairs(final(v)@),
        forall|q: (u16, u16)| final(v)@.contains(q) <==> (old(v)@.contains(q) || q == p),
{
    let mut j: usize = 0;
    while j < v.len()
        invariant
            0 <= j <= v@.len(),
            v@ == old(v)@,
            sorted_pairs(v@),
            forall|a: int| 0 <= a < j ==> pair_lt(#[trigger] v@[a], p),
        ensures
            0 <= j <= v@.len(),
            forall|a: int| 0 <= a < j ==> pair_lt(#[trigger] v@[a], p),
            j < v@.len() ==> !pair_lt(v@[j as int], p),
        decreases v.len() - j,
    {
        let c = v[j];
        if !(c.0 < p.0 || (c.0 == p.0 && c.1 < p.1)) {
            break;
        }
        j = j + 1;
    }
    let ghost s0 = v@;
    if j < v.len() && v[j].0 == p.0 && v[j].1 == p.1 {
        proof {
            assert(s0[j as int] == p);
            assert(v@.contains(p));
            assert(v@ == old(v)@);
        }
        return;
    }
    proof {
        assert(j < s0.len() ==> pair_lt(p, s0[j as int]));
        assert forall|a: int| j <= a < s0.len() implies pair_lt(p, #[trigger] s0[a]) by {
            if a > j {
                assert(pair_lt(s0[j as int], s0[a]));
            }
        }
    }
    v.insert(j, p);
    proof {
        lemma_insert_sorted(s0, j as int, p);
    }
}

/// Inserting `p` at the place it sorts keeps the pairs strictly increasing
/// and adds exactly `p`.
proof fn lemma_insert_sorted(s0: Seq<(u16, u16)>, j: int, p: (u16, u16))
    requires
        0 <= j <= s0.len(),
        sorted_pairs(s0),
        forall|a: int| 0 <= a < j ==> pair_lt(#[trigger] s0[a], p),
        forall|a: int| j <= a < s0.len() ==> pair_lt(p, #[trigger] s0[a]),
    ensures
        sorted_pairs(s0.insert(j, p)),
        forall|q: (u16, u16)| s0.insert(j, p).contains(q) <==> (s0.contains(q) || q == p),
{
    let v = s0.insert(j, p);
    assert forall|a: int, b: int| 0 <= a < b < v.len() implies pair_lt(#[trigger] v[a], #[trigger] v[b]) by {
        if a < j && b < j {
            assert(v[a] == s0[a] && v[b] == s0[b]);
        } else if a < j && b == j {
        } else if a < j && b > j {
            assert(v[b] == s0[b - 1]);
        } else if a == j {
            assert(v[b] == s0[b - 1]);
        } else {
            assert(v[a] == s0[a - 1] && v[b] == s0[b - 1]);
        }
    }
    assert forall|q: (u16, u16)| v.contains(q) <==> (s0.contains(q) || q == p) by {
        if v.contains(q) {
            let a = choose|a: int| 0 <= a < v.len() && v[a] == q;
            if a < j {
                assert(s0[a] == q);
            } else if a > j {
                assert(s0[a - 1] == q);
            }
        }
        if s0.contains(q) {
            let a = choose|a: int| 0 <= a < s0.len() && s0[a] == q;
            if a < j {
                assert(v[a] == q);
            } else {
                assert(v[a + 1] == q);
            }
        }
        if q == p {
            assert(v[j] == q);
        }
    }
}

/// The pairs (nation, neighbour) whose territories touch, sorted, each once.
pub fn border_pairs(plots: &Vec<Plot>, width: u32, height: u32) -> (out: Vec<(u16, u16)>)
    requires
        width > 0,
        height > 0,
        plots@.len() == width as int * height as int,
        width as int * height as int <= usize::MAX,
    ensures
        sorted_pairs(out@),
        forall|p: (u16, u16)| out@.contains(p) <==> borders(plots@, width as int, height as int, p),
{
    let ghost w = width as int;
    let ghost h = height as int;
    let mut out: Vec<(u16, u16)> = Vec::new();
    let mut i: usize = 0;
    while i < plots.len()
        invariant
            w == width as int,
            h == height as int,
            width > 0,
            height > 0,
            plots@.len() == w * h,
            w * h <= usize::MAX,
            0 <= i <= plots@.len(),
            sorted_pairs(out@),
            forall|p: (u16, u16)| out@.contains(p) <==> seen(plots@, w, h, i as int, 0, p),
        decreases plots.len() - i,
    {
        if let Some(o) = plots[i].owner {
            let nbs = neighbors(i, width, height);
            let mut k: usize = 0;
            while k < 4
                invariant
                    w == width as int,
                    h == height as int,
                    plots@.len() == w * h,
                    0 <= i < plots@.len(),
                    plots@[i as int].owner == Some(o),
                    0 <= k <= 4,
                    forall|k2: int| 0 <= k2 < 4 ==> opt_int(#[trigger] nbs@[k2]) == nb_spec(i as int, k2, w, h),
                    sorted_pairs(out@),
                    forall|p: (u16, u16)| out@.contains(p) <==> seen(plots@, w, h, i as int, k as int, p),
                decreases 4 - k,
            {
                proof {
                    lemma_nb_in_map(i as int, k as int, w, h);
                }
                let ghost before = out@;
                if let Some(v) = nbs[k] {
                    if let Some(m) = plots[v].owner {
                        if m != o {
                            insert_pair(&mut out, (o, m));
                        }
                    }
                }
                proof {
                    assert forall|p: (u16, u16)| out@.contains(p) <==> seen(plots@, w, h, i as int, k + 1, p) by {
                        if seen(plots@, w, h, i as int, k + 1, p) {
                            let (j, q) = choose|j: int, q: int| ((0 <= j < i && 0 <= q < 4) || (j == i && 0 <= q < k + 1))
                                && #[trigger] hit(plots@, w, h, j, q, p);
                            if !(j == i && q == k) {
                                assert(seen(plots@, w, h, i as int, k as int, p));
                            }
                        }
                        if before.contains(p) {
                            let (j, q) = choose|j: int, q: int| ((0 <= j < i && 0 <= q < 4) || (j == i && 0 <= q < k))
                                && #[trigger] hit(plots@, w, h, j, q, p);
                            assert(seen(plots@, w, h, i as int, k + 1, p));
                        }
                        if hit(plots@, w, h, i as int, k as int, p) {
                            assert(seen(plots@, w, h, i as int, k + 1, p));
                        }
                    }
                }
                k = k + 1;
            }
            proof {
                assert forall|p: (u16, u16)| seen(plots@, w, h, i as int, 4, p) <==> seen(plots@, w, h, i + 1, 0, p) by {
                    if seen(plots@, w, h, i as int, 4, p) {
                        let (j, q) = choose|j: int, q: int| ((0 <= j < i && 0 <= q < 4) || (j == i && 0 <= q < 4))
                            && #[trigger] hit(plots@, w, h, j, q, p);
                        assert(seen(plots@, w, h, i + 1, 0, p));
                    }
                    if seen(plots@, w, h, i + 1, 0, p) {
                        let (j, q) = choose|j: int, q: int| ((0 <= j < i + 1 && 0 <= q < 4) || (j == i + 1 && 0 <= q < 0))
                            && #[trigger] hit(plots@, w, h, j, q, p);
                        assert(seen(plots@, w, h, i as int, 4, p));
                    }
                }
            }
        } else {
            proof {
                assert forall|p: (u16, u16)| seen(plots@, w, h, i as int, 0, p) <==> seen(plots@, w, h, i + 1, 0, p) by {
                    if seen(plots@, w, h, i + 1, 0, p) {
                        let (j, q) = choose|j: int, q: int| ((0 <= j < i + 1 && 0 <= q < 4) || (j == i + 1 && 0 <= q < 0))
                            && #[trigger] hit(plots@, w, h, j, q, p);
                        assert(j != i);
                        assert(seen(plots@, w, h, i as int, 0, p));
                    }
                    if seen(plots@, w, h, i as int, 0, p) {
                        let (j, q) = choose|j: int, q: int| ((0 <= j < i && 0 <= q < 4) || (j == i && 0 <= q < 0))
                            && #[trigger] hit(plots@, w, h, j, q, p);
                        assert(seen(plots@, w, h, i + 1, 0, p));
                    }
                }
            }
        }
        i = i + 1;
    }
    out
}

} // verus!
