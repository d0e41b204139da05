//! Labour regions and provinces: the connected components of the tiles a
//! nation owns (four neighbours, X wraps). The buildings of one region share
//! its pool of workers; the application turns the census of a region into its
//! staffing. The same components, listed with their owners and sizes, are the
//! provinces of the map.
//!
//! Components are found with a union-find whose root is the smallest index of
//! its class, so the labelling is canonical (it does not depend on the order of
//! the unions).

use vstd::prelude::*;

use crate::path::{lemma_nb_in_map, nb_spec, neighbors, opt_int};
use crate::proto::Building;
use crate::realm::Plot;

verus! {

/// A union-find forest over `0..n`: every parent is at most its child.
pub open spec fn forest(root: Seq<u32>) -> bool {
    forall|i: int| 0 <= i < root.len() ==> #[trigger] root[i] <= i
}

/// Representative of `i`: the root reached by following the parents.
pub open spec fn rep(root: Seq<u32>, i: int) -> int
    decreases i,
{
    if i < 0 || i >= root.len() || root[i] >= i {
        i
    } else {
        rep(root, root[i] as int)
    }
}

/// The representative of a node is a root, no larger than the node.
pub proof fn lemma_rep(root: Seq<u32>, i: int)
    requires
        forest(root),
        0 <= i < root.len(),
    ensures
        0 <= rep(root, i) <= i,
        root[rep(root, i)] == rep(root, i),
    decreases i,
{
    if root[i] < i {
        lemma_rep(root, root[i] as int);
    }
}

/// Pointing `i` to its grandparent changes no representative.
proof fn lemma_compress(root: Seq<u32>, i: int, j: int)
    requires
        forest(root),
        0 <= i < root.len(),
        0 <= j < root.len(),
    ensures
        forest(root.update(i, root[root[i] as int])),
        rep(root.update(i, root[root[i] as int]), j) == rep(root, j),
    decreases j,
{
    let r2 = root.update(i, root[root[i] as int]);
    assert(root[root[i] as int] <= root[i]);
    assert forall|k: int| 0 <= k < r2.len() implies #[trigger] r2[k] <= k by {
        if k == i {
            assert(root[root[i] as int] <= root[i]);
        }
    }
    if r2[j] < j {
        lemma_compress(root, i, r2[j] as int);
        if j == i {
            if root[i] < i {
                lemma_compress(root, i, root[i] as int);
            }
        }
    } else if j == i && root[i] < i {
        assert(root[root[i] as int] == root[i]);
    }
}

/// Pointing root `hi` to the smaller root `lo` merges their classes and
/// changes nothing else.
proof fn lemma_link(root: Seq<u32>, lo: int, hi: int, j: int)
    requires
        forest(root),
        0 <= lo < hi < root.len(),
        root[lo] == lo,
        root[hi] == hi,
        0 <= j < root.len(),
    ensures
        forest(root.update(hi, lo as u32)),
        rep(root.update(hi, lo as u32), j) == if rep(root, j) == hi { lo } else { rep(root, j) },
    decreases j,
{
    let r2 = root.update(hi, lo as u32);
    assert forall|k: int| 0 <= k < r2.len() implies #[trigger] r2[k] <= k by {}
    assert(r2[lo] == lo);
    assert(rep(r2, lo) == lo);
    if j == hi {
        assert(rep(r2, hi) == rep(r2, lo));
    } else if root[j] < j {
        lemma_link(root, lo, hi, root[j] as int);
    }
}

/// Representative of `i`, compressing the path on the way.
pub fn find(root: &mut Vec<u32>, i: u32) -> (r: u32)
    requires
        forest(old(root)@),
        i < old(root)@.len(),
    ensures
        forest(final(root)@),
        final(root)@.len() == old(root)@.len(),
        r == rep(old(root)@, i as int),
        forall|j: int| 0 <= j < old(root)@.len() ==> #[trigger] rep(final(root)@, j) == rep(old(root)@, j),
{
    let ghost orig = root@;
    let ghost i0 = i;
    let mut i = i;
    while root[i as usize] != i
        invariant
            forest(root@),
            root@.len() == orig.len(),
            i < root@.len(),
            rep(orig, i as int) == rep(orig, i0 as int),
            forall|j: int| 0 <= j < orig.len() ==> #[trigger] rep(root@, j) == rep(orig, j),
        decreases i,
    {
        let p = root[i as usize];
        let gp = root[p as usize];
        proof {
            assert(rep(root@, i as int) == rep(root@, p as int));
            assert(rep(root@, p as int) == rep(root@, gp as int));
            assert(rep(root@, i as int) == rep(orig, i as int));
            assert(rep(root@, gp as int) == rep(orig, gp as int));
            assert forall|j: int| 0 <= j < orig.len() implies #[trigger] rep(root@.update(i as int, gp), j) == rep(orig, j) by {
                lemma_compress(root@, i as int, j);
            }
            lemma_compress(root@, i as int, i as int);
        }
        root.set(i as usize, gp);
        i = gp;
    }
    assert(rep(root@, i as int) == i as int);
    assert(rep(root@, i as int) == rep(orig, i as int));
    i
}

/// Merges the classes of `a` and `b`; the smaller root stays the root.
pub fn union(root: &mut Vec<u32>, a: u32, b: u32)
    requires
        forest(old(root)@),
        a < old(root)@.len(),
        b < old(root)@.len(),
    ensures
        forest(final(root)@),
        final(root)@.len() == old(root)@.len(),
        ({
            let ra = rep(old(root)@, a as int);
            let rb = rep(old(root)@, b as int);
            let lo = if ra < rb { ra } else { rb };
            let hi = if ra < rb { rb } else { ra };
            forall|j: int| 0 <= j < old(root)@.len() ==> #[trigger] rep(final(root)@, j)
                == if rep(old(root)@, j) == hi { lo } else { rep(old(root)@, j) }
        }),
{
    let ghost orig = root@;
    let ra = find(root, a);
    let rb = find(root, b);
    proof {
        lemma_rep(orig, a as int);
        lemma_rep(orig, b as int);
        lemma_rep(root@, ra as int);
        lemma_rep(root@, rb as int);
    }
    if ra != rb {
        let ghost mid = root@;
        if ra < rb {
            proof {
                assert forall|j: int| 0 <= j < mid.len() implies #[trigger] rep(mid.update(rb as int, ra), j)
                    == if rep(mid, j) == rb { ra as int } else { rep(mid, j) } by {
                    lemma_link(mid, ra as int, rb as int, j);
                }
                lemma_link(mid, ra as int, rb as int, 0);
            }
            root.set(rb as usize, ra);
        } else {
            proof {
                assert forall|j: int| 0 <= j < mid.len() implies #[trigger] rep(mid.update(ra as int, rb), j)
                    == if rep(mid, j) == ra { rb as int } else { rep(mid, j) } by {
                    lemma_link(mid, rb as int, ra as int, j);
                }
                lemma_link(mid, rb as int, ra as int, 0);
            }
            root.set(ra as usize, rb);
        }
    }
}

/// After a union, `a` and `b` have one representative.
pub proof fn lemma_union_joins(old_root: Seq<u32>, new_root: Seq<u32>, a: int, b: int)
    requires
        forest(old_root),
        0 <= a < old_root.len(),
        0 <= b < old_root.len(),
        new_root.len() == old_root.len(),
        ({
            let ra = rep(old_root, a);
            let rb = rep(old_root, b);
            let lo = if ra < rb { ra } else { rb };
            let hi = if ra < rb { rb } else { ra };
            forall|j: int| 0 <= j < old_root.len() ==> #[trigger] rep(new_root, j)
                == if rep(old_root, j) == hi { lo } else { rep(old_root, j) }
        }),
    ensures
        rep(new_root, a) == rep(new_root, b),
{
    assert(rep(new_root, a) == rep(new_root, a));
    assert(rep(new_root, b) == rep(new_root, b));
}

/// A building that employs workers (a city is the source of workers, a road a
/// mere link: neither is a job).
pub open spec fn is_job_spec(b: Building) -> bool {
    match b {
        Building::Industry | Building::Commerce | Building::Education | Building::Military
            | Building::Port | Building::Farm => true,
        Building::City | Building::Infrastructure => false,
    }
}

/// Does building `b` employ workers?
pub fn is_job(b: Building) -> (r: bool)
    ensures
        r == is_job_spec(b),
{
    match b {
        Building::Industry | Building::Commerce | Building::Education | Building::Military
            | Building::Port | Building::Farm => true,
        Building::City | Building::Infrastructure => false,
    }
}

/// Tiles `i` and `v` are owned by one nation.
pub open spec fn same_owner(ps: Seq<Plot>, i: int, v: int) -> bool {
    ps[i].owner is Some && ps[v].owner == ps[i].owner
}

/// Tiles `u` and `v` are side by side (four neighbours, X wraps).
pub open spec fn touching(w: int, h: int, u: int, v: int) -> bool {
    (exists|k: int| 0 <= k < 4 && #[trigger] nb_spec(u, k, w, h) == Some(v))
        || (exists|k: int| 0 <= k < 4 && #[trigger] nb_spec(v, k, w, h) == Some(u))
}

/// `p` walks from tile to touching tile, all of one owner (or all unowned).
pub open spec fn chain(ps: Seq<Plot>, w: int, h: int, p: Seq<int>) -> bool {
    &&& p.len() >= 1
    &&& forall|m: int| 0 <= m < p.len() ==> 0 <= #[trigger] p[m] < ps.len() && ps[p[m]].owner == ps[p[0]].owner
    &&& forall|m: int| 0 <= m < p.len() - 1 ==> touching(w, h, #[trigger] p[m], p[m + 1])
}

/// Tiles `a` and `b` are joined by a walk through tiles of their owner.
pub open spec fn linked(ps: Seq<Plot>, w: int, h: int, a: int, b: int) -> bool {
    exists|p: Seq<int>| #[trigger] chain(ps, w, h, p) && p[0] == a && p[p.len() - 1] == b
}

/// Every tile is linked to itself.
proof fn lemma_linked_refl(ps: Seq<Plot>, w: int, h: int, a: int)
    requires
        0 <= a < ps.len(),
    ensures
        linked(ps, w, h, a, a),
{
    let p = seq![a];
    assert(chain(ps, w, h, p));
}

/// Links go both ways.
proof fn lemma_linked_symm(ps: Seq<Plot>, w: int, h: int, a: int, b: int)
    requires
        linked(ps, w, h, a, b),
    ensures
        linked(ps, w, h, b, a),
{
    let p = choose|p: Seq<int>| #[trigger] chain(ps, w, h, p) && p[0] == a && p[p.len() - 1] == b;
    let n = p.len();
    let q = Seq::new(n, |m: int| p[n - 1 - m]);
    assert forall|m: int| 0 <= m < q.len() implies 0 <= #[trigger] q[m] < ps.len() && ps[q[m]].owner == ps[q[0]].owner by {
        assert(q[m] == p[n - 1 - m]);
        assert(q[0] == p[n - 1]);
    }
    assert forall|m: int| 0 <= m < q.len() - 1 implies touching(w, h, #[trigger] q[m], q[m + 1]) by {
        let j = n - 2 - m;
        assert(touching(w, h, p[j], p[j + 1]));
        assert(q[m] == p[j + 1] && q[m + 1] == p[j]);
    }
    assert(chain(ps, w, h, q));
}

/// Links chain up.
proof fn lemma_linked_trans(ps: Seq<Plot>, w: int, h: int, a: int, b: int, c: int)
    requires
        linked(ps, w, h, a, b),
        linked(ps, w, h, b, c),
    ensures
        linked(ps, w, h, a, c),
{
    let p = choose|p: Seq<int>| #[trigger] chain(ps, w, h, p) && p[0] == a && p[p.len() - 1] == b;
    let q = choose|q: Seq<int>| #[trigger] chain(ps, w, h, q) && q[0] == b && q[q.len() - 1] == c;
    let t = q.drop_first();
    let r = p + t;
    let np = p.len();
    assert(ps[q[0]].owner == ps[p[0]].owner);
    assert forall|m: int| 0 <= m < r.len() implies 0 <= #[trigger] r[m] < ps.len() && ps[r[m]].owner == ps[r[0]].owner by {
        if m < np {
            assert(r[m] == p[m]);
        } else {
            assert(r[m] == q[m - np + 1]);
        }
    }
    assert forall|m: int| 0 <= m < r.len() - 1 implies touching(w, h, #[trigger] r[m], r[m + 1]) by {
        if m < np - 1 {
            assert(r[m] == p[m] && r[m + 1] == p[m + 1]);
        } else if m == np - 1 {
            assert(r[m] == q[0] && r[m + 1] == q[1]);
        } else {
            assert(r[m] == q[m - np + 1] && r[m + 1] == q[m - np + 2]);
        }
    }
    assert(chain(ps, w, h, r));
    if t.len() == 0 {
        assert(r[r.len() - 1] == p[np - 1]);
    } else {
        assert(r[r.len() - 1] == q[q.len() - 1]);
    }
}

/// A neighbour of the same owner is linked.
proof fn lemma_linked_step(ps: Seq<Plot>, w: int, h: int, a: int, k: int, b: int)
    requires
        0 <= a < ps.len(),
        0 <= b < ps.len(),
        0 <= k < 4,
        nb_spec(a, k, w, h) == Some(b),
        ps[a].owner == ps[b].owner,
    ensures
        linked(ps, w, h, a, b),
{
    let p = seq![a, b];
    assert(touching(w, h, p[0], p[1]));
    assert(chain(ps, w, h, p));
}

/// Tiles of one region are linked by a walk through their owner's tiles.
pub proof fn lemma_region_linked(ps: Seq<Plot>, w: int, h: int, label: Seq<u32>, i: int, j: int)
    requires
        labels_regions(ps, w, h, label),
        0 <= i < ps.len(),
        0 <= j < ps.len(),
        label[i] == label[j],
    ensures
        linked(ps, w, h, i, j),
{
    assert(linked(ps, w, h, i, label[i] as int));
    assert(linked(ps, w, h, j, label[j] as int));
    lemma_linked_symm(ps, w, h, j, label[j] as int);
    lemma_linked_trans(ps, w, h, i, label[i] as int, j);
}

/// Tiles linked by a walk through one owner's tiles share their region.
pub proof fn lemma_linked_region(ps: Seq<Plot>, w: int, h: int, label: Seq<u32>, p: Seq<int>)
    requires
        labels_regions(ps, w, h, label),
        chain(ps, w, h, p),
        ps[p[0]].owner is Some,
    ensures
        label[p[0]] == label[p[p.len() - 1]],
    decreases p.len(),
{
    if p.len() > 1 {
        let q = p.drop_last();
        assert forall|m: int| 0 <= m < q.len() implies 0 <= #[trigger] q[m] < ps.len() && ps[q[m]].owner == ps[q[0]].owner by {
            assert(q[m] == p[m]);
        }
        assert forall|m: int| 0 <= m < q.len() - 1 implies touching(w, h, #[trigger] q[m], q[m + 1]) by {
            assert(q[m] == p[m] && q[m + 1] == p[m + 1]);
        }
        assert(chain(ps, w, h, q));
        lemma_linked_region(ps, w, h, label, q);
        let u = p[p.len() - 2];
        let v = p[p.len() - 1];
        assert(touching(w, h, p[p.len() - 2], p[p.len() - 2 + 1]));
        assert(ps[u].owner == ps[p[0]].owner && ps[v].owner == ps[p[0]].owner);
        if exists|k: int| 0 <= k < 4 && #[trigger] nb_spec(u, k, w, h) == Some(v) {
            let k = choose|k: int| 0 <= k < 4 && #[trigger] nb_spec(u, k, w, h) == Some(v);
            assert(same_owner(ps, u, v));
            assert(label[u] == label[nb_spec(u, k, w, h)->0]);
        } else {
            let k = choose|k: int| 0 <= k < 4 && #[trigger] nb_spec(v, k, w, h) == Some(u);
            assert(same_owner(ps, v, u));
            assert(label[v] == label[nb_spec(v, k, w, h)->0]);
        }
    }
}

/// A labelling of the tiles into regions: each label is a tile of its own
/// region, no larger than the tiles it labels, joined to it by a walk through
/// their owner's tiles; adjacent tiles of one owner share their label; an
/// unowned tile is alone.
pub open spec fn labels_regions(ps: Seq<Plot>, w: int, h: int, label: Seq<u32>) -> bool {
    &&& label.len() == ps.len()
    &&& forall|i: int| 0 <= i < ps.len() ==> {
        &&& #[trigger] label[i] <= i
        &&& label[label[i] as int] == label[i]
        &&& ps[i].owner is None ==> label[i] == i
        &&& ps[label[i] as int].owner == ps[i].owner
        &&& linked(ps, w, h, i, label[i] as int)
    }
    &&& forall|i: int, k: int| 0 <= i < ps.len() && 0 <= k < 4 && (#[trigger] nb_spec(i, k, w, h) matches Some(v)
        && same_owner(ps, i, v)) ==> label[i] == label[nb_spec(i, k, w, h)->0]
}

/// Labels every tile with its region (see [`labels_regions`]): the smallest
/// index of the connected tiles of one owner it belongs to.
pub fn regions(plots: &Vec<Plot>, width: u32, height: u32) -> (label: Vec<u32>)
    requires
        width > 0,
        height > 0,
        plots@.len() == width as int * height as int,
        plots@.len() <= u32::MAX,
    ensures
        labels_regions(plots@, width as int, height as int, label@),
{
    let n = plots.len();
    let ghost w = width as int;
    let ghost h = height as int;
    let mut root: Vec<u32> = Vec::new();
    let mut i: usize = 0;
    while i < n
        invariant
            0 <= i <= n,
            n == plots@.len(),
            n <= u32::MAX,
            root@.len() == i,
            forall|j: int| 0 <= j < i ==> #[trigger] root@[j] == j,
        decreases n - i,
    {
        root.push(i as u32);
        i = i + 1;
    }
    proof {
        assert forall|j: int| 0 <= j < n implies linked(plots@, w, h, j, #[trigger] rep(root@, j)) by {
            assert(rep(root@, j) == j);
            lemma_linked_refl(plots@, w, h, j);
        }
    }
    let mut idx: usize = 0;
    while idx < n
        invariant
            0 <= idx <= n,
            n == plots@.len(),
            n == w * h,
            w == width,
            h == height,
            n <= u32::MAX,
            root@.len() == n,
            forest(root@),
            forall|j: int| 0 <= j < n ==> plots@[j].owner is None ==> #[trigger] rep(root@, j) == j,
            forall|j: int| 0 <= j < n ==> plots@[#[trigger] rep(root@, j)].owner == plots@[j].owner,
            forall|j: int| 0 <= j < n ==> linked(plots@, w, h, j, #[trigger] rep(root@, j)),
            forall|j: int, k: int| 0 <= j < idx && 0 <= k < 4 && (#[trigger] nb_spec(j, k, w, h) matches Some(v)
                && same_owner(plots@, j, v)) ==> rep(root@, j) == rep(root@, nb_spec(j, k, w, h)->0),
        decreases n - idx,
    {
        if let Some(owner) = plots[idx].owner {
            let nbs = neighbors(idx, width, height);
            let mut k: usize = 0;
            while k < 4
                invariant
                    0 <= idx < n,
                    0 <= k <= 4,
                    n == plots@.len(),
                    n == w * h,
                    w == width,
                    h == height,
                    n <= u32::MAX,
                    root@.len() == n,
                    forest(root@),
                    plots@[idx as int].owner == Some(owner),
                    forall|k2: int| 0 <= k2 < 4 ==> opt_int(#[trigger] nbs@[k2]) == nb_spec(idx as int, k2, w, h),
                    forall|j: int| 0 <= j < n ==> plots@[j].owner is None ==> #[trigger] rep(root@, j) == j,
                    forall|j: int| 0 <= j < n ==> plots@[#[trigger] rep(root@, j)].owner == plots@[j].owner,
                    forall|j: int| 0 <= j < n ==> linked(plots@, w, h, j, #[trigger] rep(root@, j)),
                    forall|j: int, k2: int| 0 <= j < idx && 0 <= k2 < 4 && (#[trigger] nb_spec(j, k2, w, h) matches Some(v)
                        && same_owner(plots@, j, v)) ==> rep(root@, j) == rep(root@, nb_spec(j, k2, w, h)->0),
                    forall|k2: int| 0 <= k2 < k && (#[trigger] nb_spec(idx as int, k2, w, h) matches Some(v)
                        && same_owner(plots@, idx as int, v)) ==> rep(root@, idx as int) == rep(root@, nb_spec(idx as int, k2, w, h)->0),
                decreases 4 - k,
            {
                proof {
                    lemma_nb_in_map(idx as int, k as int, w, h);
                }
                if let Some(v) = nbs[k] {
                    if plots[v].owner == Some(owner) {
                        let ghost before = root@;
                        union(&mut root, idx as u32, v as u32);
                        proof {
                            lemma_union_joins(before, root@, idx as int, v as int);
                            lemma_rep(before, idx as int);
                            lemma_rep(before, v as int);
                            assert(plots@[rep(before, idx as int)].owner == Some(owner));
                            assert(plots@[rep(before, v as int)].owner == Some(owner));
                            assert forall|j: int| 0 <= j < n && plots@[j].owner is None implies #[trigger] rep(root@, j) == j by {
                                assert(rep(before, j) == j);
                            }
                            assert forall|j: int| 0 <= j < n implies plots@[#[trigger] rep(root@, j)].owner == plots@[j].owner by {
                                assert(plots@[rep(before, j)].owner == plots@[j].owner);
                            }
                            let ra = rep(before, idx as int);
                            let rb = rep(before, v as int);
                            assert(linked(plots@, w, h, idx as int, ra));
                            assert(linked(plots@, w, h, v as int, rb));
                            lemma_linked_step(plots@, w, h, idx as int, k as int, v as int);
                            lemma_linked_symm(plots@, w, h, idx as int, ra);
                            lemma_linked_trans(plots@, w, h, ra, idx as int, v as int);
                            lemma_linked_trans(plots@, w, h, ra, v as int, rb);
                            lemma_linked_symm(plots@, w, h, ra, rb);
                            assert forall|j: int| 0 <= j < n implies linked(plots@, w, h, j, #[trigger] rep(root@, j)) by {
                                assert(linked(plots@, w, h, j, rep(before, j)));
                                if ra < rb && rep(before, j) == rb {
                                    lemma_linked_trans(plots@, w, h, j, rb, ra);
                                } else if rb < ra && rep(before, j) == ra {
                                    lemma_linked_trans(plots@, w, h, j, ra, rb);
                                }
                            }
                        }
                    }
                }
                k = k + 1;
            }
        }
        idx = idx + 1;
    }
    let mut label: Vec<u32> = Vec::new();
    let mut i: usize = 0;
    while i < n
        invariant
            0 <= i <= n,
            n == plots@.len(),
            n <= u32::MAX,
            root@.len() == n,
            forest(root@),
            label@.len() == i,
            forall|j: int| 0 <= j < i ==> #[trigger] label@[j] == rep(root@, j),
            forall|j: int| 0 <= j < n ==> plots@[j].owner is None ==> #[trigger] rep(root@, j) == j,
            forall|j: int| 0 <= j < n ==> plots@[#[trigger] rep(root@, j)].owner == plots@[j].owner,
            forall|j: int| 0 <= j < n ==> linked(plots@, w, h, j, #[trigger] rep(root@, j)),
            forall|j: int, k: int| 0 <= j < n && 0 <= k < 4 && (#[trigger] nb_spec(j, k, w, h) matches Some(v)
                && same_owner(plots@, j, v)) ==> rep(root@, j) == rep(root@, nb_spec(j, k, w, h)->0),
        decreases n - i,
    {
        let ghost before = root@;
        let r = find(&mut root, i as u32);
        proof {
            assert forall|j: int| 0 <= j < i implies #[trigger] label@[j] == rep(root@, j) by {}
            assert forall|j: int| 0 <= j < n implies linked(plots@, w, h, j, #[trigger] rep(root@, j)) by {
                assert(linked(plots@, w, h, j, rep(before, j)));
            }
        }
        label.push(r);
        i = i + 1;
    }
    proof {
        assert forall|j: int| 0 <= j < n implies {
            &&& #[trigger] label@[j] <= j
            &&& label@[label@[j] as int] == label@[j]
            &&& plots@[j].owner is None ==> label@[j] == j
            &&& plots@[label@[j] as int].owner == plots@[j].owner
            &&& linked(plots@, w, h, j, label@[j] as int)
        } by {
            lemma_rep(root@, j);
            lemma_rep(root@, rep(root@, j));
            if rep(root@, j) < j {
            }
        }
    }
    label
}

/// Does owned tile `i` carry a job building?
pub open spec fn job_at(ps: Seq<Plot>, i: int) -> bool {
    ps[i].owner is Some && (ps[i].building matches Some(b) && is_job_spec(b))
}

/// Number of job buildings among the first `n` tiles labelled `r`.
pub open spec fn jobs_upto(ps: Seq<Plot>, label: Seq<u32>, r: int, n: int) -> nat
    decreases n,
{
    if n <= 0 {
        0
    } else {
        jobs_upto(ps, label, r, n - 1) + if label[n - 1] == r && job_at(ps, n - 1) { 1nat } else { 0nat }
    }
}

/// Is owned tile `i` a commerce?
pub open spec fn commerce_at(ps: Seq<Plot>, i: int) -> bool {
    ps[i].owner is Some && ps[i].building == Some(Building::Commerce)
}

proof fn lemma_jobs_bound(ps: Seq<Plot>, label: Seq<u32>, r: int, n: int)
    requires
        n >= 0,
    ensures
        jobs_upto(ps, label, r, n) <= n,
    decreases n,
{
    if n > 0 {
        lemma_jobs_bound(ps, label, r, n - 1);
    }
}

/// Census of the regions labelled by `label` (see [`regions`]): for each
/// region, found at the index of its label, the number of job buildings and
/// whether it holds a commerce.
pub fn census(plots: &Vec<Plot>, label: &Vec<u32>) -> (r: (Vec<u32>, Vec<bool>))
    requires
        label@.len() == plots@.len(),
        plots@.len() <= u32::MAX,
        forall|i: int| 0 <= i < label@.len() ==> #[trigger] label@[i] < label@.len(),
    ensures
        r.0@.len() == plots@.len(),
        r.1@.len() == plots@.len(),
        forall|g: int| 0 <= g < plots@.len() ==> #[trigger] r.0@[g] == jobs_upto(plots@, label@, g, plots@.len() as int),
        forall|g: int| 0 <= g < plots@.len() ==> (#[trigger] r.1@[g] <==> exists|i: int| 0 <= i < plots@.len()
            && label@[i] == g && commerce_at(plots@, i)),
{
    let n = plots.len();
    let mut jobs: Vec<u32> = Vec::new();
    let mut commerce: Vec<bool> = Vec::new();
    let mut i: usize = 0;
    while i < n
        invariant
            0 <= i <= n,
            n == plots@.len(),
            jobs@.len() == i,
            commerce@.len() == i,
            forall|g: int| 0 <= g < i ==> #[trigger] jobs@[g] == 0,
            forall|g: int| 0 <= g < i ==> !#[trigger] commerce@[g],
        decreases n - i,
    {
        jobs.push(0);
        commerce.push(false);
        i = i + 1;
    }
    let mut i: usize = 0;
    while i < n
        invariant
            0 <= i <= n,
            n == plots@.len(),
            n <= u32::MAX,
            label@.len() == n,
            forall|j: int| 0 <= j < n ==> #[trigger] label@[j] < n,
            jobs@.len() == n,
            commerce@.len() == n,
            forall|g: int| 0 <= g < n ==> #[trigger] jobs@[g] == jobs_upto(plots@, label@, g, i as int),
            forall|g: int| 0 <= g < n ==> (#[trigger] commerce@[g] <==> exists|j: int| 0 <= j < i
                && label@[j] == g && commerce_at(plots@, j)),
        decreases n - i,
    {
        let g = label[i] as usize;
        let p = plots[i];
        if p.owner.is_some() {
            if let Some(b) = p.building {
                if is_job(b) {
                    proof {
                        lemma_jobs_bound(plots@, label@, g as int, i as int);
                    }
                    let c = jobs[g];
                    jobs.set(g, c + 1);
                }
                if b == Building::Commerce {
                    commerce.set(g, true);
                }
            }
        }
        proof {
            assert forall|g2: int| 0 <= g2 < n implies (#[trigger] commerce@[g2] <==> exists|j: int| 0 <= j < i + 1
                && label@[j] == g2 && commerce_at(plots@, j)) by {
                if commerce@[g2] && !(exists|j: int| 0 <= j < i && label@[j] == g2 && commerce_at(plots@, j)) {
                    assert(label@[i as int] == g2 && commerce_at(plots@, i as int));
                }
                if exists|j: int| 0 <= j < i + 1 && label@[j] == g2 && commerce_at(plots@, j) {
                    let j = choose|j: int| 0 <= j < i + 1 && label@[j] == g2 && commerce_at(plots@, j);
                    if j == i {
                        assert(g2 == g);
                    }
                }
            }
        }
        i = i + 1;
    }
    (jobs, commerce)
}

/// A province: a region of tiles of one owner, named by its smallest tile.
#[derive(Debug, Clone, Copy, PartialEq, Eq)]
pub struct Province {
    pub owner: u16,
    pub root: u32,
    pub tiles: u32,
}

/// Owned tiles among the first `k` that start their region (in tile order).
pub open spec fn roots_upto(ps: Seq<Plot>, label: Seq<u32>, k: int) -> Seq<int>
    decreases k,
{
    if k <= 0 {
        Seq::empty()
    } else if ps[k - 1].owner is Some && label[k - 1] == k - 1 {
        roots_upto(ps, label, k - 1).push(k - 1)
    } else {
        roots_upto(ps, label, k - 1)
    }
}

/// Owned tiles among the first `k` labelled `r`.
pub open spec fn label_count(ps: Seq<Plot>, label: Seq<u32>, r: int, k: int) -> int
    decreases k,
{
    if k <= 0 {
        0
    } else {
        label_count(ps, label, r, k - 1) + if ps[k - 1].owner is Some && label[k - 1] == r { 1int } else { 0 }
    }
}

/// Owned tiles among the first `k`.
pub open spec fn owned_count(ps: Seq<Plot>, k: int) -> int
    decreases k,
{
    if k <= 0 {
        0
    } else {
        owned_count(ps, k - 1) + if ps[k - 1].owner is Some { 1int } else { 0 }
    }
}

/// The provinces of a labelling: one per region, in the order of their first
/// tile, with its owner and its number of tiles.
pub open spec fn province_list(ps: Seq<Plot>, label: Seq<u32>) -> Seq<Province> {
    roots_upto(ps, label, ps.len() as int).map(|p: int, r: int| Province {
        owner: ps[r].owner->0,
        root: r as u32,
        tiles: label_count(ps, label, r, ps.len() as int) as u32,
    })
}

proof fn lemma_roots_upto(ps: Seq<Plot>, label: Seq<u32>, k: int)
    requires
        0 <= k <= ps.len(),
        label.len() == ps.len(),
    ensures
        forall|p: int| 0 <= p < roots_upto(ps, label, k).len() ==> {
            let r = #[trigger] roots_upto(ps, label, k)[p];
            &&& 0 <= r < k
            &&& ps[r].owner is Some
            &&& label[r] == r
        },
        forall|p: int, q: int| 0 <= p < q < roots_upto(ps, label, k).len()
            ==> #[trigger] roots_upto(ps, label, k)[p] < #[trigger] roots_upto(ps, label, k)[q],
        forall|r: int| 0 <= r < k && ps[r].owner is Some && label[r] == r
            ==> #[trigger] roots_upto(ps, label, k).contains(r),
    decreases k,
{
    if k > 0 {
        lemma_roots_upto(ps, label, k - 1);
        let prev = roots_upto(ps, label, k - 1);
        if ps[k - 1].owner is Some && label[k - 1] == k - 1 {
            assert forall|r: int| 0 <= r < k && ps[r].owner is Some && label[r] == r
                implies #[trigger] roots_upto(ps, label, k).contains(r) by {
                if r < k - 1 {
                    assert(prev.contains(r));
                    let p = choose|p: int| 0 <= p < prev.len() && prev[p] == r;
                    assert(roots_upto(ps, label, k)[p] == r);
                } else {
                    assert(roots_upto(ps, label, k)[prev.len() as int] == r);
                }
            }
        }
    }
}

proof fn lemma_label_count_bound(ps: Seq<Plot>, label: Seq<u32>, r: int, k: int)
    requires
        0 <= k,
    ensures
        0 <= label_count(ps, label, r, k) <= k,
    decreases k,
{
    if k > 0 {
        lemma_label_count_bound(ps, label, r, k - 1);
    }
}

/// The provinces of the realm's tiles (see [`province_list`]) under the
/// region labelling, which is returned too.
pub fn provinces(plots: &Vec<Plot>, width: u32, height: u32) -> (r: (Vec<u32>, Vec<Province>))
    requires
        width > 0,
        height > 0,
        plots@.len() == width as int * height as int,
        plots@.len() <= u32::MAX,
    ensures
        labels_regions(plots@, width as int, height as int, r.0@),
        r.1@ == province_list(plots@, r.0@),
{
    let label = regions(plots, width, height);
    let n = plots.len();
    let ghost ps = plots@;
    let mut pos: Vec<usize> = Vec::new();
    let mut out: Vec<Province> = Vec::new();
    let mut i: usize = 0;
    while i < n
        invariant
            n == ps.len(),
            n <= u32::MAX,
            ps == plots@,
            labels_regions(ps, width as int, height as int, label@),
            0 <= i <= n,
            pos@.len() == i,
            out@.len() == roots_upto(ps, label@, i as int).len(),
            forall|p: int| 0 <= p < out@.len() ==> {
                let rt = roots_upto(ps, label@, i as int)[p];
                &&& (#[trigger] out@[p]).root == rt
                &&& out@[p].owner == ps[rt].owner->0
                &&& out@[p].tiles == 0
            },
            forall|j: int| 0 <= j < i && ps[j].owner is Some && label@[j] == j
                ==> #[trigger] pos@[j] < out@.len() && roots_upto(ps, label@, i as int)[pos@[j] as int] == j,
        decreases n - i,
    {
        let ghost before = roots_upto(ps, label@, i as int);
        if plots[i].owner.is_some() && label[i] as usize == i {
            pos.push(out.len());
            out.push(Province { owner: plots[i].owner.unwrap(), root: i as u32, tiles: 0 });
            proof {
                assert(roots_upto(ps, label@, i + 1) == before.push(i as int));
            }
        } else {
            pos.push(0);
            proof {
                assert(roots_upto(ps, label@, i + 1) == before);
            }
        }
        proof {
            let now = roots_upto(ps, label@, i + 1);
            assert forall|j: int| 0 <= j < i + 1 && ps[j].owner is Some && label@[j] == j
                implies #[trigger] pos@[j] < out@.len() && now[pos@[j] as int] == j by {
                if j < i {
                    assert(pos@[j] == pos@[j]);
                }
            }
        }
        i = i + 1;
    }
    let ghost roots = roots_upto(ps, label@, n as int);
    proof {
        lemma_roots_upto(ps, label@, n as int);
    }
    let mut i: usize = 0;
    while i < n
        invariant
            n == ps.len(),
            n <= u32::MAX,
            ps == plots@,
            labels_regions(ps, width as int, height as int, label@),
            0 <= i <= n,
            pos@.len() == n,
            roots == roots_upto(ps, label@, n as int),
            out@.len() == roots.len(),
            forall|p: int| 0 <= p < out@.len() ==> {
                let rt = roots[p];
                &&& (#[trigger] out@[p]).root == rt
                &&& out@[p].owner == ps[rt].owner->0
                &&& out@[p].tiles == label_count(ps, label@, rt, i as int)
            },
            forall|j: int| 0 <= j < n && ps[j].owner is Some && label@[j] == j
                ==> #[trigger] pos@[j] < out@.len() && roots[pos@[j] as int] == j,
            forall|p: int| 0 <= p < roots.len() ==> {
                let rt = #[trigger] roots[p];
                &&& 0 <= rt < n
                &&& ps[rt].owner is Some
                &&& label@[rt] == rt
            },
            forall|p: int, q: int| 0 <= p < q < roots.len() ==> #[trigger] roots[p] < #[trigger] roots[q],
        decreases n - i,
    {
        if plots[i].owner.is_some() {
            let l = label[i] as usize;
            proof {
                assert(label@[i as int] <= i);
                assert(label@[label@[i as int] as int] == label@[i as int]);
                assert(ps[label@[i as int] as int].owner == ps[i as int].owner);
            }
            let p = pos[l];
            proof {
                lemma_label_count_bound(ps, label@, l as int, i as int);
            }
            let mut q = out[p];
            q.tiles = q.tiles + 1;
            out.set(p, q);
            proof {
                assert forall|p2: int| 0 <= p2 < out@.len() implies
                    (#[trigger] out@[p2]).tiles == label_count(ps, label@, roots[p2], i + 1) by {
                    if p2 != p {
                        assert(roots[p2] != l);
                    }
                }
            }
        }
        i = i + 1;
    }
    proof {
        assert(out@ =~= province_list(ps, label@));
    }
    (label, out)
}

/// Number of tiles of the provinces of `l`.
pub open spec fn total_tiles(l: Seq<Province>) -> int
    decreases l.len(),
{
    if l.len() == 0 {
        0
    } else {
        total_tiles(l.drop_last()) + l.last().tiles
    }
}

/// Owned tiles among the first `k` labelled by one of `roots`.
pub open spec fn count_sum(ps: Seq<Plot>, label: Seq<u32>, roots: Seq<int>, k: int) -> int
    decreases roots.len(),
{
    if roots.len() == 0 {
        0
    } else {
        count_sum(ps, label, roots.drop_last(), k) + label_count(ps, label, roots.last(), k)
    }
}

proof fn lemma_count_sum_step(ps: Seq<Plot>, label: Seq<u32>, roots: Seq<int>, k: int)
    requires
        0 <= k,
        forall|p: int, q: int| 0 <= p < q < roots.len() ==> #[trigger] roots[p] < #[trigger] roots[q],
    ensures
        count_sum(ps, label, roots, k + 1) == count_sum(ps, label, roots, k)
            + if ps[k].owner is Some && roots.contains(label[k] as int) { 1int } else { 0 },
    decreases roots.len(),
{
    if roots.len() > 0 {
        let d = roots.drop_last();
        assert forall|p: int, q: int| 0 <= p < q < d.len() implies #[trigger] d[p] < #[trigger] d[q] by {
            assert(d[p] == roots[p] && d[q] == roots[q]);
        }
        lemma_count_sum_step(ps, label, d, k);
        let r = roots.last();
        if roots.contains(label[k] as int) {
            let p = choose|p: int| 0 <= p < roots.len() && roots[p] == label[k] as int;
            if p < roots.len() - 1 {
                assert(d[p] == roots[p]);
                assert(d.contains(label[k] as int));
                assert(roots[p] < roots[roots.len() - 1]);
            } else {
                if d.contains(label[k] as int) {
                    let q = choose|q: int| 0 <= q < d.len() && d[q] == label[k] as int;
                    assert(roots[q] < roots[roots.len() - 1]);
                }
            }
        } else {
            if d.contains(label[k] as int) {
                let q = choose|q: int| 0 <= q < d.len() && d[q] == label[k] as int;
                assert(roots[q] == label[k] as int);
            }
        }
    }
}

proof fn lemma_count_sum_zero(ps: Seq<Plot>, label: Seq<u32>, roots: Seq<int>)
    ensures
        count_sum(ps, label, roots, 0) == 0,
    decreases roots.len(),
{
    if roots.len() > 0 {
        lemma_count_sum_zero(ps, label, roots.drop_last());
    }
}

proof fn lemma_total_is_sum(ps: Seq<Plot>, label: Seq<u32>, roots: Seq<int>)
    requires
        ps.len() <= u32::MAX,
    ensures
        total_tiles(roots.map(|p: int, r: int| Province {
            owner: ps[r].owner->0,
            root: r as u32,
            tiles: label_count(ps, label, r, ps.len() as int) as u32,
        })) == count_sum(ps, label, roots, ps.len() as int),
    decreases roots.len(),
{
    let f = |p: int, r: int| Province {
        owner: ps[r].owner->0,
        root: r as u32,
        tiles: label_count(ps, label, r, ps.len() as int) as u32,
    };
    if roots.len() > 0 {
        lemma_total_is_sum(ps, label, roots.drop_last());
        assert(roots.map(f).drop_last() =~= roots.drop_last().map(f));
        lemma_label_count_bound(ps, label, roots.last(), ps.len() as int);
    }
}

/// The tiles of the regions, counted over the first `k` tiles, are the
/// owned tiles among them.
proof fn lemma_cover_upto(ps: Seq<Plot>, w: int, h: int, label: Seq<u32>, k: int)
    requires
        labels_regions(ps, w, h, label),
        0 <= k <= ps.len(),
    ensures
        count_sum(ps, label, roots_upto(ps, label, ps.len() as int), k) == owned_count(ps, k),
    decreases k,
{
    let n = ps.len() as int;
    let roots = roots_upto(ps, label, n);
    lemma_roots_upto(ps, label, n);
    if k == 0 {
        lemma_count_sum_zero(ps, label, roots);
    } else {
        lemma_cover_upto(ps, w, h, label, k - 1);
        lemma_count_sum_step(ps, label, roots, k - 1);
        if ps[k - 1].owner is Some {
            let l = label[k - 1] as int;
            assert(label[k - 1] <= k - 1);
            assert(label[l] == l);
            assert(ps[l].owner == ps[k - 1].owner);
            assert(roots.contains(l));
        }
    }
}

/// Every owned tile lies in exactly one province: the tiles of the provinces
/// add up to the number of owned tiles (and each province is the connected
/// region of its first tile, see [`labels_regions`]).
pub proof fn lemma_provinces_cover(ps: Seq<Plot>, w: int, h: int, label: Seq<u32>)
    requires
        labels_regions(ps, w, h, label),
        ps.len() <= u32::MAX,
    ensures
        total_tiles(province_list(ps, label)) == owned_count(ps, ps.len() as int),
{
    let roots = roots_upto(ps, label, ps.len() as int);
    lemma_total_is_sum(ps, label, roots);
    lemma_cover_upto(ps, w, h, label, ps.len() as int);
}

} // verus!
