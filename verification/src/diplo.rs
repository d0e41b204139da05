//! Diplomacy: the set of wars between nations. Pairs are normalised (smaller id
//! first) and kept in declaration order, so the audit checksum is stable.

use vstd::prelude::*;

verus! {

/// Normalised (smaller id first) form of an unordered pair of nations.
pub open spec fn spec_pair(a: u16, b: u16) -> (u16, u16) {
    if a < b {
        (a, b)
    } else {
        (b, a)
    }
}

/// `ws` without the pair `p` (the list is unchanged when `p` is absent).
pub open spec fn drop_pair(ws: Seq<(u16, u16)>, p: (u16, u16)) -> Seq<(u16, u16)> {
    if ws.contains(p) {
        ws.remove(choose|k: int| 0 <= k < ws.len() && ws[k] == p)
    } else {
        ws
    }
}

/// `ws` with the pair `p` listed (appended when absent).
pub open spec fn add_pair(ws: Seq<(u16, u16)>, p: (u16, u16)) -> Seq<(u16, u16)> {
    if ws.contains(p) {
        ws
    } else {
        ws.push(p)
    }
}

/// The wars in progress.
#[derive(Debug, Clone, PartialEq, Eq)]
pub struct Diplomacy {
    wars: Vec<(u16, u16)>,
}

impl View for Diplomacy {
    type V = Seq<(u16, u16)>;

    closed spec fn view(&self) -> Seq<(u16, u16)> {
        self.wars@
    }
}

impl Diplomacy {
    /// Well-formedness: pairs are normalised and listed once.
    pub open spec fn wf(&self) -> bool {
        &&& forall|i: int| 0 <= i < self@.len() ==> (#[trigger] self@[i]).0 <= self@[i].1
        &&& self@.no_duplicates()
    }

    /// Checks [`Diplomacy::wf`] (for a state read back from outside).
    pub fn is_sound(&self) -> (b: bool)
        ensures
            b == self.wf(),
    {
        let n = self.wars.len();
        let mut i: usize = 0;
        while i < n
            invariant
                n == self@.len(),
                self@ == self.wars@,
                0 <= i <= n,
                forall|a: int| 0 <= a < i ==> (#[trigger] self@[a]).0 <= self@[a].1,
                forall|a: int, b: int| 0 <= a < i && 0 <= b < i && a != b ==> #[trigger] self@[a] != #[trigger] self@[b],
            decreases n - i,
        {
            let p = self.wars[i];
            if p.0 > p.1 {
                return false;
            }
            let mut j: usize = 0;
            while j < i
                invariant
                    n == self@.len(),
                    self@ == self.wars@,
                    0 <= j <= i < n,
                    p == self@[i as int],
                    forall|b: int| 0 <= b < j ==> self@[i as int] != #[trigger] self@[b],
                decreases i - j,
            {
                let q = self.wars[j];
                if q.0 == p.0 && q.1 == p.1 {
                    proof {
                        assert(self@[j as int] == self@[i as int]);
                        assert(!self@.no_duplicates());
                    }
                    return false;
                }
                j = j + 1;
            }
            i = i + 1;
        }
        true
    }

    /// Are `a` and `b` at war?
    pub open spec fn at_war_spec(&self, a: u16, b: u16) -> bool {
        self@.contains(spec_pair(a, b))
    }

    /// No war at all.
    pub fn new() -> (d: Self)
        ensures
            d@ == Seq::<(u16, u16)>::empty(),
            d.wf(),
    {
        Diplomacy { wars: Vec::new() }
    }

    fn pair(a: u16, b: u16) -> (p: (u16, u16))
        ensures
            p == spec_pair(a, b),
    {
        if a < b {
            (a, b)
        } else {
            (b, a)
        }
    }

    /// Are the two nations at war?
    pub fn at_war(&self, a: u16, b: u16) -> (r: bool)
        ensures
            r == self.at_war_spec(a, b),
    {
        let p = Self::pair(a, b);
        let mut i: usize = 0;
        while i < self.wars.len()
            invariant
                0 <= i <= self.wars.len(),
                p == spec_pair(a, b),
                forall|j: int| 0 <= j < i ==> self.wars@[j] != p,
            decreases self.wars.len() - i,
        {
            if self.wars[i].0 == p.0 && self.wars[i].1 == p.1 {
                assert(self@[i as int] == p);
                return true;
            }
            i = i + 1;
        }
        false
    }

    /// Turns the state of war between two nations on or off. A new war is listed
    /// after the existing ones; ending a war keeps the others in order.
    pub fn set_war(&mut self, a: u16, b: u16, on: bool)
        requires
            old(self).wf(),
        ensures
            final(self).wf(),
            on ==> final(self)@ == add_pair(old(self)@, spec_pair(a, b)),
            !on ==> final(self)@ == drop_pair(old(self)@, spec_pair(a, b)),
    {
        let p = Self::pair(a, b);
        if on {
            if !self.at_war(a, b) {
                self.wars.push(p);
                proof {
                    assert forall|i: int, j: int|
                        0 <= i < self@.len() && 0 <= j < self@.len() && i != j implies
                        self@[i] != self@[j] by {
                        if i < self@.len() - 1 && j < self@.len() - 1 {
                        } else if i == self@.len() - 1 {
                            assert(old(self)@[j] == self@[j]);
                        } else {
                            assert(old(self)@[i] == self@[i]);
                        }
                    }
                }
            }
        } else {
            let mut i: usize = 0;
            while i < self.wars.len()
                invariant
                    0 <= i <= self.wars.len(),
                    self.wars@ == old(self)@,
                    old(self).wf(),
                    !on,
                    p == spec_pair(a, b),
                    forall|j: int| 0 <= j < i ==> self.wars@[j] != p,
                decreases self.wars.len() - i,
            {
                if self.wars[i].0 == p.0 && self.wars[i].1 == p.1 {
                    let ghost before = self.wars@;
                    proof {
                        assert(before[i as int] == p);
                        let k = choose|k: int| 0 <= k < before.len() && before[k] == p;
                        if k != i {
                            assert(before[k] == before[i as int]);
                        }
                    }
                    self.wars.remove(i);
                    proof {
                        assert forall|x: int, y: int|
                            0 <= x < self@.len() && 0 <= y < self@.len() && x != y implies
                            self@[x] != self@[y] by {
                            let xo = if x < i { x } else { x + 1 };
                            let yo = if y < i { y } else { y + 1 };
                            assert(self@[x] == before[xo]);
                            assert(self@[y] == before[yo]);
                        }
                        assert forall|x: int| 0 <= x < self@.len() implies
                            (#[trigger] self@[x]).0 <= self@[x].1 by {
                            let xo = if x < i { x } else { x + 1 };
                            assert(self@[x] == before[xo]);
                        }
                    }
                    return;
                }
                i = i + 1;
            }
        }
    }

    /// A copy of the pairs at war, in declaration order.
    pub fn snapshot(&self) -> (v: Vec<(u16, u16)>)
        ensures
            v@ == self@,
    {
        let mut v: Vec<(u16, u16)> = Vec::new();
        let mut i: usize = 0;
        while i < self.wars.len()
            invariant
                0 <= i <= self.wars.len(),
                v@ == self.wars@.take(i as int),
            decreases self.wars.len() - i,
        {
            v.push(self.wars[i]);
            assert(self.wars@.take(i + 1) == self.wars@.take(i as int).push(self.wars@[i as int]));
            i = i + 1;
        }
        assert(self.wars@.take(i as int) == self.wars@);
        v
    }

    /// The pairs at war, in declaration order.
    pub fn wars(&self) -> (w: &[(u16, u16)])
        ensures
            w@ == self@,
    {
        self.wars.as_slice()
    }
}

/// War is symmetric: `a` is at war with `b` exactly when `b` is at war with `a`.
pub proof fn lemma_war_symmetric(d: Diplomacy, a: u16, b: u16)
    ensures
        d.at_war_spec(a, b) == d.at_war_spec(b, a),
{
    assert(spec_pair(a, b) == spec_pair(b, a));
}

/// Declaring a war makes the pair at war; ending it makes it at peace; every
/// other pair keeps its state.
pub proof fn lemma_set_war_effect(d0: Diplomacy, d1: Diplomacy, a: u16, b: u16, on: bool, c: u16, e: u16)
    requires
        d0.wf(),
        on ==> d1@ == add_pair(d0@, spec_pair(a, b)),
        !on ==> d1@ == drop_pair(d0@, spec_pair(a, b)),
    ensures
        d1.at_war_spec(a, b) == on,
        spec_pair(c, e) != spec_pair(a, b) ==> d1.at_war_spec(c, e) == d0.at_war_spec(c, e),
{
    let p = spec_pair(a, b);
    let q = spec_pair(c, e);
    if on {
        if !d0@.contains(p) {
            assert(d1@[d0@.len() as int] == p);
            if q != p {
                if d1@.contains(q) {
                    let k = choose|k: int| 0 <= k < d1@.len() && d1@[k] == q;
                    assert(d0@[k] == q);
                }
                if d0@.contains(q) {
                    let k = choose|k: int| 0 <= k < d0@.len() && d0@[k] == q;
                    assert(d1@[k] == q);
                }
            }
        }
    } else if d0@.contains(p) {
        let k = choose|k: int| 0 <= k < d0@.len() && d0@[k] == p;
        if d1@.contains(p) {
            let j = choose|j: int| 0 <= j < d1@.len() && d1@[j] == p;
            let jo = if j < k { j } else { j + 1 };
            assert(d0@[jo] == p);
        }
        if q != p {
            if d0@.contains(q) {
                let j = choose|j: int| 0 <= j < d0@.len() && d0@[j] == q;
                let jn = if j < k { j } else { j - 1 };
                assert(d1@[jn] == q);
            }
            if d1@.contains(q) {
                let j = choose|j: int| 0 <= j < d1@.len() && d1@[j] == q;
                let jo = if j < k { j } else { j + 1 };
                assert(d0@[jo] == q);
            }
        }
    }
}

} // verus!
