//! A boolean mask over tile ids: which tiles a constraint still admits.

use vstd::prelude::*;

verus! {

/// How many entries of the first `n` are set.
pub open spec fn count_true(s: Seq<bool>, n: int) -> int
    decreases n,
{
    if n <= 0 {
        0
    } else {
        count_true(s, n - 1) + if s[n - 1] {
            1int
        } else {
            0int
        }
    }
}

/// An all-false mask admits nothing.
pub proof fn lemma_count_true_none(s: Seq<bool>, n: int)
    requires
        forall|j: int| 0 <= j < n ==> !(#[trigger] s[j]),
    ensures
        count_true(s, n) == 0,
    decreases n,
{
    if n > 0 {
        lemma_count_true_none(s, n - 1);
    }
}

/// Whether `out` is exactly the admitted subsequence of `source`: `idx`
/// lists the admitted indices in increasing order, one clone each.
pub open spec fn selection_of<T: Clone>(
    idx: Seq<int>,
    source: Seq<T>,
    mask: Seq<bool>,
    out: Seq<T>,
) -> bool {
    &&& idx.len() == out.len()
    &&& forall|k: int|
        0 <= k < idx.len() ==> 0 <= #[trigger] idx[k] < source.len() && mask[idx[k]] && cloned::<
            T,
        >(source[idx[k]], out[k])
    &&& forall|k: int, l: int| 0 <= k < l < idx.len() ==> idx[k] < idx[l]
    &&& forall|j: int| 0 <= j < mask.len() && mask[j] ==> idx.contains(j)
}

/// Whether `x` is a copy of some admitted entry of `source`.
pub open spec fn picked_from<T: Clone>(source: Seq<T>, mask: Seq<bool>, x: T) -> bool {
    exists|j: int| 0 <= j < source.len() && mask[j] && #[trigger] cloned::<T>(source[j], x)
}

/// A boolean mask over tile ids.
#[derive(Debug)]
pub struct Domain(pub Vec<bool>);

impl Clone for Domain {
    fn clone(&self) -> (r: Self)
        ensures
            r.0@ == self.0@,
    {
        let mut v: Vec<bool> = Vec::new();
        let mut i: usize = 0;
        while i < self.0.len()
            invariant
                i <= self.0@.len(),
                v@ == self.0@.subrange(0, i as int),
            decreases self.0@.len() - i,
        {
            v.push(self.0[i]);
            proof {
                assert(v@ =~= self.0@.subrange(0, i + 1));
            }
            i = i + 1;
        }
        proof {
            assert(v@ =~= self.0@);
        }
        Domain(v)
    }
}

impl PartialEq for Domain {
    fn eq(&self, other: &Domain) -> (r: bool) {
        if self.0.len() != other.0.len() {
            return false;
        }
        let mut i: usize = 0;
        while i < self.0.len()
            invariant
                self.0@.len() == other.0@.len(),
                i <= self.0@.len(),
                forall|k: int| 0 <= k < i ==> self.0@[k] == other.0@[k],
            decreases self.0@.len() - i,
        {
            if self.0[i] != other.0[i] {
                proof {
                    assert(!(self.0@ =~= other.0@));
                }
                return false;
            }
            i = i + 1;
        }
        proof {
            assert(self.0@ =~= other.0@);
        }
        true
    }
}

impl vstd::std_specs::cmp::PartialEqSpecImpl for Domain {
    open spec fn obeys_eq_spec() -> bool {
        true
    }

    open spec fn eq_spec(&self, other: &Domain) -> bool {
        self.0@ =~= other.0@
    }
}

impl Domain {
    /// The all-true mask: every tile admitted.
    pub fn taut(len: usize) -> (r: Domain)
        ensures
            r.0@.len() == len,
            forall|i: int| 0 <= i < len ==> (#[trigger] r.0@[i]) == true,
    {
        let mut v: Vec<bool> = Vec::new();
        let mut i: usize = 0;
        while i < len
            invariant
                i <= len,
                v@.len() == i,
                forall|k: int| 0 <= k < i ==> (#[trigger] v@[k]) == true,
            decreases len - i,
        {
            v.push(true);
            i = i + 1;
        }
        Domain(v)
    }

    /// The all-false mask: the contradiction.
    pub fn cont(len: usize) -> (r: Domain)
        ensures
            r.0@.len() == len,
            forall|i: int| 0 <= i < len ==> (#[trigger] r.0@[i]) == false,
    {
        Domain::new(len)
    }

    /// The all-false mask.
    pub fn new(size: usize) -> (r: Domain)
        ensures
            r.0@.len() == size,
            forall|i: int| 0 <= i < size ==> (#[trigger] r.0@[i]) == false,
    {
        let mut v: Vec<bool> = Vec::new();
        let mut i: usize = 0;
        while i < size
            invariant
                i <= size,
                v@.len() == i,
                forall|k: int| 0 <= k < i ==> (#[trigger] v@[k]) == false,
            decreases size - i,
        {
            v.push(false);
            i = i + 1;
        }
        Domain(v)
    }

    /// Sets every entry to `val`.
    pub fn fill(&mut self, val: bool)
        ensures
            final(self).0@.len() == old(self).0@.len(),
            forall|i: int| 0 <= i < final(self).0@.len() ==> (#[trigger] final(self).0@[i]) == val,
    {
        let n = self.0.len();
        let mut i: usize = 0;
        while i < n
            invariant
                n == self.0@.len(),
                i <= n,
                forall|k: int| 0 <= k < i ==> (#[trigger] self.0@[k]) == val,
            decreases n - i,
        {
            self.0.set(i, val);
            i = i + 1;
        }
    }

    /// The entries, for read access.
    pub fn iter(&self) -> (r: &Vec<bool>)
        ensures
            r@ == self.0@,
    {
        &self.0
    }

    /// Admits exactly the tile `idx`.
    pub fn only(&mut self, idx: usize)
        requires
            idx < old(self).0@.len(),
        ensures
            final(self).0@.len() == old(self).0@.len(),
            forall|i: int|
                0 <= i < final(self).0@.len() ==> (#[trigger] final(self).0@[i]) == (i == idx),
    {
        self.fill(false);
        self.0.set(idx, true);
    }

    /// Number of entries.
    pub fn len(&self) -> (r: usize)
        ensures
            r == self.0@.len(),
    {
        self.0.len()
    }

    /// Pointwise conjunction.
    pub fn and(&self, rhs: &Domain) -> (r: Domain)
        requires
            self.0@.len() == rhs.0@.len(),
        ensures
            r.0@.len() == self.0@.len(),
            forall|i: int|
                0 <= i < r.0@.len() ==> (#[trigger] r.0@[i]) == (self.0@[i] && rhs.0@[i]),
    {
        let mut v: Vec<bool> = Vec::new();
        let mut i: usize = 0;
        while i < self.0.len()
            invariant
                self.0@.len() == rhs.0@.len(),
                i <= self.0@.len(),
                v@.len() == i,
                forall|k: int| 0 <= k < i ==> (#[trigger] v@[k]) == (self.0@[k] && rhs.0@[k]),
            decreases self.0@.len() - i,
        {
            v.push(self.0[i] && rhs.0[i]);
            i = i + 1;
        }
        Domain(v)
    }

    /// Pointwise disjunction.
    pub fn or(&self, rhs: &Domain) -> (r: Domain)
        requires
            self.0@.len() == rhs.0@.len(),
        ensures
            r.0@.len() == self.0@.len(),
            forall|i: int|
                0 <= i < r.0@.len() ==> (#[trigger] r.0@[i]) == (self.0@[i] || rhs.0@[i]),
    {
        let mut v: Vec<bool> = Vec::new();
        let mut i: usize = 0;
        while i < self.0.len()
            invariant
                self.0@.len() == rhs.0@.len(),
                i <= self.0@.len(),
                v@.len() == i,
                forall|k: int| 0 <= k < i ==> (#[trigger] v@[k]) == (self.0@[k] || rhs.0@[k]),
            decreases self.0@.len() - i,
        {
            v.push(self.0[i] || rhs.0[i]);
            i = i + 1;
        }
        Domain(v)
    }

    /// Conjunction of a list of masks; an empty list gives the all-false
    /// mask of length `len`.
    pub fn andv(doms: &Vec<Domain>, len: usize) -> (r: Domain)
        requires
            forall|k: int| 0 <= k < doms@.len() ==> (#[trigger] doms@[k]).0@.len() == len,
        ensures
            r.0@.len() == len,
            doms@.len() > 0 ==> forall|i: int|
                0 <= i < len ==> ((#[trigger] r.0@[i]) <==> forall|k: int|
                    0 <= k < doms@.len() ==> (#[trigger] doms@[k]).0@[i]),
            doms@.len() == 0 ==> forall|i: int| 0 <= i < len ==> !(#[trigger] r.0@[i]),
    {
        if doms.len() == 0 {
            return Domain::cont(len);
        }
        let mut acc = Domain::taut(len);
        let mut j: usize = 0;
        while j < doms.len()
            invariant
                forall|k: int| 0 <= k < doms@.len() ==> (#[trigger] doms@[k]).0@.len() == len,
                j <= doms@.len(),
                acc.0@.len() == len,
                forall|i: int|
                    0 <= i < len ==> ((#[trigger] acc.0@[i]) <==> forall|k: int|
                        0 <= k < j ==> (#[trigger] doms@[k]).0@[i]),
            decreases doms@.len() - j,
        {
            let ghost pre = acc.0@;
            acc = acc.and(&doms[j]);
            proof {
                assert forall|i: int|
                    0 <= i < len implies ((#[trigger] acc.0@[i]) <==> forall|k: int|
                    0 <= k < j + 1 ==> (#[trigger] doms@[k]).0@[i]) by {
                    if acc.0@[i] {
                        assert forall|k: int| 0 <= k < j + 1 implies (#[trigger] doms@[k]).0@[i] by {
                            if k < j {
                                assert(pre[i]);
                            }
                        }
                    }
                }
            }
            j = j + 1;
        }
        acc
    }

    /// Disjunction of a non-empty list of masks.
    pub fn orv(doms: &Vec<Domain>) -> (r: Domain)
        requires
            doms@.len() > 0,
            forall|k: int| 0 <= k < doms@.len() ==> (#[trigger] doms@[k]).0@.len()
                == doms@[0].0@.len(),
        ensures
            r.0@.len() == doms@[0].0@.len(),
            forall|i: int|
                0 <= i < r.0@.len() ==> ((#[trigger] r.0@[i]) <==> exists|k: int|
                    0 <= k < doms@.len() && (#[trigger] doms@[k]).0@[i]),
    {
        let len = doms[0].len();
        let mut acc = Domain::cont(len);
        let mut j: usize = 0;
        while j < doms.len()
            invariant
                len == doms@[0].0@.len(),
                forall|k: int| 0 <= k < doms@.len() ==> (#[trigger] doms@[k]).0@.len() == len,
                j <= doms@.len(),
                acc.0@.len() == len,
                forall|i: int|
                    0 <= i < len ==> ((#[trigger] acc.0@[i]) <==> exists|k: int|
                        0 <= k < j && (#[trigger] doms@[k]).0@[i]),
            decreases doms@.len() - j,
        {
            let ghost pre = acc.0@;
            acc = acc.or(&doms[j]);
            proof {
                assert forall|i: int|
                    0 <= i < len implies ((#[trigger] acc.0@[i]) <==> exists|k: int|
                    0 <= k < j + 1 && (#[trigger] doms@[k]).0@[i]) by {
                    if acc.0@[i] {
                        if pre[i] {
                            let k = choose|k: int| 0 <= k < j && (#[trigger] doms@[k]).0@[i];
                            assert(0 <= k < j + 1 && doms@[k].0@[i]);
                        } else {
                            assert(doms@[j as int].0@[i]);
                        }
                    } else {
                        if exists|k: int| 0 <= k < j + 1 && (#[trigger] doms@[k]).0@[i] {
                            let k = choose|k: int| 0 <= k < j + 1 && (#[trigger] doms@[k]).0@[i];
                            if k < j {
                                assert(pre[i]);
                            }
                        }
                    }
                }
            }
            j = j + 1;
        }
        acc
    }

    /// The entries of `source` whose mask bit is set, in order.
    pub fn filter<T: Clone>(filter: &Domain, source: &Vec<T>) -> (r: Vec<T>)
        requires
            filter.0@.len() == source@.len(),
        ensures
            r@.len() == count_true(filter.0@, filter.0@.len() as int),
            forall|k: int|
                0 <= k < r@.len() ==> picked_from(source@, filter.0@, #[trigger] r@[k]),
            // The result is exactly the admitted subsequence: its entries
            // are clones of the admitted entries, one each, in order.
            exists|idx: Seq<int>| #[trigger] selection_of(idx, source@, filter.0@, r@),
    {
        let mut r: Vec<T> = Vec::new();
        let ghost mut gidx: Seq<int> = Seq::empty();
        let mut i: usize = 0;
        while i < source.len()
            invariant
                filter.0@.len() == source@.len(),
                i <= source@.len(),
                r@.len() == count_true(filter.0@, i as int),
                forall|k: int|
                    0 <= k < r@.len() ==> picked_from(source@, filter.0@, #[trigger] r@[k]),
                gidx.len() == r@.len(),
                forall|k: int|
                    0 <= k < gidx.len() ==> 0 <= #[trigger] gidx[k] < i && filter.0@[gidx[k]]
                        && cloned::<T>(source@[gidx[k]], r@[k]),
                forall|k: int, l: int| 0 <= k < l < gidx.len() ==> gidx[k] < gidx[l],
                forall|j: int| 0 <= j < i && filter.0@[j] ==> gidx.contains(j),
            decreases source@.len() - i,
        {
            if filter.0[i] {
                let c = source[i].clone();
                let ghost r0 = r@;
                let ghost g0 = gidx;
                r.push(c);
                proof {
                    gidx = gidx.push(i as int);
                    assert(cloned::<T>(source@[i as int], c));
                    assert(picked_from(source@, filter.0@, c));
                    assert forall|k: int|
                        0 <= k < r@.len() implies picked_from(
                        source@,
                        filter.0@,
                        #[trigger] r@[k],
                    ) by {
                        if k < r0.len() {
                            assert(r@[k] == r0[k]);
                            assert(picked_from(source@, filter.0@, r0[k]));
                        } else {
                            assert(r@[k] == c);
                        }
                    }
                    assert forall|j: int|
                        0 <= j < i + 1 && filter.0@[j] implies gidx.contains(j) by {
                        if j < i {
                            assert(g0.contains(j));
                            let k = choose|k: int| 0 <= k < g0.len() && g0[k] == j;
                            assert(gidx[k] == j);
                        } else {
                            assert(gidx[g0.len() as int] == j);
                        }
                    }
                }
            } else {
                proof {
                    assert forall|j: int|
                        0 <= j < i + 1 && filter.0@[j] implies gidx.contains(j) by {
                        if j < i {
                        } else {
                            assert(!filter.0@[i as int]);
                        }
                    }
                }
            }
            i = i + 1;
        }
        proof {
            assert(selection_of(gidx, source@, filter.0@, r@));
        }
        r
    }

    /// Whether any entry is set.
    pub fn any(&self) -> (r: bool)
        ensures
            r == exists|i: int| 0 <= i < self.0@.len() && self.0@[i],
    {
        let mut i: usize = 0;
        while i < self.0.len()
            invariant
                i <= self.0@.len(),
                forall|k: int| 0 <= k < i ==> !self.0@[k],
            decreases self.0@.len() - i,
        {
            if self.0[i] {
                return true;
            }
            i = i + 1;
        }
        false
    }
}

impl Default for Domain {
    fn default() -> (r: Domain)
        ensures
            r.0@.len() == 0,
    {
        Domain(Vec::new())
    }
}

} // verus!
