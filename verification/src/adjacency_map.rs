//! A per-direction quadruple of values, indexed by `CardinalDir`.

use vstd::prelude::*;

use crate::domain::{lemma_count_true_none, picked_from, selection_of, Domain};
use crate::point::CardinalDir;

verus! {

/// One value per cardinal direction, indexed through `CardinalDir::idx`.
pub struct AdjacencyMap<M>(pub [M; 4]);

impl<M> AdjacencyMap<M> {
    /// The entry for one direction.
    pub open spec fn get_spec(&self, i: int) -> M {
        self.0[i]
    }

    /// Reads the entry for one direction.
    pub fn get(&self, dir: CardinalDir) -> (r: &M)
        ensures
            *r == self.get_spec(dir_index(dir)),
    {
        let i = dir.idx();
        &self.0[i]
    }

    /// Replaces the entry for one direction.
    pub fn set(&mut self, dir: CardinalDir, m: M)
        ensures
            final(self).get_spec(dir_index(dir)) == m,
            forall|i: int|
                0 <= i < 4 && i != dir_index(dir) ==> #[trigger] final(self).get_spec(i) == old(
                    self,
                ).get_spec(i),
    {
        let i = dir.idx();
        self.0[i] = m;
    }
}

/// The dense index of a direction.
pub open spec fn dir_index(dir: CardinalDir) -> int {
    match dir {
        CardinalDir::UP => 0,
        CardinalDir::DOWN => 1,
        CardinalDir::LEFT => 2,
        CardinalDir::RIGHT => 3,
    }
}

impl AdjacencyMap<Domain> {
    /// Four all-false masks of the given size.
    pub fn new(vec_size: usize) -> (r: AdjacencyMap<Domain>)
        ensures
            forall|i: int| 0 <= i < 4 ==> (#[trigger] r.get_spec(i)).0@.len() == vec_size,
    {
        let arr = [
            Domain::new(vec_size),
            Domain::new(vec_size),
            Domain::new(vec_size),
            Domain::new(vec_size),
        ];
        let r = AdjacencyMap(arr);
        proof {
            assert forall|i: int|
                0 <= i < 4 implies (#[trigger] r.get_spec(i)).0@.len() == vec_size by {
                if i == 0 {
                } else if i == 1 {
                } else if i == 2 {
                } else {
                }
            }
        }
        r
    }

    /// Four empty masks.
    pub fn empty() -> (r: AdjacencyMap<Domain>)
        ensures
            forall|i: int| 0 <= i < 4 ==> (#[trigger] r.get_spec(i)).0@.len() == 0,
    {
        AdjacencyMap::<Domain>::new(0)
    }

    /// Builds the map from direction-tagged five-entry masks.
    pub fn from_tup_array(arr: [(CardinalDir, [bool; 5]); 4]) -> (r: AdjacencyMap<Domain>)
        ensures
            forall|i: int| 0 <= i < 4 ==> (#[trigger] r.get_spec(i)).0@.len() == 5 || r.get_spec(
                i,
            ).0@.len() == 0,
    {
        let mut adj_map = AdjacencyMap::<Domain>::empty();
        let mut k: usize = 0;
        while k < 4
            invariant
                k <= 4,
                forall|i: int|
                    0 <= i < 4 ==> (#[trigger] adj_map.get_spec(i)).0@.len() == 5
                        || adj_map.get_spec(i).0@.len() == 0,
            decreases 4 - k,
        {
            let (dir, mask) = arr[k];
            let mut v: Vec<bool> = Vec::new();
            v.push(mask[0]);
            v.push(mask[1]);
            v.push(mask[2]);
            v.push(mask[3]);
            v.push(mask[4]);
            adj_map.set(dir, Domain(v));
            k = k + 1;
        }
        adj_map
    }
}

/// With `vec` the admitted selection of `masks` and `rseq` the pointwise
/// conjunction over `vec`, `rseq` is the conjunction over the admitted
/// masks themselves.
proof fn lemma_andv_of_selection(
    masks: Seq<Domain>,
    mask: Seq<bool>,
    vec: Seq<Domain>,
    gidx: Seq<int>,
    rseq: Seq<bool>,
    len: int,
)
    requires
        mask.len() == masks.len(),
        selection_of(gidx, masks, mask, vec),
        rseq.len() == len,
        vec.len() > 0,
        forall|i: int|
            0 <= i < len ==> ((#[trigger] rseq[i]) <==> forall|k: int|
                0 <= k < vec.len() ==> (#[trigger] vec[k]).0@[i]),
    ensures
        forall|i: int|
            0 <= i < len ==> ((#[trigger] rseq[i]) <==> forall|j: int|
                0 <= j < mask.len() && mask[j] ==> (#[trigger] masks[j]).0@[i]),
{
    assert forall|i: int|
        0 <= i < len implies ((#[trigger] rseq[i]) <==> forall|j: int|
        0 <= j < mask.len() && mask[j] ==> (#[trigger] masks[j]).0@[i]) by {
        if rseq[i] {
            assert forall|j: int|
                0 <= j < mask.len() && mask[j] implies (#[trigger] masks[j]).0@[i] by {
                assert(gidx.contains(j));
                let k = choose|k: int| 0 <= k < gidx.len() && gidx[k] == j;
                assert(cloned::<Domain>(masks[j], vec[k]));
                assert(vec[k].0@ == masks[j].0@);
                assert(vec[k].0@[i]);
            }
        } else {
            if forall|j: int|
                0 <= j < mask.len() && mask[j] ==> (#[trigger] masks[j]).0@[i] {
                assert forall|k: int| 0 <= k < vec.len() implies (#[trigger] vec[k]).0@[i] by {
                    let j = gidx[k];
                    assert(cloned::<Domain>(masks[j], vec[k]));
                    assert(vec[k].0@ == masks[j].0@);
                    assert(masks[j].0@[i]);
                }
            }
        }
    }
}

impl AdjacencyMap<Vec<Domain>> {
    /// Four empty mask lists.
    pub fn empty() -> (r: AdjacencyMap<Vec<Domain>>)
        ensures
            forall|i: int| 0 <= i < 4 ==> (#[trigger] r.get_spec(i))@.len() == 0,
    {
        let arr: [Vec<Domain>; 4] = [Vec::new(), Vec::new(), Vec::new(), Vec::new()];
        let r = AdjacencyMap(arr);
        proof {
            assert forall|i: int| 0 <= i < 4 implies (#[trigger] r.get_spec(i))@.len() == 0 by {
                if i == 0 {
                } else if i == 1 {
                } else if i == 2 {
                } else {
                }
            }
        }
        r
    }

    /// Collects each tile's per-direction mask into per-direction lists,
    /// ordered by tile id.
    pub fn from_individual_adj_maps(maps: Vec<(usize, AdjacencyMap<Domain>)>) -> (r: AdjacencyMap<
        Vec<Domain>,
    >)
        requires
            forall|k: int| 0 <= k < maps@.len() ==> (#[trigger] maps@[k]).0 < maps@.len(),
        ensures
            forall|i: int| 0 <= i < 4 ==> (#[trigger] r.get_spec(i))@.len() == maps@.len(),
    {
        let n = maps.len();
        let mut up: Vec<Domain> = Vec::new();
        let mut down: Vec<Domain> = Vec::new();
        let mut left: Vec<Domain> = Vec::new();
        let mut right: Vec<Domain> = Vec::new();
        let mut k: usize = 0;
        while k < n
            invariant
                n == maps@.len(),
                k <= n,
                up@.len() == k,
                down@.len() == k,
                left@.len() == k,
                right@.len() == k,
            decreases n - k,
        {
            up.push(Domain::cont(1));
            down.push(Domain::cont(1));
            left.push(Domain::cont(1));
            right.push(Domain::cont(1));
            k = k + 1;
        }
        let mut k: usize = 0;
        while k < n
            invariant
                n == maps@.len(),
                forall|j: int| 0 <= j < maps@.len() ==> (#[trigger] maps@[j]).0 < maps@.len(),
                k <= n,
                up@.len() == n,
                down@.len() == n,
                left@.len() == n,
                right@.len() == n,
            decreases n - k,
        {
            let id = maps[k].0;
            let m = &maps[k].1;
            let du = m.get(CardinalDir::UP).clone();
            up.set(id, du);
            let dd = m.get(CardinalDir::DOWN).clone();
            down.set(id, dd);
            let dl = m.get(CardinalDir::LEFT).clone();
            left.set(id, dl);
            let dr = m.get(CardinalDir::RIGHT).clone();
            right.set(id, dr);
            k = k + 1;
        }
        let r = AdjacencyMap([up, down, left, right]);
        proof {
            assert forall|i: int| 0 <= i < 4 implies (#[trigger] r.get_spec(i))@.len()
                == maps@.len() by {
                if i == 0 {
                } else if i == 1 {
                } else if i == 2 {
                } else {
                }
            }
        }
        r
    }

    /// Conjunction over the masks (for direction `dir`) of the tiles that
    /// `filter` admits: a bit stays set exactly when every admitted mask
    /// sets it; with nothing admitted the result is all false.
    #[verifier::rlimit(60)]
    pub fn domain_in_dir(&self, dir: CardinalDir, filter: &Domain) -> (r: Domain)
        requires
            filter.0@.len() == self.get_spec(dir_index(dir))@.len(),
            forall|k: int|
                0 <= k < self.get_spec(dir_index(dir))@.len() ==> (#[trigger] self.get_spec(
                    dir_index(dir),
                )@[k]).0@.len() == filter.0@.len(),
        ensures
            r.0@.len() == filter.0@.len(),
            (forall|j: int| 0 <= j < filter.0@.len() ==> !(#[trigger] filter.0@[j])) ==> forall|
                i: int,
            | 0 <= i < r.0@.len() ==> !(#[trigger] r.0@[i]),
            (exists|j: int| 0 <= j < filter.0@.len() && (#[trigger] filter.0@[j])) ==> forall|
                i: int,
            |
                0 <= i < r.0@.len() ==> ((#[trigger] r.0@[i]) <==> forall|j: int|
                    0 <= j < filter.0@.len() && filter.0@[j] ==> (#[trigger] self.get_spec(
                        dir_index(dir),
                    )@[j]).0@[i]),
    {
        let masks = self.get(dir);
        let vec = Domain::filter(filter, masks);
        proof {
            assert forall|k: int|
                0 <= k < vec@.len() implies (#[trigger] vec@[k]).0@.len() == filter.0@.len() by {
                assert(picked_from(masks@, filter.0@, vec@[k]));
                let j = choose|j: int|
                    0 <= j < masks@.len() && filter.0@[j] && #[trigger] cloned::<Domain>(
                        masks@[j],
                        vec@[k],
                    );
                assert(vec@[k].0@ == masks@[j].0@);
            }
        }
        let r = Domain::andv(&vec, filter.len());
        proof {
            let gidx = choose|idx: Seq<int>| #[trigger] selection_of(idx, masks@, filter.0@, vec@);
            if forall|j: int| 0 <= j < filter.0@.len() ==> !(#[trigger] filter.0@[j]) {
                lemma_count_true_none(filter.0@, filter.0@.len() as int);
                assert(vec@.len() == 0);
            }
            if exists|j: int| 0 <= j < filter.0@.len() && (#[trigger] filter.0@[j]) {
                let j0 = choose|j: int| 0 <= j < filter.0@.len() && (#[trigger] filter.0@[j]);
                assert(gidx.contains(j0));
                assert(vec@.len() > 0);
                lemma_andv_of_selection(
                    masks@,
                    filter.0@,
                    vec@,
                    gidx,
                    r.0@,
                    filter.0@.len() as int,
                );
            }
        }
        r
    }
}

} // verus!
