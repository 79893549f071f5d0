//! The solver: per-cell probability bookkeeping, the lazy-deletion
//! min-entropy queue, cells, the board, and the collapse/propagate state
//! machine that drives a grid of cells to a fully determined state.

use vstd::prelude::*;

use crate::adjacency_rules::{AdjacencyRules, CardinalDirs, Contradiction, EnablerDict};
use crate::entropy::{log2_fixed, log2_fixed_spec, lemma_log2_fixed_spec_bound, LOG2_SCALE};
use crate::point::Loc;
use crate::tile::TileId;

verus! {

/// Upper bound on the sum of all tile frequencies, so that every entropy
/// intermediate fits in 64 bits.
pub const TOTAL_WEIGHT_MAX: usize = 0xFFFF_FFFF;

/// One `w * log2(w)` term of the simplified entropy equation, in 16.16
/// fixed point; zero weight contributes zero.
pub open spec fn partial_shannon_spec(w: nat) -> int {
    if w == 0 {
        0
    } else {
        w * log2_fixed_spec(w)
    }
}

/// Sum of the first `n` weights.
pub open spec fn sum_counts(s: Seq<usize>, n: int) -> int
    decreases n,
{
    if n <= 0 {
        0
    } else {
        sum_counts(s, n - 1) + s[n - 1]
    }
}

/// Sum of the first `n` entropy terms.
pub open spec fn sum_shannons(s: Seq<usize>, n: int) -> int
    decreases n,
{
    if n <= 0 {
        0
    } else {
        sum_shannons(s, n - 1) + partial_shannon_spec(s[n - 1] as nat)
    }
}

proof fn lemma_partial_shannon_nonneg(w: nat)
    requires
        w <= u64::MAX,
    ensures
        0 <= partial_shannon_spec(w),
        w >= 1 ==> partial_shannon_spec(w) <= w * (64 * LOG2_SCALE),
{
    if w >= 1 {
        lemma_log2_fixed_spec_bound(w);
        assert(w * log2_fixed_spec(w) >= 0) by (nonlinear_arith)
            requires
                w >= 0,
                log2_fixed_spec(w) >= 0,
        ;
        assert(w * log2_fixed_spec(w) <= w * (64 * LOG2_SCALE)) by (nonlinear_arith)
            requires
                w >= 0,
                log2_fixed_spec(w) <= 64 * LOG2_SCALE,
        ;
    }
}

pub proof fn lemma_sum_counts_nonneg(s: Seq<usize>, n: int)
    requires
        n <= s.len(),
    ensures
        sum_counts(s, n) >= 0,
    decreases n,
{
    if n > 0 {
        lemma_sum_counts_nonneg(s, n - 1);
    }
}

pub proof fn lemma_sum_counts_elem(s: Seq<usize>, n: int, i: int)
    requires
        0 <= i < n <= s.len(),
    ensures
        sum_counts(s, n) >= s[i],
    decreases n,
{
    lemma_sum_counts_nonneg(s, n - 1);
    if i < n - 1 {
        lemma_sum_counts_elem(s, n - 1, i);
    }
}

pub proof fn lemma_sum_counts_update(s: Seq<usize>, j: int, v: usize, n: int)
    requires
        0 <= j < s.len(),
        n <= s.len(),
    ensures
        sum_counts(s.update(j, v), n) == sum_counts(s, n) + if j < n {
            v - s[j]
        } else {
            0int
        },
    decreases n,
{
    if n > 0 {
        lemma_sum_counts_update(s, j, v, n - 1);
    }
}

/// Sums depend only on the first `n` entries.
pub proof fn lemma_sum_counts_congruent(s1: Seq<usize>, s2: Seq<usize>, n: int)
    requires
        forall|i: int| 0 <= i < n ==> (#[trigger] s1[i]) == s2[i],
    ensures
        sum_counts(s1, n) == sum_counts(s2, n),
    decreases n,
{
    if n > 0 {
        lemma_sum_counts_congruent(s1, s2, n - 1);
    }
}

proof fn lemma_sum_shannons_nonneg(s: Seq<usize>, n: int)
    requires
        n <= s.len(),
        forall|i: int| 0 <= i < n ==> (#[trigger] s[i]) <= u64::MAX,
    ensures
        sum_shannons(s, n) >= 0,
    decreases n,
{
    if n > 0 {
        lemma_sum_shannons_nonneg(s, n - 1);
        lemma_partial_shannon_nonneg(s[n - 1] as nat);
    }
}

proof fn lemma_sum_shannons_elem(s: Seq<usize>, n: int, i: int)
    requires
        0 <= i < n <= s.len(),
        forall|k: int| 0 <= k < n ==> (#[trigger] s[k]) <= u64::MAX,
    ensures
        sum_shannons(s, n) >= partial_shannon_spec(s[i] as nat),
    decreases n,
{
    lemma_sum_shannons_nonneg(s, n - 1);
    if i < n - 1 {
        lemma_sum_shannons_elem(s, n - 1, i);
        lemma_partial_shannon_nonneg(s[n - 1] as nat);
    }
}

proof fn lemma_sum_shannons_update(s: Seq<usize>, j: int, v: usize, n: int)
    requires
        0 <= j < s.len(),
        n <= s.len(),
    ensures
        sum_shannons(s.update(j, v), n) == sum_shannons(s, n) + if j < n {
            partial_shannon_spec(v as nat) - partial_shannon_spec(s[j] as nat)
        } else {
            0int
        },
    decreases n,
{
    if n > 0 {
        lemma_sum_shannons_update(s, j, v, n - 1);
    }
}

/// Entropy terms are bounded by the weights times the largest logarithm.
proof fn lemma_sum_shannons_bound(s: Seq<usize>, n: int)
    requires
        0 <= n <= s.len(),
        forall|i: int| 0 <= i < n ==> (#[trigger] s[i]) <= u64::MAX,
    ensures
        sum_shannons(s, n) <= sum_counts(s, n) * (64 * LOG2_SCALE),
    decreases n,
{
    if n > 0 {
        lemma_sum_shannons_bound(s, n - 1);
        lemma_partial_shannon_nonneg(s[n - 1] as nat);
        assert((sum_counts(s, n - 1) + s[n - 1]) * (64 * LOG2_SCALE) == sum_counts(s, n - 1) * (64
            * LOG2_SCALE) + s[n - 1] * (64 * LOG2_SCALE)) by (nonlinear_arith);
        if s[n - 1] == 0 {
            assert(partial_shannon_spec(s[n - 1] as nat) == 0);
            assert(s[n - 1] * (64 * LOG2_SCALE) == 0) by (nonlinear_arith)
                requires
                    s[n - 1] == 0,
            ;
        }
    }
}

/// A sum where all weights but one are zero is that weight.
proof fn lemma_sum_counts_single(s: Seq<usize>, n: int, i: int)
    requires
        0 <= i < s.len(),
        n <= s.len(),
        forall|j: int| 0 <= j < s.len() && j != i ==> (#[trigger] s[j]) == 0,
    ensures
        sum_counts(s, n) == if i < n {
            s[i] as int
        } else {
            0int
        },
    decreases n,
{
    if n > 0 {
        lemma_sum_counts_single(s, n - 1, i);
    }
}

/// An entropy-term sum where all weights but one are zero is that term.
proof fn lemma_sum_shannons_single(s: Seq<usize>, n: int, i: int)
    requires
        0 <= i < s.len(),
        n <= s.len(),
        forall|j: int| 0 <= j < s.len() && j != i ==> (#[trigger] s[j]) == 0,
    ensures
        sum_shannons(s, n) == if i < n {
            partial_shannon_spec(s[i] as nat)
        } else {
            0int
        },
    decreases n,
{
    if n > 0 {
        lemma_sum_shannons_single(s, n - 1, i);
    }
}

/// Per-cell running statistics over tile frequencies: the total weight and
/// the running sum of `w * log2(w)` terms, giving O(1) entropy reads and
/// O(1) removal of a tile's contribution.
pub struct ProbabilityDict {
    pub counts: Vec<usize>,
    pub total_shannons: u64,
    pub total_count: usize,
}

impl ProbabilityDict {
    /// Well-formedness: the two running sums really are the sums of the
    /// stored weights, and the total weight respects the global cap.
    pub closed spec fn wf(&self) -> bool {
        &&& self.total_count == sum_counts(self.counts@, self.counts@.len() as int)
        &&& self.total_shannons == sum_shannons(self.counts@, self.counts@.len() as int)
        &&& self.total_count <= TOTAL_WEIGHT_MAX
    }

    /// The running `w * log2(w)` sum, for specifications.
    pub closed spec fn shannons_spec(&self) -> int {
        self.total_shannons as int
    }

    /// The cell's entropy in 16.16 fixed point:
    /// `log2(W) - (sum of w*log2(w)) / W` for total weight `W`, computed as
    /// `(W*log2(W) - sum) / W`.  A cell with no weight left reads as the
    /// largest value, so a contradicted cell is never preferred.
    pub closed spec fn entropy_spec(&self) -> int {
        if self.total_count == 0 {
            u64::MAX as int
        } else {
            let num = self.total_count * log2_fixed_spec(self.total_count as nat)
                - self.total_shannons;
            if num <= 0 {
                0
            } else {
                num / self.total_count as int
            }
        }
    }

    /// Builds the statistics from a tile-frequency vector.
    pub fn new(tile_frequencies: &Vec<usize>) -> (r: ProbabilityDict)
        requires
            sum_counts(tile_frequencies@, tile_frequencies@.len() as int) <= TOTAL_WEIGHT_MAX,
        ensures
            r.wf(),
            r.counts@ == tile_frequencies@,
            r.total_count == sum_counts(tile_frequencies@, tile_frequencies@.len() as int),
    {
        let n = tile_frequencies.len();
        let mut total_count: usize = 0;
        let mut total_shannons: u64 = 0;
        let mut i: usize = 0;
        while i < n
            invariant
                n == tile_frequencies@.len(),
                i <= n,
                sum_counts(tile_frequencies@, n as int) <= TOTAL_WEIGHT_MAX,
                total_count == sum_counts(tile_frequencies@, i as int),
                total_shannons == sum_shannons(tile_frequencies@, i as int),
            decreases n - i,
        {
            let c = tile_frequencies[i];
            proof {
                lemma_sum_counts_prefix(tile_frequencies@, i + 1, n as int);
                lemma_sum_shannons_bound(tile_frequencies@, i + 1);
                lemma_sum_shannons_nonneg(tile_frequencies@, i as int);
                lemma_partial_shannon_nonneg(c as nat);
                assert(sum_counts(tile_frequencies@, i + 1) * (64 * LOG2_SCALE) <= TOTAL_WEIGHT_MAX
                    * (64 * LOG2_SCALE)) by (nonlinear_arith)
                    requires
                        sum_counts(tile_frequencies@, i + 1) <= TOTAL_WEIGHT_MAX,
                ;
            }
            total_count = total_count + c;
            total_shannons = total_shannons + partial_shannon(c);
            i = i + 1;
        }
        ProbabilityDict { counts: clone_counts(tile_frequencies), total_shannons, total_count }
    }

    /// Reads the entropy.
    pub fn entropy(&self) -> (r: u64)
        requires
            self.wf(),
        ensures
            r == self.entropy_spec(),
            self.total_count > 0 ==> r <= 64 * LOG2_SCALE,
    {
        if self.total_count == 0 {
            u64::MAX
        } else {
            proof {
                lemma_log2_fixed_spec_bound(self.total_count as nat);
                assert(self.total_count * log2_fixed_spec(self.total_count as nat)
                    <= TOTAL_WEIGHT_MAX * (64 * LOG2_SCALE)) by (nonlinear_arith)
                    requires
                        0 <= self.total_count <= TOTAL_WEIGHT_MAX,
                        0 <= log2_fixed_spec(self.total_count as nat) <= 64 * LOG2_SCALE,
                ;
            }
            let l = log2_fixed(self.total_count as u64);
            let prod = (self.total_count as u64) * l;
            if prod <= self.total_shannons {
                0
            } else {
                let num = prod - self.total_shannons;
                let r = num / (self.total_count as u64);
                proof {
                    vstd::arithmetic::div_mod::lemma_div_is_ordered(
                        num as int,
                        prod as int,
                        self.total_count as int,
                    );
                    vstd::arithmetic::div_mod::lemma_div_by_multiple(
                        l as int,
                        self.total_count as int,
                    );
                    assert((self.total_count as int) * (l as int) == (l as int) * (
                    self.total_count as int)) by (nonlinear_arith);
                }
                r
            }
        }
    }

    /// Subtracts one tile's weight and entropy term and zeroes its weight.
    pub fn remove(&mut self, id: TileId)
        requires
            old(self).wf(),
            id < old(self).counts@.len(),
        ensures
            final(self).wf(),
            final(self).counts@ == old(self).counts@.update(id as int, 0),
            final(self).total_count == old(self).total_count - old(self).counts@[id as int],
    {
        proof {
            lemma_sum_counts_elem(self.counts@, self.counts@.len() as int, id as int);
            lemma_sum_shannons_elem(self.counts@, self.counts@.len() as int, id as int);
            lemma_sum_counts_update(self.counts@, id as int, 0, self.counts@.len() as int);
            lemma_sum_shannons_update(self.counts@, id as int, 0, self.counts@.len() as int);
            lemma_partial_shannon_nonneg(self.counts@[id as int] as nat);
        }
        let c = self.counts[id];
        self.total_count = self.total_count - c;
        self.total_shannons = self.total_shannons - partial_shannon(c);
        self.counts.set(id, 0);
    }

    /// The entropy of a cell with exactly one tile of nonzero weight is
    /// exactly zero: with a lone weight `w`, the total is `w` and the
    /// numerator `w*log2(w) - w*log2(w)` vanishes.
    pub proof fn lemma_entropy_of_singleton_is_zero(&self, i: int)
        requires
            self.wf(),
            0 <= i < self.counts@.len(),
            self.counts@[i] > 0,
            forall|j: int| 0 <= j < self.counts@.len() && j != i ==> (#[trigger] self.counts@[j])
                == 0,
        ensures
            self.entropy_spec() == 0,
    {
        lemma_sum_counts_single(self.counts@, self.counts@.len() as int, i);
        lemma_sum_shannons_single(self.counts@, self.counts@.len() as int, i);
        assert(self.total_count == self.counts@[i]);
        assert(self.total_shannons == partial_shannon_spec(self.counts@[i] as nat));
    }
}

impl Clone for ProbabilityDict {
    fn clone(&self) -> (r: Self)
        ensures
            r.counts@ == self.counts@,
            r.total_count == self.total_count,
            r.shannons_spec() == self.shannons_spec(),
            r.wf() == self.wf(),
            r.entropy_spec() == self.entropy_spec(),
    {
        ProbabilityDict {
            counts: clone_counts(&self.counts),
            total_shannons: self.total_shannons,
            total_count: self.total_count,
        }
    }
}

/// Prefix sums never exceed the full sum.
pub proof fn lemma_sum_counts_prefix(s: Seq<usize>, i: int, n: int)
    requires
        0 <= i <= n <= s.len(),
    ensures
        sum_counts(s, i) <= sum_counts(s, n),
    decreases n,
{
    if i < n {
        lemma_sum_counts_prefix(s, i, n - 1);
    }
}

/// Copies a weight vector.
pub(crate) fn clone_counts(v: &Vec<usize>) -> (r: Vec<usize>)
    ensures
        r@ == v@,
{
    let mut r: Vec<usize> = Vec::new();
    let mut i: usize = 0;
    while i < v.len()
        invariant
            i <= v@.len(),
            r@ == v@.subrange(0, i as int),
        decreases v@.len() - i,
    {
        r.push(v[i]);
        proof {
            assert(r@ =~= v@.subrange(0, i + 1));
        }
        i = i + 1;
    }
    proof {
        assert(r@ =~= v@);
    }
    r
}

/// One `w * log2(w)` term, in 16.16 fixed point.
fn partial_shannon(freq: usize) -> (r: u64)
    requires
        freq <= TOTAL_WEIGHT_MAX,
    ensures
        r == partial_shannon_spec(freq as nat),
{
    if freq == 0 {
        0
    } else {
        let l = log2_fixed(freq as u64);
        proof {
            lemma_log2_fixed_spec_bound(freq as nat);
            assert(freq * log2_fixed_spec(freq as nat) <= TOTAL_WEIGHT_MAX * (64 * LOG2_SCALE))
                by (nonlinear_arith)
                requires
                    0 <= freq <= TOTAL_WEIGHT_MAX,
                    0 <= log2_fixed_spec(freq as nat) <= 64 * LOG2_SCALE,
            ;
        }
        (freq as u64) * l
    }
}

/// Zeroes the weights of a duplicate-free list of removed tiles, keeping
/// the running sums consistent.
fn zero_removed_weights(pd: &mut ProbabilityDict, removed: &Vec<TileId>)
    requires
        old(pd).wf(),
        removed@.no_duplicates(),
        forall|k: int| 0 <= k < removed@.len() ==> (#[trigger] removed@[k]) < old(pd).counts@.len(),
    ensures
        final(pd).wf(),
        final(pd).counts@.len() == old(pd).counts@.len(),
        forall|t: TileId|
            t < final(pd).counts@.len() ==> #[trigger] final(pd).counts@[t as int]
                == if removed@.contains(t) {
                0int
            } else {
                old(pd).counts@[t as int] as int
            },
{
    let ghost rem = removed@;
    let ghost n = old(pd).counts@.len();
    let mut j: usize = 0;
    while j < removed.len()
        invariant
            rem == removed@,
            n == old(pd).counts@.len(),
            j <= rem.len(),
            rem.no_duplicates(),
            forall|k: int| 0 <= k < rem.len() ==> (#[trigger] rem[k]) < n,
            pd.wf(),
            pd.counts@.len() == n,
            forall|t: TileId|
                t < n ==> #[trigger] pd.counts@[t as int] == if rem.subrange(0, j as int).contains(
                    t,
                ) {
                    0int
                } else {
                    old(pd).counts@[t as int] as int
                },
        decreases rem.len() - j,
    {
        let t = removed[j];
        let ghost prefix = rem.subrange(0, j as int);
        let ghost prefix1 = rem.subrange(0, j + 1);
        proof {
            assert(rem[j as int] == t);
            assert(prefix1[j as int] == t);
            assert(prefix1.contains(t));
            assert(!prefix.contains(t)) by {
                if prefix.contains(t) {
                    let k = choose|k: int| 0 <= k < prefix.len() && prefix[k] == t;
                    assert(rem[k] == t);
                }
            }
            assert forall|x: TileId|
                x != t implies (prefix1.contains(x) <==> prefix.contains(x)) by {
                if prefix1.contains(x) {
                    let k = choose|k: int| 0 <= k < prefix1.len() && prefix1[k] == x;
                    if k < j {
                        assert(prefix[k] == x);
                    }
                }
                if prefix.contains(x) {
                    let k = choose|k: int| 0 <= k < prefix.len() && prefix[k] == x;
                    assert(prefix1[k] == x);
                }
            }
        }
        let ghost pre_counts = pd.counts@;
        pd.remove(t);
        proof {
            assert forall|x: TileId|
                x < n implies #[trigger] pd.counts@[x as int] == if prefix1.contains(x) {
                0int
            } else {
                old(pd).counts@[x as int] as int
            } by {
                if x != t {
                    assert(pd.counts@[x as int] == pre_counts[x as int]);
                }
            }
        }
        j = j + 1;
    }
    proof {
        assert(rem.subrange(0, rem.len() as int) =~= rem);
    }
}

/// A queue entry: a cell's entropy key at the time it was pushed.
#[derive(Clone, Copy, Debug, PartialEq, Eq, Structural)]
pub struct EntropyEntry {
    pub entropy: u64,
    pub loc: Loc,
}

impl EntropyEntry {
    /// Ordering: by entropy, ties broken by location.
    pub open spec fn le_spec(self, other: EntropyEntry) -> bool {
        self.entropy < other.entropy || (self.entropy == other.entropy && (self.loc.x
            < other.loc.x || (self.loc.x == other.loc.x && self.loc.y <= other.loc.y)))
    }

    /// Compares two entries.
    pub fn le(&self, other: &EntropyEntry) -> (r: bool)
        ensures
            r == self.le_spec(*other),
    {
        self.entropy < other.entropy || (self.entropy == other.entropy && (self.loc.x
            < other.loc.x || (self.loc.x == other.loc.x && self.loc.y <= other.loc.y)))
    }
}

/// A min-priority queue of entropy entries with lazy deletion: pushes on
/// every update, stale entries are discarded when popped.
pub struct MinEntropyHeap {
    entries: Vec<EntropyEntry>,
}

impl View for MinEntropyHeap {
    type V = Seq<EntropyEntry>;

    closed spec fn view(&self) -> Seq<EntropyEntry> {
        self.entries@
    }
}

impl MinEntropyHeap {
    /// An empty queue.
    pub fn new() -> (r: MinEntropyHeap)
        ensures
            r@.len() == 0,
    {
        MinEntropyHeap { entries: Vec::new() }
    }

    /// Number of entries, stale ones included.
    pub fn len(&self) -> (r: usize)
        ensures
            r == self@.len(),
    {
        self.entries.len()
    }

    /// Adds an entry.
    pub fn push(&mut self, e: EntropyEntry)
        ensures
            final(self)@ == old(self)@.push(e),
    {
        self.entries.push(e);
    }

    /// Removes and returns a least entry: the result compares at or below
    /// every entry that was in the queue.
    pub fn pop(&mut self) -> (r: Option<EntropyEntry>)
        ensures
            old(self)@.len() == 0 ==> r is None && final(self)@ == old(self)@,
            old(self)@.len() > 0 ==> r is Some,
            r matches Some(e) ==> {
                &&& exists|idx: int|
                    #![auto]
                    0 <= idx < old(self)@.len() && old(self)@[idx] == e && final(self)@ == old(self)@.remove(idx)
                &&& forall|j: int| 0 <= j < old(self)@.len() ==> e.le_spec(#[trigger] old(self)@[j])
                &&& final(self)@.len() == old(self)@.len() - 1
            },
    {
        if self.entries.len() == 0 {
            return None;
        }
        let mut best: usize = 0;
        let mut i: usize = 1;
        while i < self.entries.len()
            invariant
                best < i <= self.entries@.len(),
                forall|j: int|
                    0 <= j < i ==> self.entries@[best as int].le_spec(#[trigger] self.entries@[j]),
            decreases self.entries@.len() - i,
        {
            let cand = self.entries[i];
            let cur = self.entries[best];
            if cand.le(&cur) && !cur.le(&cand) {
                best = i;
            } else {
                proof {
                    // A total order: not strictly below means at or above.
                    assert(cur.le_spec(cand));
                }
            }
            i = i + 1;
        }
        let e = self.entries[best];
        let ghost pre = self.entries@;
        let _ = self.entries.remove(best);
        proof {
            assert(pre == old(self)@);
            assert(self@ == pre.remove(best as int));
            assert(0 <= best < pre.len() && pre[best as int] == e);
            assert(exists|idx: int|
                #![auto]
                0 <= idx < old(self)@.len() && old(self)@[idx] == e && self@ == old(self)@.remove(
                    idx,
                ));
        }
        Some(e)
    }
}

/// A unit of propagation work: this tile has just become impossible at this
/// cell; the neighbours must be re-examined.
#[derive(Clone, Copy, Debug, PartialEq, Eq, Structural)]
pub struct TileRemovalEvent {
    pub tile_id: TileId,
    pub cell_loc: Loc,
}

impl TileRemovalEvent {
    /// A single event.
    pub fn new(tile_id: TileId, cell_loc: Loc) -> (r: TileRemovalEvent)
        ensures
            r.tile_id == tile_id,
            r.cell_loc == cell_loc,
    {
        TileRemovalEvent { tile_id, cell_loc }
    }

    /// Wraps each removed tile id into an event at `loc`.
    pub fn from_list_of_removed_tiles(removed_tiles: Vec<TileId>, loc: Loc) -> (r: Vec<
        TileRemovalEvent,
    >)
        ensures
            r@.len() == removed_tiles@.len(),
            forall|k: int|
                0 <= k < r@.len() ==> (#[trigger] r@[k]) == (TileRemovalEvent {
                    tile_id: removed_tiles@[k],
                    cell_loc: loc,
                }),
    {
        let mut r: Vec<TileRemovalEvent> = Vec::new();
        let mut i: usize = 0;
        while i < removed_tiles.len()
            invariant
                i <= removed_tiles@.len(),
                r@.len() == i,
                forall|k: int|
                    0 <= k < i ==> (#[trigger] r@[k]) == (TileRemovalEvent {
                        tile_id: removed_tiles@[k],
                        cell_loc: loc,
                    }),
            decreases removed_tiles@.len() - i,
        {
            r.push(TileRemovalEvent { tile_id: removed_tiles[i], cell_loc: loc });
            i = i + 1;
        }
        r
    }
}

/// Bound on the per-cell random tie-break jitter added to entropy keys.
pub const JITTER_RANGE: u64 = 256;

/// One grid position: the set of tiles still possible here (with their
/// arc-consistency counters), the matching probability statistics, and the
/// tile this cell has been committed to, if any.
pub struct Cell {
    pub collapsed_to: Option<TileId>,
    pub domain: EnablerDict,
    pub probability_dict: ProbabilityDict,
    pub loc: Loc,
    pub jitter: u64,
}

impl Cell {
    /// Well-formedness: the probability table tracks exactly the possible
    /// tiles (a tile is possible if and only if its weight is nonzero), and
    /// a collapsed cell has exactly its chosen tile possible.
    pub open spec fn wf(&self) -> bool {
        &&& self.probability_dict.counts@.len() == self.domain.len_spec()
        &&& self.probability_dict.wf()
        &&& forall|t: TileId|
            t < self.domain.len_spec() ==> ((#[trigger] self.domain.allowed(t))
                <==> self.probability_dict.counts@[t as int] > 0)
        &&& match self.collapsed_to {
            Some(t) => self.domain.singleton_spec(t),
            None => true,
        }
        &&& self.jitter < JITTER_RANGE
    }

    /// A fresh, uncollapsed cell.
    fn new(probability_dict: ProbabilityDict, enabler_dict: EnablerDict, loc: Loc, jitter: u64) -> (r:
        Cell)
        ensures
            r.collapsed_to is None,
            r.domain == enabler_dict,
            r.probability_dict == probability_dict,
            r.loc == loc,
            r.jitter == jitter,
    {
        Cell { collapsed_to: None, domain: enabler_dict, probability_dict, loc, jitter }
    }

    /// Whether this cell has been committed to a single tile.
    pub fn collapsed(&self) -> (r: bool)
        ensures
            r == (self.collapsed_to is Some),
    {
        self.collapsed_to.is_some()
    }

    /// The cell's scheduling key: its entropy plus the fixed tie-break
    /// jitter, saturating at the largest value.
    pub open spec fn entropy_key_spec(&self) -> int {
        if self.probability_dict.entropy_spec() + self.jitter > u64::MAX {
            u64::MAX as int
        } else {
            self.probability_dict.entropy_spec() + self.jitter
        }
    }

    /// The queue entry for this cell's current entropy.
    pub fn get_entropy_entry(&self) -> (r: EntropyEntry)
        requires
            self.wf(),
        ensures
            r.loc == self.loc,
            r.entropy == self.entropy_key_spec(),
    {
        let e = self.probability_dict.entropy();
        let v = if e > u64::MAX - self.jitter {
            u64::MAX
        } else {
            e + self.jitter
        };
        EntropyEntry { entropy: v, loc: self.loc }
    }

    /// Commits this cell to one tile, chosen uniformly at random among the
    /// tiles still possible, removing every other tile and its weight.  The
    /// returned events carry the removed tiles for propagation.  A cell with
    /// no possible tile left is a contradiction.
    pub fn collapse(&mut self, rng: &mut rand::rngs::StdRng) -> (r: Result<
        Vec<TileRemovalEvent>,
        Contradiction,
    >)
        requires
            old(self).wf(),
            old(self).collapsed_to is None,
        ensures
            r is Err <==> old(self).domain.allowed_count() == 0,
            r is Err ==> *final(self) == *old(self),
            r matches Ok(events) ==> {
                &&& final(self).wf()
                &&& final(self).loc == old(self).loc
                &&& final(self).jitter == old(self).jitter
                &&& final(self).domain.len_spec() == old(self).domain.len_spec()
                &&& final(self).collapsed_to is Some
                &&& old(self).domain.allowed(final(self).collapsed_to.unwrap())
                &&& final(self).domain.singleton_spec(final(self).collapsed_to.unwrap())
                &&& final(self).domain.allowed_count() == 1
                &&& final(self).probability_dict.total_count > 0
                &&& events@.len() == old(self).domain.allowed_count() - 1
                &&& forall|k: int|
                    0 <= k < events@.len() ==> (#[trigger] events@[k]).cell_loc == old(self).loc
                        && events@[k].tile_id < old(self).domain.len_spec() && old(self).domain.allowed(events@[k].tile_id) && events@[k].tile_id != final(self).collapsed_to.unwrap()
                &&& forall|k: int, l: int|
                    0 <= k < l < events@.len() ==> events@[k].tile_id != events@[l].tile_id
            },
    {
        let ids = self.domain.allowed_tile_ids();
        if ids.len() == 0 {
            return Err(Contradiction);
        }
        let idx = crate::rng::rng_below(rng, ids.len());
        let f = ids[idx];
        proof {
            assert(self.domain.allowed(f));
        }
        self.collapsed_to = Some(f);
        let removed = self.domain.remove_all_but(f);
        let ghost n = old(self).domain.len_spec();
        let ghost rem = removed@;
        let ghost dom_after = self.domain;
        proof {
            assert forall|k: int| 0 <= k < rem.len() implies (#[trigger] rem[k]) < n by {
                assert(rem.contains(rem[k]));
                assert(old(self).domain.allowed(rem[k]));
            }
        }
        zero_removed_weights(&mut self.probability_dict, &removed);
        proof {
            assert forall|t: TileId|
                t < n implies ((#[trigger] self.domain.allowed(t))
                <==> self.probability_dict.counts@[t as int] > 0) by {
                if t == f {
                    assert(!rem.contains(t));
                    assert(old(self).probability_dict.counts@[t as int] > 0);
                } else {
                    if old(self).domain.allowed(t) {
                        assert(rem.contains(t));
                    } else {
                        assert(!rem.contains(t));
                        assert(old(self).probability_dict.counts@[t as int] == 0);
                    }
                }
            }
            assert(self.probability_dict.counts@[f as int] > 0);
            lemma_sum_counts_elem(
                self.probability_dict.counts@,
                self.probability_dict.counts@.len() as int,
                f as int,
            );
        }
        let events = TileRemovalEvent::from_list_of_removed_tiles(removed, self.loc);
        proof {
            assert forall|k: int|
                0 <= k < events@.len() implies (#[trigger] events@[k]).cell_loc == old(self).loc
                && events@[k].tile_id < n && old(self).domain.allowed(events@[k].tile_id)
                && events@[k].tile_id != f by {
                assert(events@[k].tile_id == rem[k]);
                assert(rem.contains(rem[k]));
            }
            assert forall|k: int, l: int|
                0 <= k < l < events@.len() implies events@[k].tile_id != events@[l].tile_id by {
                assert(events@[k].tile_id == rem[k]);
                assert(events@[l].tile_id == rem[l]);
            }
        }
        Ok(events)
    }

    /// Processes the removal of `enabler` in the neighbour in direction
    /// `from_dir` from this cell: a no-op on an already-collapsed cell,
    /// otherwise the arc-consistency step on the domain, with the weights of
    /// newly impossible tiles removed and the removals wrapped as events.
    pub fn remove_enabler(
        &mut self,
        enabler: TileId,
        from_dir: CardinalDirs,
        adjacency_rules: &AdjacencyRules,
    ) -> (r: Result<Option<Vec<TileRemovalEvent>>, Contradiction>)
        requires
            old(self).wf(),
            adjacency_rules.wf(),
            enabler < adjacency_rules.len_spec(),
            old(self).domain.len_spec() == adjacency_rules.len_spec(),
        ensures
            ({
                let s = adjacency_rules.allowed_seq(enabler, from_dir);
                let od = from_dir.opp();
                &&& final(self).loc == old(self).loc
                &&& final(self).jitter == old(self).jitter
                &&& final(self).collapsed_to == old(self).collapsed_to
                &&& final(self).domain.len_spec() == old(self).domain.len_spec()
                &&& (r is Ok ==> final(self).wf())
                &&& (r is Err ==> *final(self) == *old(self))
                &&& (old(self).collapsed_to is Some ==> *final(self) == *old(self) && (r matches
                Ok(o) && o is None))
                &&& (old(self).collapsed_to is None ==> {
                    &&& (r is Err <==> old(self).domain.has_zero_count_clash(s, od))
                    &&& (r is Ok ==> EnablerDict::decremented(
                        old(self).domain,
                        final(self).domain,
                        s,
                        od,
                    ))
                    &&& (r matches Ok(o) ==> match o {
                        None => final(self).domain.allowed_count() == old(self).domain.allowed_count()
                            && forall|t: TileId|
                            !#[trigger] old(self).domain.newly_impossible(s, t, od),
                        Some(events) => {
                            &&& events@.len() > 0
                            &&& final(self).domain.allowed_count() == old(self).domain.allowed_count() - events@.len()
                            &&& forall|k: int|
                                0 <= k < events@.len() ==> (#[trigger] events@[k]).cell_loc == old(self).loc && events@[k].tile_id < old(self).domain.len_spec() && old(self).domain.newly_impossible(s, events@[k].tile_id, od)
                            &&& forall|k: int, l: int|
                                0 <= k < l < events@.len() ==> events@[k].tile_id
                                    != events@[l].tile_id
                            &&& forall|t: TileId|
                                #[trigger] old(self).domain.newly_impossible(s, t, od)
                                    ==> exists|k: int|
                                    0 <= k < events@.len() && (#[trigger] events@[k]).tile_id
                                        == t
                        },
                    })
                })
            }),
    {
        if self.collapsed_to.is_some() {
            return Ok(None);
        }
        let ghost s = adjacency_rules.allowed_seq(enabler, from_dir);
        let ghost od = from_dir.opp();
        let removed_opt = match self.domain.remove_single(enabler, from_dir, adjacency_rules) {
            Err(c) => {
                return Err(c);
            },
            Ok(o) => o,
        };
        let removed = match removed_opt {
            None => {
                proof {
                    assert forall|t: TileId|
                        t < old(self).domain.len_spec() implies ((#[trigger] self.domain.allowed(t))
                        <==> self.probability_dict.counts@[t as int] > 0) by {
                        if old(self).domain.newly_impossible(s, t, od) {
                        }
                    }
                }
                return Ok(None);
            },
            Some(removed) => removed,
        };
        let ghost n = old(self).domain.len_spec();
        let ghost rem = removed@;
        proof {
            assert forall|k: int| 0 <= k < rem.len() implies (#[trigger] rem[k]) < n by {
                assert(rem.contains(rem[k]));
                assert(old(self).domain.newly_impossible(s, rem[k], od));
            }
        }
        zero_removed_weights(&mut self.probability_dict, &removed);
        proof {
            assert forall|t: TileId|
                t < n implies ((#[trigger] self.domain.allowed(t))
                <==> self.probability_dict.counts@[t as int] > 0) by {
                if rem.contains(t) {
                    assert(old(self).domain.newly_impossible(s, t, od));
                    assert(!self.domain.allowed(t));
                } else {
                    assert(self.domain.allowed(t) <==> old(self).domain.allowed(t)) by {
                        if old(self).domain.newly_impossible(s, t, od) {
                            assert(rem.contains(t));
                        }
                    }
                    assert(self.probability_dict.counts@[t as int] == old(self).probability_dict.counts@[t as int]);
                }
            }
        }
        let events = TileRemovalEvent::from_list_of_removed_tiles(removed, self.loc);
        proof {
            assert forall|k: int|
                0 <= k < events@.len() implies (#[trigger] events@[k]).cell_loc == old(self).loc
                && events@[k].tile_id < n && old(self).domain.newly_impossible(
                s,
                events@[k].tile_id,
                od,
            ) by {
                assert(events@[k].tile_id == rem[k]);
                assert(rem.contains(rem[k]));
            }
            assert forall|k: int, l: int|
                0 <= k < l < events@.len() implies events@[k].tile_id != events@[l].tile_id by {
                assert(events@[k].tile_id == rem[k]);
                assert(events@[l].tile_id == rem[l]);
            }
            assert forall|t: TileId|
                #[trigger] old(self).domain.newly_impossible(s, t, od) implies exists|k: int|
                0 <= k < events@.len() && (#[trigger] events@[k]).tile_id == t by {
                assert(rem.contains(t));
                let k = choose|k: int| 0 <= k < rem.len() && rem[k] == t;
                assert(events@[k].tile_id == t);
            }
        }
        Ok(Some(events))
    }
}

/// Sum over the first `n` tiles of `weight * channel` for pixel `p` and
/// channel `c`; tiles no longer possible carry weight zero.
pub open spec fn weighted_channel_sum(
    counts: Seq<usize>,
    pats: Seq<crate::preprocessor::Pattern>,
    n: int,
    p: int,
    c: int,
) -> int
    decreases n,
{
    if n <= 0 {
        0
    } else {
        weighted_channel_sum(counts, pats, n - 1, p, c) + counts[n - 1] * pats[n - 1]@[p][c]
    }
}

proof fn lemma_weighted_channel_sum_bound(
    counts: Seq<usize>,
    pats: Seq<crate::preprocessor::Pattern>,
    n: int,
    p: int,
    c: int,
)
    requires
        0 <= n <= counts.len(),
        n <= pats.len(),
        forall|t: int| 0 <= t < n ==> p < (#[trigger] pats[t])@.len(),
        0 <= p,
        0 <= c < 4,
    ensures
        0 <= weighted_channel_sum(counts, pats, n, p, c) <= sum_counts(counts, n) * 255,
    decreases n,
{
    if n > 0 {
        lemma_weighted_channel_sum_bound(counts, pats, n - 1, p, c);
        let ch = pats[n - 1]@[p][c as int];
        assert(0 <= counts[n - 1] * ch <= counts[n - 1] * 255) by (nonlinear_arith)
            requires
                0 <= counts[n - 1],
                0 <= ch <= 255,
        ;
        assert((sum_counts(counts, n - 1) + counts[n - 1]) * 255 == sum_counts(counts, n - 1) * 255
            + counts[n - 1] * 255) by (nonlinear_arith);
    }
}

impl Cell {
    /// Renders this cell: a collapsed (or fully determined) cell shows its
    /// lone pattern verbatim; otherwise each pixel channel is the
    /// frequency-weighted average over the still-possible patterns, with the
    /// alpha channel forced opaque.
    pub fn render(&self, patterns: &Vec<crate::preprocessor::Pattern>, tile_size: usize) -> (r:
        crate::preprocessor::Pattern)
        requires
            self.wf(),
            self.probability_dict.total_count > 0,
            patterns@.len() == self.domain.len_spec(),
            tile_size * tile_size <= usize::MAX,
            forall|t: int| 0 <= t < patterns@.len() ==> (#[trigger] patterns@[t])@.len()
                == tile_size * tile_size,
        ensures
            self.domain.allowed_count() == 1 ==> exists|f: TileId|
                #![auto]
                self.domain.allowed(f) && r@ =~= patterns@[f as int]@,
            self.domain.allowed_count() != 1 ==> {
                &&& r@.len() == tile_size * tile_size
                &&& forall|p: int|
                    0 <= p < r@.len() ==> {
                        let n = patterns@.len() as int;
                        let total = self.probability_dict.total_count as int;
                        let cs = self.probability_dict.counts@;
                        &&& (#[trigger] r@[p])[0] == weighted_channel_sum(cs, patterns@, n, p, 0)
                            / total
                        &&& r@[p][1] == weighted_channel_sum(cs, patterns@, n, p, 1) / total
                        &&& r@[p][2] == weighted_channel_sum(cs, patterns@, n, p, 2) / total
                        &&& r@[p][3] == 255
                    }
            },
    {
        let ids = self.domain.allowed_tile_ids();
        if ids.len() == 1 {
            let f = ids[0];
            proof {
                assert(self.domain.allowed(f));
            }
            let src = &patterns[f];
            let mut out: crate::preprocessor::Pattern = Vec::new();
            let mut j: usize = 0;
            while j < src.len()
                invariant
                    j <= src@.len(),
                    out@ == src@.subrange(0, j as int),
                decreases src@.len() - j,
            {
                out.push(src[j]);
                proof {
                    assert(out@ =~= src@.subrange(0, j + 1));
                }
                j = j + 1;
            }
            proof {
                assert(out@ =~= src@);
            }
            return out;
        }
        let n = patterns.len();
        let total = self.probability_dict.total_count;
        let npix = tile_size * tile_size;
        let mut out: crate::preprocessor::Pattern = Vec::new();
        let mut p: usize = 0;
        while p < npix
            invariant
                self.wf(),
                total == self.probability_dict.total_count,
                total > 0,
                n == patterns@.len(),
                patterns@.len() == self.probability_dict.counts@.len(),
                npix == tile_size * tile_size,
                forall|t: int| 0 <= t < patterns@.len() ==> (#[trigger] patterns@[t])@.len()
                    == npix,
                p <= npix,
                out@.len() == p,
                forall|q: int|
                    0 <= q < p ==> {
                        let cs = self.probability_dict.counts@;
                        &&& (#[trigger] out@[q])[0] == weighted_channel_sum(
                            cs,
                            patterns@,
                            n as int,
                            q,
                            0,
                        ) / total as int
                        &&& out@[q][1] == weighted_channel_sum(cs, patterns@, n as int, q, 1)
                            / total as int
                        &&& out@[q][2] == weighted_channel_sum(cs, patterns@, n as int, q, 2)
                            / total as int
                        &&& out@[q][3] == 255
                    },
            decreases npix - p,
        {
            let mut s0: u64 = 0;
            let mut s1: u64 = 0;
            let mut s2: u64 = 0;
            let mut t: usize = 0;
            while t < n
                invariant
                    self.wf(),
                    total == self.probability_dict.total_count,
                    total > 0,
                    n == patterns@.len(),
                    patterns@.len() == self.probability_dict.counts@.len(),
                    p < npix,
                    forall|t2: int| 0 <= t2 < patterns@.len() ==> (#[trigger] patterns@[t2])@.len()
                        == npix,
                    t <= n,
                    s0 == weighted_channel_sum(
                        self.probability_dict.counts@,
                        patterns@,
                        t as int,
                        p as int,
                        0,
                    ),
                    s1 == weighted_channel_sum(
                        self.probability_dict.counts@,
                        patterns@,
                        t as int,
                        p as int,
                        1,
                    ),
                    s2 == weighted_channel_sum(
                        self.probability_dict.counts@,
                        patterns@,
                        t as int,
                        p as int,
                        2,
                    ),
                decreases n - t,
            {
                let ghost cs = self.probability_dict.counts@;
                proof {
                    lemma_weighted_channel_sum_bound(cs, patterns@, t as int, p as int, 0);
                    lemma_weighted_channel_sum_bound(cs, patterns@, t as int, p as int, 1);
                    lemma_weighted_channel_sum_bound(cs, patterns@, t as int, p as int, 2);
                    lemma_sum_counts_elem(cs, cs.len() as int, t as int);
                    lemma_sum_counts_prefix(cs, t as int, cs.len() as int);
                    assert(sum_counts(cs, t as int) * 255 <= TOTAL_WEIGHT_MAX * 255)
                        by (nonlinear_arith)
                        requires
                            sum_counts(cs, t as int) <= TOTAL_WEIGHT_MAX,
                    ;
                    assert(self.probability_dict.counts@[t as int] * 255 <= TOTAL_WEIGHT_MAX * 255)
                        by (nonlinear_arith)
                        requires
                            0 <= self.probability_dict.counts@[t as int] <= TOTAL_WEIGHT_MAX,
                    ;
                }
                let cnt = self.probability_dict.counts[t] as u64;
                let pat = &patterns[t];
                let px = pat[p];
                proof {
                    assert(cnt * (px[0] as u64) <= cnt * 255 && cnt * (px[1] as u64) <= cnt * 255
                        && cnt * (px[2] as u64) <= cnt * 255) by (nonlinear_arith)
                        requires
                            0 <= cnt,
                            px[0] <= 255,
                            px[1] <= 255,
                            px[2] <= 255,
                    ;
                }
                s0 = s0 + cnt * (px[0] as u64);
                s1 = s1 + cnt * (px[1] as u64);
                s2 = s2 + cnt * (px[2] as u64);
                t = t + 1;
            }
            let ghost cs = self.probability_dict.counts@;
            proof {
                lemma_weighted_channel_sum_bound(cs, patterns@, n as int, p as int, 0);
                lemma_weighted_channel_sum_bound(cs, patterns@, n as int, p as int, 1);
                lemma_weighted_channel_sum_bound(cs, patterns@, n as int, p as int, 2);
                let tot = total as int;
                assert(sum_counts(cs, n as int) * 255 == 255 * tot) by (nonlinear_arith)
                    requires
                        sum_counts(cs, n as int) == tot,
                ;
                vstd::arithmetic::div_mod::lemma_div_is_ordered(s0 as int, 255 * tot, tot);
                vstd::arithmetic::div_mod::lemma_div_is_ordered(s1 as int, 255 * tot, tot);
                vstd::arithmetic::div_mod::lemma_div_is_ordered(s2 as int, 255 * tot, tot);
                vstd::arithmetic::div_mod::lemma_div_by_multiple(255, tot);
            }
            let c0 = (s0 / (total as u64)) as u8;
            let c1 = (s1 / (total as u64)) as u8;
            let c2 = (s2 / (total as u64)) as u8;
            out.push([c0, c1, c2, 255]);
            p = p + 1;
        }
        out
    }
}

impl Clone for Cell {
    fn clone(&self) -> (r: Self)
        ensures
            r.collapsed_to == self.collapsed_to,
            r.loc == self.loc,
            r.jitter == self.jitter,
            r.domain.len_spec() == self.domain.len_spec(),
            forall|t: TileId| #[trigger] r.domain.allowed(t) <==> self.domain.allowed(t),
            forall|t: TileId, d: CardinalDirs| #[trigger] r.domain.count_spec(t, d)
                == self.domain.count_spec(t, d),
            r.domain.allowed_count() == self.domain.allowed_count(),
            r.probability_dict.counts@ == self.probability_dict.counts@,
            r.probability_dict.total_count == self.probability_dict.total_count,
            r.probability_dict.entropy_spec() == self.probability_dict.entropy_spec(),
            r.entropy_key_spec() == self.entropy_key_spec(),
            self.wf() ==> r.wf(),
    {
        let r = Cell {
            collapsed_to: self.collapsed_to,
            domain: self.domain.clone(),
            probability_dict: self.probability_dict.clone(),
            loc: self.loc,
            jitter: self.jitter,
        };
        proof {
            if self.wf() {
                match r.collapsed_to {
                    Some(t) => {
                        assert(r.domain.singleton_spec(t)) by {
                            assert(r.domain.allowed(t));
                            assert forall|o: TileId| o != t implies !r.domain.allowed(o) by {
                                assert(!self.domain.allowed(o));
                            }
                        }
                    },
                    None => {},
                }
                assert(r.wf());
            }
        }
        r
    }
}

/// Number of uncollapsed cells among the first `n`.
pub open spec fn count_uncollapsed(s: Seq<Cell>, n: int) -> int
    decreases n,
{
    if n <= 0 {
        0
    } else {
        count_uncollapsed(s, n - 1) + if s[n - 1].collapsed_to is None {
            1int
        } else {
            0int
        }
    }
}

/// Sum over the first `n` cells of how many tiles each still allows.
pub open spec fn total_allowed(s: Seq<Cell>, n: int) -> int
    decreases n,
{
    if n <= 0 {
        0
    } else {
        total_allowed(s, n - 1) + s[n - 1].domain.allowed_count()
    }
}

proof fn lemma_count_uncollapsed_update(s: Seq<Cell>, j: int, c: Cell, n: int)
    requires
        0 <= j < s.len(),
        n <= s.len(),
    ensures
        count_uncollapsed(s.update(j, c), n) == count_uncollapsed(s, n) + if j < n {
            (if c.collapsed_to is None {
                1int
            } else {
                0int
            }) - (if s[j].collapsed_to is None {
                1int
            } else {
                0int
            })
        } else {
            0int
        },
    decreases n,
{
    if n > 0 {
        lemma_count_uncollapsed_update(s, j, c, n - 1);
    }
}

proof fn lemma_count_uncollapsed_bounds(s: Seq<Cell>, n: int)
    requires
        0 <= n <= s.len(),
    ensures
        0 <= count_uncollapsed(s, n) <= n,
    decreases n,
{
    if n > 0 {
        lemma_count_uncollapsed_bounds(s, n - 1);
    }
}

proof fn lemma_count_uncollapsed_all(s: Seq<Cell>, n: int)
    requires
        forall|i: int| 0 <= i < n ==> (#[trigger] s[i]).collapsed_to is None,
    ensures
        count_uncollapsed(s, n) == if n >= 0 {
            n
        } else {
            0int
        },
    decreases n,
{
    if n > 0 {
        lemma_count_uncollapsed_all(s, n - 1);
    }
}

/// A positive count of uncollapsed cells names one.
proof fn lemma_count_uncollapsed_pos(s: Seq<Cell>, n: int)
    requires
        0 <= n <= s.len(),
        count_uncollapsed(s, n) > 0,
    ensures
        exists|i: int| 0 <= i < n && (#[trigger] s[i]).collapsed_to is None,
    decreases n,
{
    if n > 0 {
        if s[n - 1].collapsed_to is None {
        } else {
            lemma_count_uncollapsed_pos(s, n - 1);
        }
    }
}

/// A zero count of uncollapsed cells means every cell is collapsed.
proof fn lemma_count_uncollapsed_zero(s: Seq<Cell>, n: int)
    requires
        0 <= n <= s.len(),
        count_uncollapsed(s, n) == 0,
    ensures
        forall|i: int| 0 <= i < n ==> (#[trigger] s[i]).collapsed_to is Some,
    decreases n,
{
    if n > 0 {
        lemma_count_uncollapsed_bounds(s, n - 1);
        lemma_count_uncollapsed_zero(s, n - 1);
    }
}

proof fn lemma_total_allowed_update(s: Seq<Cell>, j: int, c: Cell, n: int)
    requires
        0 <= j < s.len(),
        n <= s.len(),
    ensures
        total_allowed(s.update(j, c), n) == total_allowed(s, n) + if j < n {
            c.domain.allowed_count() - s[j].domain.allowed_count()
        } else {
            0int
        },
    decreases n,
{
    if n > 0 {
        lemma_total_allowed_update(s, j, c, n - 1);
    }
}

proof fn lemma_total_allowed_nonneg(s: Seq<Cell>, n: int)
    requires
        0 <= n <= s.len(),
    ensures
        total_allowed(s, n) >= 0,
    decreases n,
{
    if n > 0 {
        lemma_total_allowed_nonneg(s, n - 1);
        s[n - 1].domain.lemma_allowed_count_bounds();
    }
}

/// Where a location is in bounds, the grid cell adjacent in one direction,
/// `None` past the edge.
pub open spec fn neighbor_of(loc: Loc, dir: CardinalDirs, w: int, h: int) -> Option<Loc> {
    match dir {
        CardinalDirs::Up => if loc.y >= 1 {
            Some(Loc { x: loc.x, y: (loc.y - 1) as usize })
        } else {
            None
        },
        CardinalDirs::Down => if loc.y + 1 < h {
            Some(Loc { x: loc.x, y: (loc.y + 1) as usize })
        } else {
            None
        },
        CardinalDirs::Left => if loc.x >= 1 {
            Some(Loc { x: (loc.x - 1) as usize, y: loc.y })
        } else {
            None
        },
        CardinalDirs::Right => if loc.x + 1 < w {
            Some(Loc { x: (loc.x + 1) as usize, y: loc.y })
        } else {
            None
        },
    }
}

/// What one propagation step does to the cell at index `j`, the in-bounds
/// neighbour of the popped event's cell in direction `dd`: a collapsed cell
/// is left alone; an uncollapsed one takes exactly the event tile's
/// arc-consistency decrement, and had no zero-counter clash.
pub open spec fn neighbor_processed(
    pre: Seq<Cell>,
    post: Seq<Cell>,
    j: int,
    rules: AdjacencyRules,
    tile: TileId,
    dd: CardinalDirs,
) -> bool {
    &&& (pre[j].collapsed_to is Some ==> post[j] == pre[j])
    &&& (pre[j].collapsed_to is None ==> EnablerDict::decremented(
        pre[j].domain,
        post[j].domain,
        rules.allowed_seq(tile, dd),
        dd.opp(),
    ) && !pre[j].domain.has_zero_count_clash(rules.allowed_seq(tile, dd), dd.opp()))
}

/// Distinct directions lead to distinct neighbour locations.
proof fn lemma_neighbor_of_distinct(loc: Loc, d1: CardinalDirs, d2: CardinalDirs, w: int, h: int)
    requires
        d1 != d2,
        w <= usize::MAX,
        h <= usize::MAX,
        neighbor_of(loc, d1, w, h) is Some,
        neighbor_of(loc, d2, w, h) is Some,
    ensures
        neighbor_of(loc, d1, w, h) != neighbor_of(loc, d2, w, h),
{
    let a = neighbor_of(loc, d1, w, h).unwrap();
    let b = neighbor_of(loc, d2, w, h).unwrap();
    match d1 {
        CardinalDirs::Up => match d2 {
            CardinalDirs::Up => {},
            CardinalDirs::Left => {
                assert(a.x == loc.x && b.x == loc.x - 1);
            },
            CardinalDirs::Down => {
                assert(a.y == loc.y - 1 && b.y == loc.y + 1);
            },
            CardinalDirs::Right => {
                assert(a.x == loc.x && b.x == loc.x + 1);
            },
        },
        CardinalDirs::Left => match d2 {
            CardinalDirs::Up => {
                assert(a.x == loc.x - 1 && b.x == loc.x);
            },
            CardinalDirs::Left => {},
            CardinalDirs::Down => {
                assert(a.x == loc.x - 1 && b.x == loc.x);
            },
            CardinalDirs::Right => {
                assert(a.x == loc.x - 1 && b.x == loc.x + 1);
            },
        },
        CardinalDirs::Down => match d2 {
            CardinalDirs::Up => {
                assert(a.y == loc.y + 1 && b.y == loc.y - 1);
            },
            CardinalDirs::Left => {
                assert(a.x == loc.x && b.x == loc.x - 1);
            },
            CardinalDirs::Down => {},
            CardinalDirs::Right => {
                assert(a.x == loc.x && b.x == loc.x + 1);
            },
        },
        CardinalDirs::Right => match d2 {
            CardinalDirs::Up => {
                assert(a.x == loc.x + 1 && b.x == loc.x);
            },
            CardinalDirs::Left => {
                assert(a.x == loc.x + 1 && b.x == loc.x - 1);
            },
            CardinalDirs::Down => {
                assert(a.x == loc.x + 1 && b.x == loc.x);
            },
            CardinalDirs::Right => {},
        },
    }
}

/// A flat, row-major array of cells with bounds-checked indexing.
pub struct Board {
    grid: crate::Grid,
    vals: Vec<Cell>,
}

impl Board {
    /// Width of the board, in cells.
    pub closed spec fn width_spec(&self) -> int {
        self.grid.width as int
    }

    /// Height of the board, in cells.
    pub closed spec fn height_spec(&self) -> int {
        self.grid.height as int
    }

    /// The cells, row-major.
    pub closed spec fn cells(&self) -> Seq<Cell> {
        self.vals@
    }

    /// Whether a location lies on the board.
    pub open spec fn inbounds_spec(&self, loc: Loc) -> bool {
        loc.x < self.width_spec() && loc.y < self.height_spec()
    }

    /// Row-major index of a location.
    pub open spec fn index_spec(&self, loc: Loc) -> int {
        loc.y * self.width_spec() + loc.x
    }

    /// Well-formedness for `n` tiles: one well-formed cell per location,
    /// each knowing its own location.
    pub open spec fn wf(&self, n: nat) -> bool {
        &&& self.width_spec() * self.height_spec() <= usize::MAX
        &&& self.cells().len() == self.width_spec() * self.height_spec()
        &&& forall|i: int| 0 <= i < self.cells().len() ==> (#[trigger] self.cells()[i]).wf()
        &&& forall|i: int|
            0 <= i < self.cells().len() ==> (#[trigger] self.cells()[i]).domain.len_spec() == n
        &&& forall|i: int|
            0 <= i < self.cells().len() ==> (#[trigger] self.cells()[i]).loc == (Loc {
                x: (i % self.width_spec()) as usize,
                y: (i / self.width_spec()) as usize,
            })
    }

    /// An in-bounds location indexes a cell that carries that location.
    pub proof fn lemma_index(&self, loc: Loc, n: nat)
        requires
            self.wf(n),
            self.inbounds_spec(loc),
        ensures
            0 <= self.index_spec(loc) < self.cells().len(),
            self.cells()[self.index_spec(loc)].loc == loc,
    {
        let w = self.width_spec();
        let h = self.height_spec();
        assert(loc.y * w + loc.x < w * h) by (nonlinear_arith)
            requires
                loc.x < w,
                loc.y < h,
                w >= 0,
        ;
        assert(loc.y * w + loc.x >= 0) by (nonlinear_arith)
            requires
                loc.x >= 0,
                loc.y >= 0,
                w >= 0,
        ;
        vstd::arithmetic::div_mod::lemma_fundamental_div_mod_converse(
            loc.y * w + loc.x,
            w,
            loc.y as int,
            loc.x as int,
        );
    }

    /// Cells at distinct indices carry distinct locations.
    pub proof fn lemma_loc_injective(&self, i: int, k: int, n: nat)
        requires
            self.wf(n),
            0 <= i < self.cells().len(),
            0 <= k < self.cells().len(),
            self.cells()[i].loc == self.cells()[k].loc,
        ensures
            i == k,
    {
        let w = self.width_spec();
        assert(w > 0) by {
            if w <= 0 {
                assert(w * self.height_spec() <= 0) by (nonlinear_arith)
                    requires
                        w <= 0,
                        self.height_spec() >= 0,
                ;
            }
        }
        vstd::arithmetic::div_mod::lemma_fundamental_div_mod(i, w);
        vstd::arithmetic::div_mod::lemma_fundamental_div_mod(k, w);
        vstd::arithmetic::div_mod::lemma_mod_bound(i, w);
        vstd::arithmetic::div_mod::lemma_mod_bound(k, w);
    }

    /// A cell's own location is in bounds.
    pub proof fn lemma_loc_inbounds(&self, i: int, n: nat)
        requires
            self.wf(n),
            0 <= i < self.cells().len(),
        ensures
            self.inbounds_spec(self.cells()[i].loc),
            self.index_spec(self.cells()[i].loc) == i,
    {
        let w = self.width_spec();
        let h = self.height_spec();
        assert(w > 0) by {
            if w <= 0 {
                assert(w * h <= 0) by (nonlinear_arith)
                    requires
                        w <= 0,
                        h >= 0,
                ;
            }
        }
        vstd::arithmetic::div_mod::lemma_fundamental_div_mod(i, w);
        vstd::arithmetic::div_mod::lemma_mod_bound(i, w);
        assert(i / w < h) by {
            if i / w >= h {
                assert(w * (i / w) >= w * h) by (nonlinear_arith)
                    requires
                        i / w >= h,
                        w > 0,
                ;
            }
        }
        assert(i / w >= 0) by {
            if i / w < 0 {
                assert(w * (i / w) <= w * (-1)) by (nonlinear_arith)
                    requires
                        i / w <= -1,
                        w > 0,
                ;
            }
        }
        assert((i / w) * w + i % w == i) by (nonlinear_arith)
            requires
                i == w * (i / w) + i % w,
        ;
    }

    /// Whether `loc` lies on the board.
    pub fn inbounds(&self, loc: Loc) -> (r: bool)
        ensures
            r == self.inbounds_spec(loc),
    {
        loc.x < self.grid.width && loc.y < self.grid.height
    }

    /// Row-major index of an in-bounds location.
    fn index_grid(&self, loc: Loc) -> (r: usize)
        requires
            self.inbounds_spec(loc),
            self.width_spec() * self.height_spec() <= usize::MAX,
            self.cells().len() == self.width_spec() * self.height_spec(),
        ensures
            r == self.index_spec(loc),
            r < self.cells().len(),
    {
        proof {
            assert(loc.y * self.width_spec() + loc.x < self.width_spec() * self.height_spec())
                by (nonlinear_arith)
                requires
                    loc.x < self.width_spec(),
                    loc.y < self.height_spec(),
                    self.width_spec() >= 0,
            ;
            assert(loc.y * self.width_spec() >= 0) by (nonlinear_arith)
                requires
                    loc.y >= 0,
                    self.width_spec() >= 0,
            ;
        }
        loc.y * self.grid.width + loc.x
    }

    /// The cell at `loc`, `None` out of bounds.
    pub fn get_cell(&self, loc: Loc) -> (r: Option<&Cell>)
        requires
            self.width_spec() * self.height_spec() <= usize::MAX,
            self.cells().len() == self.width_spec() * self.height_spec(),
        ensures
            r is Some <==> self.inbounds_spec(loc),
            r matches Some(c) ==> *c == self.cells()[self.index_spec(loc)],
    {
        if !self.inbounds(loc) {
            return None;
        }
        let i = self.index_grid(loc);
        Some(&self.vals[i])
    }

    /// The four candidate neighbours of `loc`, with the direction leading to
    /// each; `None` where the grid ends.
    pub fn cardinal_neighbors(&self, loc: Loc) -> (r: [(CardinalDirs, Option<Loc>); 4])
        requires
            self.inbounds_spec(loc),
        ensures
            r[0] == (CardinalDirs::Up, neighbor_of(loc, CardinalDirs::Up, self.width_spec(), self.height_spec())),
            r[1] == (CardinalDirs::Right, neighbor_of(loc, CardinalDirs::Right, self.width_spec(), self.height_spec())),
            r[2] == (CardinalDirs::Down, neighbor_of(loc, CardinalDirs::Down, self.width_spec(), self.height_spec())),
            r[3] == (CardinalDirs::Left, neighbor_of(loc, CardinalDirs::Left, self.width_spec(), self.height_spec())),
            forall|k: int|
                0 <= k < 4 ==> ((#[trigger] r[k]).1 matches Some(nl) ==> self.inbounds_spec(nl)
                    && r[k].1 == neighbor_of(
                    loc,
                    r[k].0,
                    self.width_spec(),
                    self.height_spec(),
                )),
    {
        let up = if loc.y >= 1 {
            Some(Loc { x: loc.x, y: loc.y - 1 })
        } else {
            None
        };
        let down = if loc.y < usize::MAX && loc.y + 1 < self.grid.height {
            Some(Loc { x: loc.x, y: loc.y + 1 })
        } else {
            None
        };
        let left = if loc.x >= 1 {
            Some(Loc { x: loc.x - 1, y: loc.y })
        } else {
            None
        };
        let right = if loc.x < usize::MAX && loc.x + 1 < self.grid.width {
            Some(Loc { x: loc.x + 1, y: loc.y })
        } else {
            None
        };
        let r = [
            (CardinalDirs::Up, up),
            (CardinalDirs::Right, right),
            (CardinalDirs::Down, down),
            (CardinalDirs::Left, left),
        ];
        proof {
            assert forall|k: int|
                0 <= k < 4 implies ((#[trigger] r[k]).1 matches Some(nl) ==> self.inbounds_spec(nl)
                && r[k].1 == neighbor_of(
                loc,
                r[k].0,
                self.width_spec(),
                self.height_spec(),
            )) by {
                if k == 0 {
                } else if k == 1 {
                } else if k == 2 {
                } else {
                }
            }
        }
        r
    }

    /// The arc-consistency step on the cell at index `i`; see
    /// `Cell::remove_enabler`.
    fn cell_remove_enabler(
        &mut self,
        i: usize,
        enabler: TileId,
        dir: CardinalDirs,
        rules: &AdjacencyRules,
    ) -> (r: Result<Option<Vec<TileRemovalEvent>>, Contradiction>)
        requires
            old(self).wf(rules.len_spec()),
            rules.wf(),
            enabler < rules.len_spec(),
            i < old(self).cells().len(),
        ensures
            final(self).width_spec() == old(self).width_spec(),
            final(self).height_spec() == old(self).height_spec(),
            final(self).cells().len() == old(self).cells().len(),
            forall|k: int|
                0 <= k < old(self).cells().len() && k != i ==> final(self).cells()[k] == old(self).cells()[k],
            final(self).wf(rules.len_spec()),
            ({
                let oc = old(self).cells()[i as int];
                let nc = final(self).cells()[i as int];
                let s = rules.allowed_seq(enabler, dir);
                let od = dir.opp();
                &&& nc.loc == oc.loc
                &&& nc.collapsed_to == oc.collapsed_to
                &&& (r is Err ==> nc == oc)
                &&& (r is Err ==> oc.collapsed_to is None && oc.domain.has_zero_count_clash(s, od))
                &&& (oc.collapsed_to is None && r is Ok ==> !oc.domain.has_zero_count_clash(s, od))
                &&& (oc.collapsed_to is Some ==> nc == oc && (r matches Ok(o) && o is None))
                &&& (oc.collapsed_to is None && r is Ok ==> EnablerDict::decremented(
                    oc.domain,
                    nc.domain,
                    s,
                    od,
                ))
                &&& (r matches Ok(o) ==> match o {
                    None => nc.domain.allowed_count() == oc.domain.allowed_count() && (
                    oc.collapsed_to is None ==> forall|t: TileId|
                        !#[trigger] oc.domain.newly_impossible(s, t, od)),
                    Some(events) => {
                        &&& events@.len() > 0
                        &&& nc.domain.allowed_count() == oc.domain.allowed_count() - events@.len()
                        &&& forall|k: int|
                            0 <= k < events@.len() ==> (#[trigger] events@[k]).cell_loc == oc.loc
                                && events@[k].tile_id < rules.len_spec()
                                && oc.domain.newly_impossible(s, events@[k].tile_id, od)
                        &&& forall|k: int, l: int|
                            0 <= k < l < events@.len() ==> events@[k].tile_id
                                != events@[l].tile_id
                        &&& forall|t: TileId|
                            #[trigger] oc.domain.newly_impossible(s, t, od) ==> exists|k: int|
                                0 <= k < events@.len() && (#[trigger] events@[k]).tile_id == t
                    },
                })
            }),
    {
        let ghost pre = self.vals@;
        let cell = &mut self.vals[i];
        let r = cell.remove_enabler(enabler, dir, rules);
        proof {
            assert(self.vals@ =~= pre.update(i as int, self.vals@[i as int]));
            assert forall|k: int|
                0 <= k < self.vals@.len() && k != i implies self.vals@[k] == pre[k] by {}
            assert(final(self).wf(rules.len_spec())) by {
                assert forall|k: int|
                    0 <= k < self.cells().len() implies (#[trigger] self.cells()[k]).wf()
                    && self.cells()[k].domain.len_spec() == rules.len_spec() && self.cells()[k].loc
                    == (Loc {
                    x: (k % self.width_spec()) as usize,
                    y: (k / self.width_spec()) as usize,
                }) by {
                    if k != i {
                        assert(self.cells()[k] == pre[k]);
                    }
                }
            }
        }
        r
    }

    /// Collapses the cell at index `i`; see `Cell::collapse`.
    fn cell_collapse(
        &mut self,
        i: usize,
        rng: &mut rand::rngs::StdRng,
        Ghost(n): Ghost<nat>,
    ) -> (r: Result<Vec<TileRemovalEvent>, Contradiction>)
        requires
            old(self).wf(n),
            i < old(self).cells().len(),
            old(self).cells()[i as int].collapsed_to is None,
        ensures
            final(self).width_spec() == old(self).width_spec(),
            final(self).height_spec() == old(self).height_spec(),
            final(self).cells().len() == old(self).cells().len(),
            forall|k: int|
                0 <= k < old(self).cells().len() && k != i ==> final(self).cells()[k] == old(self).cells()[k],
            final(self).wf(n),
            r is Err ==> final(self).cells() == old(self).cells(),
            r is Err <==> old(self).cells()[i as int].domain.allowed_count() == 0,
            ({
                let oc = old(self).cells()[i as int];
                let nc = final(self).cells()[i as int];
                &&& (r matches Ok(events) ==> {
                    &&& nc.loc == oc.loc
                    &&& nc.collapsed_to is Some
                    &&& oc.domain.allowed(nc.collapsed_to.unwrap())
                    &&& nc.domain.singleton_spec(nc.collapsed_to.unwrap())
                    &&& nc.domain.allowed_count() == 1
                    &&& events@.len() == oc.domain.allowed_count() - 1
                    &&& forall|k: int|
                        0 <= k < events@.len() ==> (#[trigger] events@[k]).cell_loc == oc.loc
                            && events@[k].tile_id < n && oc.domain.allowed(events@[k].tile_id)
                            && events@[k].tile_id != nc.collapsed_to.unwrap()
                    &&& forall|k: int, l: int|
                        0 <= k < l < events@.len() ==> events@[k].tile_id != events@[l].tile_id
                })
            }),
    {
        let ghost pre = self.vals@;
        let cell = &mut self.vals[i];
        let r = cell.collapse(rng);
        proof {
            assert(self.vals@ =~= pre.update(i as int, self.vals@[i as int]));
            if r is Err {
                assert(self.vals@ =~= pre);
            }
            assert forall|k: int|
                0 <= k < self.vals@.len() && k != i implies self.vals@[k] == pre[k] by {}
            assert(final(self).wf(n)) by {
                assert forall|k: int|
                    0 <= k < self.cells().len() implies (#[trigger] self.cells()[k]).wf()
                    && self.cells()[k].domain.len_spec() == n && self.cells()[k].loc == (Loc {
                    x: (k % self.width_spec()) as usize,
                    y: (k / self.width_spec()) as usize,
                }) by {
                    if k != i {
                        assert(self.cells()[k] == pre[k]);
                    }
                }
            }
        }
        r
    }

    /// The queue entry for the current entropy of the cell at index `i`.
    fn entry_at(&self, i: usize) -> (r: EntropyEntry)
        requires
            i < self.cells().len(),
            self.cells()[i as int].wf(),
        ensures
            r.loc == self.cells()[i as int].loc,
            r.entropy == self.cells()[i as int].entropy_key_spec(),
    {
        let cell = &self.vals[i];
        cell.get_entropy_entry()
    }

    /// Whether the cell at index `i` is collapsed.
    fn is_collapsed_at(&self, i: usize) -> (r: bool)
        requires
            i < self.cells().len(),
        ensures
            r == (self.cells()[i as int].collapsed_to is Some),
    {
        let cell = &self.vals[i];
        cell.collapsed_to.is_some()
    }
}

/// Among the first `n` tiles, how many are still possible in `c` and allow
/// `u` beside them in direction `d`.
pub open spec fn enabler_count_spec(
    c: Cell,
    rules: AdjacencyRules,
    u: TileId,
    d: CardinalDirs,
    n: int,
) -> int
    decreases n,
{
    if n <= 0 {
        0
    } else {
        enabler_count_spec(c, rules, u, d, n - 1) + if c.domain.allowed((n - 1) as usize)
            && rules.allows((n - 1) as usize, u, d) {
            1int
        } else {
            0int
        }
    }
}

proof fn lemma_enabler_count_pos(c: Cell, rules: AdjacencyRules, u: TileId, d: CardinalDirs, n: int)
    requires
        enabler_count_spec(c, rules, u, d, n) >= 1,
    ensures
        exists|t: TileId|
            t < n && (#[trigger] c.domain.allowed(t)) && rules.allows(t, u, d),
    decreases n,
{
    if n > 0 {
        if c.domain.allowed((n - 1) as usize) && rules.allows((n - 1) as usize, u, d) {
            assert(c.domain.allowed((n - 1) as usize));
        } else {
            lemma_enabler_count_pos(c, rules, u, d, n - 1);
            let t = choose|t: TileId|
                t < n - 1 && (#[trigger] c.domain.allowed(t)) && rules.allows(t, u, d);
            assert(c.domain.allowed(t));
        }
    }
}

/// Whether `e` is one of the entries of `q`.
pub open spec fn from_queue(q: Seq<EntropyEntry>, e: EntropyEntry) -> bool {
    exists|k: int| 0 <= k < q.len() && (#[trigger] q[k]) == e
}

/// Whether some queue entry carries `loc`.
pub open spec fn has_entry(s: Seq<EntropyEntry>, loc: Loc) -> bool {
    exists|j: int| 0 <= j < s.len() && (#[trigger] s[j]).loc == loc
}

proof fn lemma_has_entry_remove(s: Seq<EntropyEntry>, idx: int, loc: Loc)
    requires
        0 <= idx < s.len(),
        has_entry(s, loc),
        s[idx].loc != loc,
    ensures
        has_entry(s.remove(idx), loc),
{
    let j = choose|j: int| 0 <= j < s.len() && (#[trigger] s[j]).loc == loc;
    if j < idx {
        assert(s.remove(idx)[j] == s[j]);
    } else {
        assert(s.remove(idx)[j - 1] == s[j]);
    }
}

proof fn lemma_has_entry_push(s: Seq<EntropyEntry>, e: EntropyEntry, loc: Loc)
    requires
        has_entry(s, loc) || e.loc == loc,
    ensures
        has_entry(s.push(e), loc),
{
    if e.loc == loc {
        assert(s.push(e)[s.len() as int].loc == loc);
    } else {
        let j = choose|j: int| 0 <= j < s.len() && (#[trigger] s[j]).loc == loc;
        assert(s.push(e)[j] == s[j]);
    }
}

/// The solver: the rule table, the board, the min-entropy queue, and the
/// stack of pending removal events ("the wave").  `step` drives the board to
/// a fully determined state one unit of work at a time.
pub struct Model {
    entropy_heap: MinEntropyHeap,
    adjacency_rules: AdjacencyRules,
    board: Board,
    wave: Vec<TileRemovalEvent>,
    pub remaining_uncollapsed: usize,
    updated_cells: Vec<Loc>,
    rng: rand::rngs::StdRng,
}

impl Model {
    /// Number of tile kinds.
    pub closed spec fn n_spec(&self) -> nat {
        self.adjacency_rules.len_spec()
    }

    /// Board width, in cells.
    pub closed spec fn width_spec(&self) -> int {
        self.board.width_spec()
    }

    /// Board height, in cells.
    pub closed spec fn height_spec(&self) -> int {
        self.board.height_spec()
    }

    /// The cells, row-major.
    pub closed spec fn cells(&self) -> Seq<Cell> {
        self.board.cells()
    }

    /// The rule table the model runs under.
    pub closed spec fn rules_spec(&self) -> AdjacencyRules {
        self.adjacency_rules
    }

    /// Number of pending removal events.
    pub closed spec fn wave_len(&self) -> nat {
        self.wave@.len()
    }

    /// The pending removal events, oldest first (processed from the back).
    pub closed spec fn wave_spec(&self) -> Seq<TileRemovalEvent> {
        self.wave@
    }

    /// The entropy queue's entries, in storage order.
    pub closed spec fn queue_spec(&self) -> Seq<EntropyEntry> {
        self.entropy_heap@
    }

    /// The locations recorded as updated since the caller's last drain.
    pub closed spec fn updated_spec(&self) -> Seq<Loc> {
        self.updated_cells@
    }

    /// Number of cells not yet collapsed, as a spec value.
    pub closed spec fn remaining_spec(&self) -> int {
        self.remaining_uncollapsed as int
    }

    /// Number of cells not yet collapsed.
    pub fn remaining(&self) -> (r: usize)
        ensures
            r == self.remaining_spec(),
    {
        self.remaining_uncollapsed
    }

    /// Number of pending removal events in the wave.
    pub fn wave_size(&self) -> (r: usize)
        ensures
            r == self.wave_len(),
    {
        self.wave.len()
    }

    /// Board width, in cells.
    pub fn width(&self) -> (r: usize)
        ensures
            r == self.width_spec(),
    {
        self.board.grid.width
    }

    /// Board height, in cells.
    pub fn height(&self) -> (r: usize)
        ensures
            r == self.height_spec(),
    {
        self.board.grid.height
    }

    /// The rule table the model runs under.
    pub fn rules(&self) -> (r: &AdjacencyRules)
        ensures
            *r == self.rules_spec(),
    {
        &self.adjacency_rules
    }

    /// Bound on the propagation work left before the wave drains: pending
    /// events plus tiles still allowed anywhere.
    pub closed spec fn work_left(&self) -> int {
        self.wave@.len() + total_allowed(self.cells(), self.cells().len() as int)
    }

    /// Whether a location lies on the board.
    pub open spec fn inbounds_spec(&self, loc: Loc) -> bool {
        loc.x < self.width_spec() && loc.y < self.height_spec()
    }

    /// Row-major index of a location.
    pub open spec fn index_spec(&self, loc: Loc) -> int {
        loc.y * self.width_spec() + loc.x
    }

    /// The solver's invariant: a well-formed board whose uncollapsed-cell
    /// count is `remaining_uncollapsed`, a queue holding an entry for every
    /// uncollapsed cell (plus stale ones), and a wave of in-bounds events.
    pub closed spec fn wf(&self) -> bool {
        &&& self.adjacency_rules.wf()
        &&& self.board.wf(self.n_spec())
        &&& self.remaining_uncollapsed == count_uncollapsed(
            self.cells(),
            self.cells().len() as int,
        )
        &&& forall|i: int|
            0 <= i < self.cells().len() && (#[trigger] self.cells()[i]).collapsed_to is None
                ==> has_entry(self.entropy_heap@, self.cells()[i].loc)
        &&& forall|j: int|
            0 <= j < self.entropy_heap@.len() ==> self.board.inbounds_spec(
                (#[trigger] self.entropy_heap@[j]).loc,
            )
        &&& forall|k: int|
            0 <= k < self.wave@.len() ==> self.board.inbounds_spec(
                (#[trigger] self.wave@[k]).cell_loc,
            ) && self.wave@[k].tile_id < self.n_spec()
    }

    /// Builds a model: one cell per grid location, each starting with every
    /// tile possible and the full frequency table, and the queue seeded with
    /// every cell's starting entropy.  The random source is seeded
    /// explicitly, so runs are reproducible.
    pub fn new(
        adjacency_rules: AdjacencyRules,
        tile_frequencies: Vec<usize>,
        dims: crate::Grid,
        seed: u64,
    ) -> (r: Model)
        requires
            adjacency_rules.wf(),
            tile_frequencies@.len() == adjacency_rules.len_spec(),
            forall|i: int| 0 <= i < tile_frequencies@.len() ==> (#[trigger] tile_frequencies@[i])
                >= 1,
            sum_counts(tile_frequencies@, tile_frequencies@.len() as int) <= TOTAL_WEIGHT_MAX,
            dims.width * dims.height <= usize::MAX,
        ensures
            r.wf(),
            r.rules_spec() == adjacency_rules,
            r.width_spec() == dims.width,
            r.height_spec() == dims.height,
            r.n_spec() == adjacency_rules.len_spec(),
            r.remaining_spec() == dims.width * dims.height,
            r.wave_len() == 0,
            r.updated_spec().len() == 0,
            // Initial per-cell state: nothing collapsed, every tile possible
            // with its rule-derived enabler counters, the full frequency
            // table in every cell, and one queue entry per cell.
            forall|i: int|
                0 <= i < r.cells().len() ==> (#[trigger] r.cells()[i]).collapsed_to is None,
            forall|i: int, t: TileId|
                0 <= i < r.cells().len() && t < adjacency_rules.len_spec()
                    ==> (#[trigger] r.cells()[i].domain.allowed(t)),
            forall|i: int, t: TileId, d: CardinalDirs|
                0 <= i < r.cells().len() && t < adjacency_rules.len_spec()
                    ==> #[trigger] r.cells()[i].domain.count_spec(t, d)
                    == adjacency_rules.allowed_seq(t, d).len(),
            forall|i: int|
                0 <= i < r.cells().len() ==> (#[trigger] r.cells()[i]).probability_dict.counts@
                    == tile_frequencies@,
            r.queue_spec().len() == dims.width * dims.height,
            forall|j: int|
                0 <= j < r.queue_spec().len() ==> (#[trigger] r.queue_spec()[j]).loc
                    == r.cells()[j].loc,
    {
        let ghost n = adjacency_rules.len_spec();
        let probability_dict = ProbabilityDict::new(&tile_frequencies);
        let enabler_dict = EnablerDict::new(&adjacency_rules);
        let mut entropy_heap = MinEntropyHeap::new();
        let mut rng = crate::rng::rng_from_seed(seed);
        let locs = dims.iter_locs();
        let mut vals: Vec<Cell> = Vec::new();
        let mut i: usize = 0;
        while i < locs.len()
            invariant
                n == adjacency_rules.len_spec(),
                adjacency_rules.wf(),
                tile_frequencies@.len() == n,
                forall|k: int| 0 <= k < tile_frequencies@.len() ==> (
                #[trigger] tile_frequencies@[k]) >= 1,
                probability_dict.wf(),
                probability_dict.counts@ == tile_frequencies@,
                enabler_dict.len_spec() == n,
                forall|t: TileId| t < n ==> #[trigger] enabler_dict.allowed(t),
                forall|t: TileId, dcd: CardinalDirs|
                    t < n ==> #[trigger] enabler_dict.count_spec(t, dcd)
                        == adjacency_rules.allowed_seq(t, dcd).len(),
                enabler_dict.allowed_count() == n,
                dims.width * dims.height <= usize::MAX,
                locs@.len() == dims.width * dims.height,
                forall|k: int|
                    0 <= k < locs@.len() ==> (#[trigger] locs@[k]) == (Loc {
                        x: (k % dims.width as int) as usize,
                        y: (k / dims.width as int) as usize,
                    }),
                i <= locs@.len(),
                vals@.len() == i,
                entropy_heap@.len() == i,
                forall|k: int| 0 <= k < i ==> (#[trigger] entropy_heap@[k]).loc == locs@[k],
                forall|k: int|
                    0 <= k < i ==> (#[trigger] vals@[k]).wf() && vals@[k].domain.len_spec() == n
                        && vals@[k].loc == locs@[k] && vals@[k].collapsed_to is None,
                forall|k: int, t: TileId|
                    0 <= k < i && t < n ==> (#[trigger] vals@[k].domain.allowed(t)),
                forall|k: int, t: TileId, dcd: CardinalDirs|
                    0 <= k < i && t < n ==> #[trigger] vals@[k].domain.count_spec(t, dcd)
                        == adjacency_rules.allowed_seq(t, dcd).len(),
                forall|k: int|
                    0 <= k < i ==> (#[trigger] vals@[k]).probability_dict.counts@
                        == tile_frequencies@,
            decreases locs@.len() - i,
        {
            let jitter = crate::rng::rng_below(&mut rng, 256) as u64;
            let cell = Cell::new(probability_dict.clone(), enabler_dict.clone(), locs[i], jitter);
            proof {
                assert(cell.wf());
            }
            let entry = cell.get_entropy_entry();
            entropy_heap.push(entry);
            vals.push(cell);
            i = i + 1;
        }
        let grid = dims;
        let board = Board { grid, vals };
        let remaining = grid.area();
        let r = Model {
            adjacency_rules,
            board,
            entropy_heap,
            wave: Vec::new(),
            remaining_uncollapsed: remaining,
            updated_cells: Vec::new(),
            rng,
        };
        proof {
            let w = dims.width as int;
            let h = dims.height as int;
            assert(r.board.wf(n)) by {
                assert forall|k: int|
                    0 <= k < r.cells().len() implies (#[trigger] r.cells()[k]).wf()
                    && r.cells()[k].domain.len_spec() == n && r.cells()[k].loc == (Loc {
                    x: (k % w) as usize,
                    y: (k / w) as usize,
                }) by {}
            }
            lemma_count_uncollapsed_all(r.cells(), r.cells().len() as int);
            assert forall|i2: int|
                0 <= i2 < r.cells().len() && (#[trigger] r.cells()[i2]).collapsed_to is None
                implies has_entry(r.entropy_heap@, r.cells()[i2].loc) by {
                assert(r.entropy_heap@[i2].loc == r.cells()[i2].loc);
            }
            assert forall|j: int|
                0 <= j < r.entropy_heap@.len() implies r.board.inbounds_spec(
                (#[trigger] r.entropy_heap@[j]).loc,
            ) by {
                r.board.lemma_loc_inbounds(j, n);
                assert(r.entropy_heap@[j].loc == r.cells()[j].loc);
            }
        }
        r
    }

    /// The cell at `loc`, `None` out of bounds.
    pub fn get_cell(&self, loc: Loc) -> (r: Option<&Cell>)
        requires
            self.wf(),
        ensures
            r is Some <==> self.inbounds_spec(loc),
            r matches Some(c) ==> *c == self.cells()[self.index_spec(loc)] && c.loc == loc,
    {
        proof {
            if self.inbounds_spec(loc) {
                self.board.lemma_index(loc, self.n_spec());
            }
        }
        self.board.get_cell(loc)
    }

    /// The four candidate neighbours of an in-bounds location.
    pub fn cardinal_neighbors(&self, loc: Loc) -> (r: [(CardinalDirs, Option<Loc>); 4])
        requires
            self.wf(),
            self.inbounds_spec(loc),
        ensures
            r[0] == (CardinalDirs::Up, neighbor_of(loc, CardinalDirs::Up, self.width_spec(), self.height_spec())),
            r[1] == (CardinalDirs::Right, neighbor_of(loc, CardinalDirs::Right, self.width_spec(), self.height_spec())),
            r[2] == (CardinalDirs::Down, neighbor_of(loc, CardinalDirs::Down, self.width_spec(), self.height_spec())),
            r[3] == (CardinalDirs::Left, neighbor_of(loc, CardinalDirs::Left, self.width_spec(), self.height_spec())),
            forall|k: int|
                0 <= k < 4 ==> ((#[trigger] r[k]).1 matches Some(nl) ==> self.inbounds_spec(nl)),
    {
        self.board.cardinal_neighbors(loc)
    }

    /// Every cell, row-major.
    pub fn iter_cells(&self) -> (r: Vec<&Cell>)
        ensures
            r@.len() == self.cells().len(),
            forall|k: int| 0 <= k < r@.len() ==> *(#[trigger] r@[k]) == self.cells()[k],
    {
        let mut r: Vec<&Cell> = Vec::new();
        let mut i: usize = 0;
        while i < self.board.vals.len()
            invariant
                i <= self.board.vals@.len(),
                r@.len() == i,
                forall|k: int| 0 <= k < i ==> *(#[trigger] r@[k]) == self.board.vals@[k],
            decreases self.board.vals@.len() - i,
        {
            r.push(&self.board.vals[i]);
            i = i + 1;
        }
        r
    }

    /// Pops queue entries until one names a still-uncollapsed cell and
    /// returns that cell's location, re-queueing its entry; stale entries
    /// for collapsed cells are discarded.  `None` exactly when the board is
    /// fully collapsed.
    pub fn get_cell_to_collapse(&mut self) -> (r: Option<Loc>)
        requires
            old(self).wf(),
        ensures
            final(self).wf(),
            final(self).cells() == old(self).cells(),
            final(self).rules_spec() == old(self).rules_spec(),
            final(self).width_spec() == old(self).width_spec(),
            final(self).height_spec() == old(self).height_spec(),
            final(self).wave_spec() == old(self).wave_spec(),
            final(self).wave_len() == old(self).wave_len(),
            final(self).updated_spec() == old(self).updated_spec(),
            final(self).work_left() == old(self).work_left(),
            final(self).remaining_spec() == old(self).remaining_spec(),
            r is None <==> old(self).remaining_spec() == 0,
            r matches Some(loc) ==> final(self).inbounds_spec(loc) && final(self).cells()[final(self).index_spec(loc)].collapsed_to is None,
            // The returned cell's entry was popped as a queue minimum and
            // re-queued: it compares at or below every entry now queued, and
            // the queue holds only entries it already held (stale ones for
            // collapsed cells may have been discarded).
            r matches Some(loc) ==> final(self).queue_spec().len() >= 1 && final(self).queue_spec().last().loc == loc && (forall|j: int|
                0 <= j < final(self).queue_spec().len() ==> final(self).queue_spec().last().le_spec(
                    #[trigger] final(self).queue_spec()[j],
                )),
            forall|j: int|
                0 <= j < final(self).queue_spec().len() ==> from_queue(
                    old(self).queue_spec(),
                    #[trigger] final(self).queue_spec()[j],
                ),
    {
        proof {
            assert forall|j: int|
                0 <= j < self.queue_spec().len() implies from_queue(
                old(self).queue_spec(),
                #[trigger] self.queue_spec()[j],
            ) by {
                assert(old(self).queue_spec()[j] == self.queue_spec()[j]);
            }
        }
        if self.remaining_uncollapsed == 0 {
            return None;
        }
        let ghost n = self.n_spec();
        loop
            invariant
                self.wf(),
                n == self.n_spec(),
                self.cells() == old(self).cells(),
                self.adjacency_rules == old(self).adjacency_rules,
                self.board == old(self).board,
                self.wave == old(self).wave,
                self.updated_cells == old(self).updated_cells,
                self.rng == old(self).rng,
                self.remaining_uncollapsed == old(self).remaining_uncollapsed,
                self.remaining_uncollapsed > 0,
                forall|j: int|
                    0 <= j < self.queue_spec().len() ==> from_queue(
                        old(self).queue_spec(),
                        #[trigger] self.queue_spec()[j],
                    ),
            decreases self.entropy_heap@.len(),
        {
            proof {
                lemma_count_uncollapsed_pos(self.cells(), self.cells().len() as int);
                let i = choose|i: int|
                    0 <= i < self.cells().len() && (#[trigger] self.cells()[i]).collapsed_to
                        is None;
                assert(has_entry(self.entropy_heap@, self.cells()[i].loc));
            }
            let ghost pre_heap = self.entropy_heap@;
            proof {
                assert forall|j: int|
                    0 <= j < pre_heap.len() implies from_queue(
                    old(self).queue_spec(),
                    #[trigger] pre_heap[j],
                ) by {
                    assert(from_queue(old(self).queue_spec(), self.queue_spec()[j]));
                }
            }
            let popped = self.entropy_heap.pop();
            match popped {
                None => {
                    proof {
                        assert(false);
                    }
                    return None;
                },
                Some(entry) => {
                    proof {
                        let idx = choose|idx: int|
                            #![auto]
                            0 <= idx < pre_heap.len() && pre_heap[idx] == entry
                                && self.entropy_heap@ == pre_heap.remove(idx);
                        assert(self.board.inbounds_spec(entry.loc));
                        assert forall|k: int|
                            0 <= k < self.cells().len() && (#[trigger] self.cells()[k]).collapsed_to
                                is None && self.cells()[k].loc != entry.loc implies has_entry(
                            self.entropy_heap@,
                            self.cells()[k].loc,
                        ) by {
                            lemma_has_entry_remove(pre_heap, idx, self.cells()[k].loc);
                        }
                        assert forall|j: int|
                            0 <= j < self.entropy_heap@.len() implies self.board.inbounds_spec(
                            (#[trigger] self.entropy_heap@[j]).loc,
                        ) by {
                            if j < idx {
                                assert(self.entropy_heap@[j] == pre_heap[j]);
                            } else {
                                assert(self.entropy_heap@[j] == pre_heap[j + 1]);
                            }
                        }
                    }
                    let i = self.board.index_grid(entry.loc);
                    proof {
                        self.board.lemma_index(entry.loc, n);
                    }
                    if !self.is_collapsed_at_model(i) {
                        // Re-queue the entry so the invariant that every
                        // uncollapsed cell has an entry keeps holding.
                        let ghost after_pop = self.entropy_heap@;
                        self.entropy_heap.push(entry);
                        proof {
                            // The popped entry was a minimum of the queue it
                            // left; everything still queued came from there.
                            assert forall|j: int|
                                0 <= j < self.entropy_heap@.len() implies entry.le_spec(
                                #[trigger] self.entropy_heap@[j],
                            ) by {
                                let idx2 = choose|idx2: int|
                                    #![auto]
                                    0 <= idx2 < pre_heap.len() && pre_heap[idx2] == entry
                                        && after_pop == pre_heap.remove(idx2);
                                if j < after_pop.len() {
                                    assert(self.entropy_heap@[j] == after_pop[j]);
                                    if j < idx2 {
                                        assert(after_pop[j] == pre_heap[j]);
                                    } else {
                                        assert(after_pop[j] == pre_heap[j + 1]);
                                    }
                                } else {
                                    assert(self.entropy_heap@[j] == entry);
                                }
                            }
                            assert forall|j: int|
                                0 <= j < self.queue_spec().len() implies from_queue(
                                old(self).queue_spec(),
                                #[trigger] self.queue_spec()[j],
                            ) by {
                                let idx2 = choose|idx2: int|
                                    #![auto]
                                    0 <= idx2 < pre_heap.len() && pre_heap[idx2] == entry
                                        && after_pop == pre_heap.remove(idx2);
                                if j < after_pop.len() {
                                    assert(self.entropy_heap@[j] == after_pop[j]);
                                    if j < idx2 {
                                        assert(after_pop[j] == pre_heap[j]);
                                    } else {
                                        assert(after_pop[j] == pre_heap[j + 1]);
                                    }
                                } else {
                                    assert(self.entropy_heap@[j] == entry);
                                    assert(pre_heap[idx2] == entry);
                                }
                                assert(from_queue(pre_heap, self.queue_spec()[j]));
                            }
                            assert forall|k: int|
                                0 <= k < self.cells().len() && (
                            #[trigger] self.cells()[k]).collapsed_to is None implies has_entry(
                                self.entropy_heap@,
                                self.cells()[k].loc,
                            ) by {
                                lemma_has_entry_push(after_pop, entry, self.cells()[k].loc);
                            }
                            assert forall|j: int|
                                0 <= j < self.entropy_heap@.len() implies self.board.inbounds_spec(
                                (#[trigger] self.entropy_heap@[j]).loc,
                            ) by {
                                if j < after_pop.len() {
                                    assert(self.entropy_heap@[j] == after_pop[j]);
                                } else {
                                    assert(self.entropy_heap@[j] == entry);
                                }
                            }
                        }
                        return Some(entry.loc);
                    }
                    // Stale entry: the cell has collapsed since it was
                    // pushed.  The popped entry is not needed by anyone:
                    // uncollapsed cells sit at other locations.
                    proof {
                        assert forall|k: int|
                            0 <= k < self.cells().len() && (#[trigger] self.cells()[k]).collapsed_to
                                is None implies has_entry(
                            self.entropy_heap@,
                            self.cells()[k].loc,
                        ) by {
                            if self.cells()[k].loc == entry.loc {
                                self.board.lemma_loc_injective(k, self.index_spec(entry.loc), n);
                            }
                        }
                        assert forall|j: int|
                            0 <= j < self.queue_spec().len() implies from_queue(
                            old(self).queue_spec(),
                            #[trigger] self.queue_spec()[j],
                        ) by {
                            let idx2 = choose|idx2: int|
                                #![auto]
                                0 <= idx2 < pre_heap.len() && pre_heap[idx2] == entry
                                    && self.entropy_heap@ == pre_heap.remove(idx2);
                            if j < idx2 {
                                assert(self.entropy_heap@[j] == pre_heap[j]);
                            } else {
                                assert(self.entropy_heap@[j] == pre_heap[j + 1]);
                            }
                        }
                    }
                },
            }
        }
    }

    /// In a counter-exact quiescent state, neighbouring cells are
    /// compatible: if the counter of a still-possible tile `u` towards the
    /// neighbour in direction `dd` equals the number of that neighbour's
    /// still-possible tiles enabling `u` (the wave being drained, no pending
    /// corrections remain), then some still-possible tile of the neighbour
    /// allows `u` beside it.  This is the per-edge compatibility that the
    /// arc-consistency counters are maintained for.
    pub proof fn lemma_quiescent_neighbors_compatible(
        &self,
        i: int,
        dd: CardinalDirs,
        j: int,
        u: TileId,
    )
        requires
            self.wf(),
            0 <= i < self.cells().len(),
            0 <= j < self.cells().len(),
            self.cells()[i].domain.allowed(u),
            self.cells()[i].domain.count_spec(u, dd) >= 1,
            self.cells()[i].domain.count_spec(u, dd) == enabler_count_spec(
                self.cells()[j],
                self.rules_spec(),
                u,
                dd.opp(),
                self.n_spec() as int,
            ),
        ensures
            exists|t: TileId|
                t < self.n_spec() && (#[trigger] self.cells()[j].domain.allowed(t))
                    && self.rules_spec().allows(t, u, dd.opp()),
    {
        lemma_enabler_count_pos(
            self.cells()[j],
            self.rules_spec(),
            u,
            dd.opp(),
            self.n_spec() as int,
        );
    }

    /// Terminal consistency of the solver's own state: once no cell is left
    /// uncollapsed, every cell is committed, and each cell's domain holds
    /// exactly its committed tile.
    pub proof fn lemma_terminal_all_singleton(&self)
        requires
            self.wf(),
            self.remaining_spec() == 0,
        ensures
            forall|i: int|
                0 <= i < self.cells().len() ==> (#[trigger] self.cells()[i]).collapsed_to is Some
                    && self.cells()[i].domain.singleton_spec(
                    self.cells()[i].collapsed_to.unwrap(),
                ),
    {
        lemma_count_uncollapsed_zero(self.cells(), self.cells().len() as int);
    }

    /// The propagation-work measure never goes negative.
    pub proof fn lemma_work_left_nonneg(&self)
        requires
            self.wf(),
        ensures
            self.work_left() >= 0,
    {
        lemma_total_allowed_nonneg(self.cells(), self.cells().len() as int);
    }

    /// Whether the cell at index `i` is collapsed.
    fn is_collapsed_at_model(&self, i: usize) -> (r: bool)
        requires
            i < self.cells().len(),
        ensures
            r == (self.cells()[i as int].collapsed_to is Some),
    {
        self.board.is_collapsed_at(i)
    }

    /// Pops the lowest-entropy uncollapsed cell and collapses it: one tile
    /// survives, the removed tiles seed the wave, and the uncollapsed count
    /// drops by one.  A cell with no possible tile is a contradiction.
    pub fn collapse_cell(&mut self) -> (r: Result<(), Contradiction>)
        requires
            old(self).wf(),
            old(self).remaining_spec() > 0,
            old(self).wave_len() == 0,
        ensures
            final(self).remaining_spec() <= old(self).remaining_spec(),
            final(self).rules_spec() == old(self).rules_spec(),
            final(self).width_spec() == old(self).width_spec(),
            final(self).height_spec() == old(self).height_spec(),
            r is Ok ==> final(self).wf() && final(self).remaining_spec() == old(self).remaining_spec() - 1,
            // The scheduling is the lazy min-entropy rule: the collapsed
            // cell's entry was popped as a minimum of the queue (then
            // re-queued, so it sits last, at or below every queued entry),
            // and the queue holds only entries it already held.
            r is Ok ==> final(self).queue_spec().len() >= 1 && (forall|j: int|
                0 <= j < final(self).queue_spec().len() ==> final(self).queue_spec().last().le_spec(
                    #[trigger] final(self).queue_spec()[j],
                )) && (forall|j: int|
                0 <= j < final(self).queue_spec().len() ==> from_queue(
                    old(self).queue_spec(),
                    #[trigger] final(self).queue_spec()[j],
                )),
            r is Err ==> final(self).remaining_spec() == old(self).remaining_spec()
                && final(self).cells() == old(self).cells() && final(self).wave_spec() == old(self).wave_spec()
                && final(self).updated_spec() == old(self).updated_spec(),
            // A failed collapse names its witness: some still-uncollapsed
            // cell has no possible tile left.
            r is Err ==> exists|i: int|
                #![auto]
                0 <= i < old(self).cells().len() && old(self).cells()[i].collapsed_to is None
                    && old(self).cells()[i].domain.allowed_count() == 0,
            // A successful collapse commits exactly one previously
            // uncollapsed cell, leaves every other cell untouched, seeds
            // the wave with exactly that cell's removal events, and records
            // its location as updated.
            r is Ok ==> exists|i: int|
                #![auto]
                0 <= i < old(self).cells().len() && old(self).cells()[i].collapsed_to is None
                    && final(self).cells() == old(self).cells().update(
                    i,
                    final(self).cells()[i],
                ) && final(self).cells()[i].collapsed_to is Some && old(self).cells()[i].domain.allowed(
                    final(self).cells()[i].collapsed_to.unwrap(),
                ) && final(self).cells()[i].domain.singleton_spec(
                    final(self).cells()[i].collapsed_to.unwrap(),
                ) && final(self).wave_spec().len() == old(self).cells()[i].domain.allowed_count()
                    - 1 && (forall|q: int|
                    0 <= q < final(self).wave_spec().len()
                        ==> (#[trigger] final(self).wave_spec()[q]).cell_loc == old(self).cells()[i].loc && old(self).cells()[i].domain.allowed(
                        final(self).wave_spec()[q].tile_id,
                    ) && final(self).wave_spec()[q].tile_id != final(self).cells()[i].collapsed_to.unwrap()) && (forall|q: int, q2: int|
                    0 <= q < q2 < final(self).wave_spec().len() ==> final(self).wave_spec()[q].tile_id != final(self).wave_spec()[q2].tile_id)
                    && final(self).updated_spec() == old(self).updated_spec().push(
                    old(self).cells()[i].loc,
                ) && final(self).queue_spec().last().loc == old(self).cells()[i].loc,
    {
        let loc = match self.get_cell_to_collapse() {
            Some(loc) => loc,
            None => {
                proof {
                    assert(false);
                }
                return Ok(());
            },
        };
        let ghost n = self.n_spec();
        let ghost mid_cells = self.cells();
        let i = self.board.index_grid(loc);
        proof {
            self.board.lemma_index(loc, n);
        }
        let events = match self.board.cell_collapse(i, &mut self.rng, Ghost(n)) {
            Err(c) => {
                proof {
                    assert(0 <= i < old(self).cells().len() && old(self).cells()[i as int].collapsed_to
                        is None && old(self).cells()[i as int].domain.allowed_count() == 0);
                }
                return Err(c);
            },
            Ok(events) => events,
        };
        proof {
            assert(self.cells() =~= mid_cells.update(i as int, self.cells()[i as int]));
            lemma_count_uncollapsed_update(
                mid_cells,
                i as int,
                self.cells()[i as int],
                mid_cells.len() as int,
            );
        }
        self.wave = events;
        self.remaining_uncollapsed = self.remaining_uncollapsed - 1;
        self.updated_cells.push(loc);
        proof {
            assert forall|k: int|
                0 <= k < self.cells().len() && (#[trigger] self.cells()[k]).collapsed_to is None
                implies has_entry(self.entropy_heap@, self.cells()[k].loc) by {
                assert(k != i);
                assert(self.cells()[k] == mid_cells[k]);
            }
            assert forall|k: int|
                0 <= k < self.wave@.len() implies self.board.inbounds_spec(
                (#[trigger] self.wave@[k]).cell_loc,
            ) && self.wave@[k].tile_id < self.n_spec() by {
                assert(self.wave@[k].cell_loc == mid_cells[i as int].loc);
            }
            // The Ok witness is the collapsed index itself.
            assert(self.cells() =~= old(self).cells().update(i as int, self.cells()[i as int]));
            assert(old(self).cells()[i as int].collapsed_to is None);
            assert(old(self).cells()[i as int].domain.allowed(
                self.cells()[i as int].collapsed_to.unwrap(),
            ));
            assert(self.updated_spec() == old(self).updated_spec().push(
                old(self).cells()[i as int].loc,
            ));
        }
        Ok(())
    }

    /// Pops one removal event and lets each in-bounds neighbour process it:
    /// counters drop, tiles whose counters hit zero are removed, their
    /// removals join the wave, and each touched neighbour's entropy is
    /// re-queued.  One call does one unit of propagation work.
    #[verifier::rlimit(90)]
    #[verifier::spinoff_prover]
    pub fn propogate(&mut self) -> (r: Result<(), Contradiction>)
        requires
            old(self).wf(),
            old(self).wave_len() > 0,
        ensures
            final(self).remaining_spec() == old(self).remaining_spec(),
            final(self).rules_spec() == old(self).rules_spec(),
            final(self).width_spec() == old(self).width_spec(),
            final(self).height_spec() == old(self).height_spec(),
            r is Ok ==> final(self).wf() && final(self).work_left() == old(self).work_left() - 1,
            // A failed propagation names its witness: an uncollapsed cell
            // holding a possible tile whose enabler counter is already zero.
            r is Err ==> exists|k: int, t: TileId, dd: CardinalDirs|
                #![auto]
                0 <= k < old(self).cells().len() && old(self).cells()[k].collapsed_to is None
                    && old(self).cells()[k].domain.allowed(t) && old(self).cells()[k].domain.count_spec(
                    t,
                    dd,
                ) == 0,
            // One step works only on the popped event's in-bounds
            // neighbours: no cell moves or changes its collapse state; a
            // changed neighbour's domain is exactly the event tile's
            // arc-consistency decrement; the wave keeps its older events and
            // gains only events at those neighbours; the queue and the
            // updated list only grow, by entries at those neighbours.
            r is Ok ==> ({
                let ev = old(self).wave_spec().last();
                let w = old(self).width_spec();
                let h = old(self).height_spec();
                &&& final(self).cells().len() == old(self).cells().len()
                &&& forall|k: int|
                    0 <= k < final(self).cells().len() ==> (#[trigger] final(self).cells()[k]).collapsed_to
                        == old(self).cells()[k].collapsed_to && final(self).cells()[k].loc == old(self).cells()[k].loc
                &&& forall|k: int|
                    #![auto]
                    0 <= k < final(self).cells().len() && final(self).cells()[k] != old(self).cells()[k]
                        ==> exists|dd: CardinalDirs|
                        #![auto]
                        neighbor_of(ev.cell_loc, dd, w, h) == Some(old(self).cells()[k].loc) && (
                        old(self).cells()[k].collapsed_to is None ==> EnablerDict::decremented(
                            old(self).cells()[k].domain,
                            final(self).cells()[k].domain,
                            old(self).rules_spec().allowed_seq(ev.tile_id, dd),
                            dd.opp(),
                        ))
                &&& forall|q: int|
                    0 <= q < old(self).wave_spec().len() - 1 ==> #[trigger] final(self).wave_spec()[q]
                        == old(self).wave_spec()[q]
                &&& final(self).wave_spec().len() >= old(self).wave_spec().len() - 1
                &&& forall|q: int|
                    old(self).wave_spec().len() - 1 <= q < final(self).wave_spec().len()
                        ==> exists|dd: CardinalDirs|
                        #![auto]
                        neighbor_of(ev.cell_loc, dd, w, h) == Some(
                            (#[trigger] final(self).wave_spec()[q]).cell_loc,
                        )
                &&& final(self).queue_spec().len() >= old(self).queue_spec().len()
                &&& forall|j: int|
                    0 <= j < old(self).queue_spec().len() ==> #[trigger] final(self).queue_spec()[j]
                        == old(self).queue_spec()[j]
                &&& forall|j: int|
                    old(self).queue_spec().len() <= j < final(self).queue_spec().len()
                        ==> exists|dd: CardinalDirs|
                        #![auto]
                        neighbor_of(ev.cell_loc, dd, w, h) == Some(
                            (#[trigger] final(self).queue_spec()[j]).loc,
                        )
                &&& forall|u: int|
                    0 <= u < old(self).updated_spec().len() ==> #[trigger] final(self).updated_spec()[u]
                        == old(self).updated_spec()[u]
                &&& final(self).updated_spec().len() >= old(self).updated_spec().len()
                &&& forall|u: int|
                    old(self).updated_spec().len() <= u < final(self).updated_spec().len()
                        ==> exists|dd: CardinalDirs|
                        #![auto]
                        neighbor_of(ev.cell_loc, dd, w, h) == Some(
                            #[trigger] final(self).updated_spec()[u],
                        )
            }),
            // And the neighbours ARE processed: for every direction whose
            // neighbour is in bounds, the final cell there is exactly the
            // event's arc-consistency result on the old cell (a collapsed
            // neighbour is left alone); the step fails exactly when some
            // such neighbour holds a zero-counter clash.
            ({
                let ev = old(self).wave_spec().last();
                let w = old(self).width_spec();
                let h = old(self).height_spec();
                &&& (r is Err <==> exists|dd: CardinalDirs|
                    #![auto]
                    neighbor_of(ev.cell_loc, dd, w, h) is Some && old(self).cells()[old(self).index_spec(neighbor_of(ev.cell_loc, dd, w, h).unwrap())].collapsed_to is None
                        && old(self).cells()[old(self).index_spec(
                        neighbor_of(ev.cell_loc, dd, w, h).unwrap(),
                    )].domain.has_zero_count_clash(
                        old(self).rules_spec().allowed_seq(ev.tile_id, dd),
                        dd.opp(),
                    ))
                &&& (r is Ok ==> forall|dd: CardinalDirs|
                    (#[trigger] neighbor_of(ev.cell_loc, dd, w, h)) is Some
                        ==> neighbor_processed(
                        old(self).cells(),
                        final(self).cells(),
                        old(self).index_spec(neighbor_of(ev.cell_loc, dd, w, h).unwrap()),
                        old(self).rules_spec(),
                        ev.tile_id,
                        dd,
                    ))
            }),
    {
        let ghost n = self.n_spec();
        let event = match self.wave.pop() {
            Some(e) => e,
            None => {
                proof {
                    assert(false);
                }
                return Ok(());
            },
        };
        proof {
            assert(self.board.inbounds_spec(event.cell_loc) && event.tile_id < n) by {
                assert(old(self).wave@[old(self).wave@.len() - 1] == event);
            }
            assert forall|k: int|
                0 <= k < self.wave@.len() implies self.board.inbounds_spec(
                (#[trigger] self.wave@[k]).cell_loc,
            ) && self.wave@[k].tile_id < self.n_spec() by {
                assert(self.wave@[k] == old(self).wave@[k]);
            }
        }
        let neighbors = self.board.cardinal_neighbors(event.cell_loc);
        let ghost w = old(self).width_spec();
        let ghost h = old(self).height_spec();
        let mut d: usize = 0;
        while d < 4
            invariant
                n == self.n_spec(),
                self.wf(),
                self.rules_spec() == old(self).rules_spec(),
                w == old(self).width_spec(),
                h == old(self).height_spec(),
                self.width_spec() == w,
                self.height_spec() == h,
                self.remaining_spec() == old(self).remaining_spec(),
                self.cells().len() == old(self).cells().len(),
                old(self).wave_spec().len() >= 1,
                event == old(self).wave_spec().last(),
                event.tile_id < n,
                d <= 4,
                neighbors[0] == (
                    CardinalDirs::Up,
                    neighbor_of(event.cell_loc, CardinalDirs::Up, w, h),
                ),
                neighbors[1] == (
                    CardinalDirs::Right,
                    neighbor_of(event.cell_loc, CardinalDirs::Right, w, h),
                ),
                neighbors[2] == (
                    CardinalDirs::Down,
                    neighbor_of(event.cell_loc, CardinalDirs::Down, w, h),
                ),
                neighbors[3] == (
                    CardinalDirs::Left,
                    neighbor_of(event.cell_loc, CardinalDirs::Left, w, h),
                ),
                forall|k: int|
                    0 <= k < 4 ==> ((#[trigger] neighbors[k]).1 matches Some(nl) ==> nl.x < w
                        && nl.y < h),
                forall|k: int|
                    0 <= k < self.cells().len() ==> (#[trigger] self.cells()[k]).collapsed_to
                        == old(self).cells()[k].collapsed_to && self.cells()[k].loc == old(self).cells()[k].loc,
                forall|k: int|
                    #![auto]
                    0 <= k < self.cells().len() && self.cells()[k] != old(self).cells()[k]
                        ==> exists|kk: int|
                        #![auto]
                        0 <= kk < d && neighbors[kk].1 == Some(old(self).cells()[k].loc) && (old(self).cells()[k].collapsed_to is None ==> EnablerDict::decremented(
                            old(self).cells()[k].domain,
                            self.cells()[k].domain,
                            old(self).rules_spec().allowed_seq(event.tile_id, neighbors[kk].0),
                            neighbors[kk].0.opp(),
                        )),
                forall|kk: int|
                    #![auto]
                    0 <= kk < d && neighbors[kk].1 is Some ==> neighbor_processed(
                        old(self).cells(),
                        self.cells(),
                        old(self).index_spec(neighbors[kk].1.unwrap()),
                        old(self).rules_spec(),
                        event.tile_id,
                        neighbors[kk].0,
                    ),
                forall|q: int|
                    0 <= q < old(self).wave_spec().len() - 1 ==> #[trigger] self.wave@[q] == old(self).wave_spec()[q],
                self.wave@.len() >= old(self).wave_spec().len() - 1,
                forall|q: int|
                    old(self).wave_spec().len() - 1 <= q < self.wave@.len() ==> exists|kk: int|
                        #![auto]
                        0 <= kk < d && neighbors[kk].1 == Some(
                            (#[trigger] self.wave@[q]).cell_loc,
                        ),
                self.entropy_heap@.len() >= old(self).queue_spec().len(),
                forall|j: int|
                    0 <= j < old(self).queue_spec().len() ==> #[trigger] self.entropy_heap@[j]
                        == old(self).queue_spec()[j],
                forall|j: int|
                    old(self).queue_spec().len() <= j < self.entropy_heap@.len() ==> exists|
                        kk: int,
                    |
                        #![auto]
                        0 <= kk < d && neighbors[kk].1 == Some(
                            (#[trigger] self.entropy_heap@[j]).loc,
                        ),
                forall|u: int|
                    0 <= u < old(self).updated_spec().len() ==> #[trigger] self.updated_cells@[u]
                        == old(self).updated_spec()[u],
                self.updated_cells@.len() >= old(self).updated_spec().len(),
                forall|u: int|
                    old(self).updated_spec().len() <= u < self.updated_cells@.len() ==> exists|
                        kk: int,
                    |
                        #![auto]
                        0 <= kk < d && neighbors[kk].1 == Some(#[trigger] self.updated_cells@[u]),
                self.wave@.len() + total_allowed(self.cells(), self.cells().len() as int) == old(self).work_left() - 1,
            decreases 4 - d,
        {
            let (dir, opt) = neighbors[d];
            match opt {
                None => {},
                Some(nloc) => {
                    proof {
                        assert(neighbors[d as int].1 == Some(nloc));
                        assert(self.board.inbounds_spec(nloc));
                    }
                    let i = self.board.index_grid(nloc);
                    proof {
                        self.board.lemma_index(nloc, n);
                        // This neighbour was not touched by an earlier
                        // direction: distinct directions reach distinct
                        // locations.
                        assert(self.cells()[i as int] == old(self).cells()[i as int]) by {
                            if self.cells()[i as int] != old(self).cells()[i as int] {
                                let kk = choose|kk: int|
                                    #![auto]
                                    0 <= kk < d && neighbors[kk].1 == Some(
                                        old(self).cells()[i as int].loc,
                                    ) && (old(self).cells()[i as int].collapsed_to is None
                                        ==> EnablerDict::decremented(
                                        old(self).cells()[i as int].domain,
                                        self.cells()[i as int].domain,
                                        old(self).rules_spec().allowed_seq(
                                            event.tile_id,
                                            neighbors[kk].0,
                                        ),
                                        neighbors[kk].0.opp(),
                                    ));
                                assert(old(self).cells()[i as int].loc == nloc);
                                assert(neighbors[kk].0 != dir) by {
                                    if kk == 0 {
                                    } else if kk == 1 {
                                    } else if kk == 2 {
                                    } else {
                                    }
                                }
                                lemma_neighbor_of_distinct(
                                    event.cell_loc,
                                    neighbors[kk].0,
                                    dir,
                                    w,
                                    h,
                                );
                                assert(neighbors[kk].1 == neighbor_of(
                                    event.cell_loc,
                                    neighbors[kk].0,
                                    w,
                                    h,
                                )) by {
                                    if kk == 0 {
                                    } else if kk == 1 {
                                    } else if kk == 2 {
                                    } else {
                                    }
                                }
                            }
                        }
                    }
                    let ghost pre_cells = self.cells();
                    let res = self.board.cell_remove_enabler(
                        i,
                        event.tile_id,
                        dir,
                        &self.adjacency_rules,
                    );
                    proof {
                        assert(self.cells() =~= pre_cells.update(i as int, self.cells()[i as int]));
                        lemma_total_allowed_update(
                            pre_cells,
                            i as int,
                            self.cells()[i as int],
                            pre_cells.len() as int,
                        );
                        lemma_count_uncollapsed_update(
                            pre_cells,
                            i as int,
                            self.cells()[i as int],
                            pre_cells.len() as int,
                        );
                        assert forall|k: int|
                            0 <= k < self.cells().len() && (#[trigger] self.cells()[k]).collapsed_to
                                is None implies has_entry(
                            self.entropy_heap@,
                            self.cells()[k].loc,
                        ) by {
                            if k != i {
                                assert(self.cells()[k] == pre_cells[k]);
                            } else {
                                assert(self.cells()[i as int].loc == pre_cells[i as int].loc);
                                assert(self.cells()[i as int].collapsed_to == pre_cells[i as int].collapsed_to);
                            }
                        }
                    }
                    match res {
                        Err(c) => {
                            proof {
                                // The clash lives in the untouched old cell.
                                let s = old(self).rules_spec().allowed_seq(event.tile_id, dir);
                                let od = dir.opp();
                                assert(old(self).cells()[i as int].domain.has_zero_count_clash(
                                    s,
                                    od,
                                ));
                                let t = choose|t: TileId|
                                    #![auto]
                                    s.contains(t) && old(self).cells()[i as int].domain.allowed(t)
                                        && old(self).cells()[i as int].domain.count_spec(t, od)
                                        == 0;
                                assert(0 <= i < old(self).cells().len() && old(self).cells()[i as int].collapsed_to
                                    is None && old(self).cells()[i as int].domain.allowed(t) && old(self).cells()[i as int].domain.count_spec(t, od) == 0);
                                // The witness direction for the clash.
                                assert(neighbor_of(event.cell_loc, dir, w, h) == Some(nloc));
                                assert(old(self).index_spec(nloc) == i);
                                assert(old(self).cells()[old(self).index_spec(
                                    neighbor_of(event.cell_loc, dir, w, h).unwrap(),
                                )].domain.has_zero_count_clash(
                                    old(self).rules_spec().allowed_seq(event.tile_id, dir),
                                    dir.opp(),
                                ));
                            }
                            return Err(c);
                        },
                        Ok(Some(mut events2)) => {
                            proof {
                                assert forall|k: int|
                                    0 <= k < events2@.len() implies self.board.inbounds_spec(
                                    (#[trigger] events2@[k]).cell_loc,
                                ) && events2@[k].tile_id < n && events2@[k].cell_loc == nloc by {
                                    assert(events2@[k].cell_loc == pre_cells[i as int].loc);
                                    self.board.lemma_loc_inbounds(i as int, n);
                                }
                            }
                            let ghost wave_before = self.wave@;
                            let ghost ev2_snap = events2@;
                            self.wave.append(&mut events2);
                            proof {
                                assert(self.wave@ == wave_before + ev2_snap);
                            }
                            let ghost upd_before = self.updated_cells@;
                            self.updated_cells.push(nloc);
                            proof {
                                assert forall|q: int|
                                    old(self).wave_spec().len() - 1 <= q < self.wave@.len() implies exists|
                                    kk: int,
                                |
                                    #![auto]
                                    0 <= kk < d + 1 && neighbors[kk].1 == Some(
                                        (#[trigger] self.wave@[q]).cell_loc,
                                    ) by {
                                    if q < wave_before.len() {
                                        assert(self.wave@[q] == wave_before[q]);
                                    } else {
                                        assert(self.wave@[q].cell_loc == nloc);
                                        assert(neighbors[d as int].1 == Some(nloc));
                                    }
                                }
                                assert forall|u: int|
                                    old(self).updated_spec().len() <= u < self.updated_cells@.len()
                                    implies exists|kk: int|
                                    #![auto]
                                    0 <= kk < d + 1 && neighbors[kk].1 == Some(
                                        #[trigger] self.updated_cells@[u],
                                    ) by {
                                    if u < upd_before.len() {
                                        assert(self.updated_cells@[u] == upd_before[u]);
                                    } else {
                                        assert(self.updated_cells@[u] == nloc);
                                        assert(neighbors[d as int].1 == Some(nloc));
                                    }
                                }
                            }
                        },
                        Ok(None) => {},
                    }
                    let entry = self.board.entry_at(i);
                    let ghost pre_heap = self.entropy_heap@;
                    self.entropy_heap.push(entry);
                    proof {
                        assert forall|k: int|
                            0 <= k < self.cells().len() && (#[trigger] self.cells()[k]).collapsed_to
                                is None implies has_entry(
                            self.entropy_heap@,
                            self.cells()[k].loc,
                        ) by {
                            lemma_has_entry_push(pre_heap, entry, self.cells()[k].loc);
                        }
                        assert forall|j: int|
                            0 <= j < self.entropy_heap@.len() implies self.board.inbounds_spec(
                            (#[trigger] self.entropy_heap@[j]).loc,
                        ) by {
                            if j < pre_heap.len() {
                                assert(self.entropy_heap@[j] == pre_heap[j]);
                            } else {
                                assert(self.entropy_heap@[j] == entry);
                                self.board.lemma_loc_inbounds(i as int, n);
                            }
                        }
                        assert forall|j: int|
                            old(self).queue_spec().len() <= j < self.entropy_heap@.len() implies exists|
                            kk: int,
                        |
                            #![auto]
                            0 <= kk < d + 1 && neighbors[kk].1 == Some(
                                (#[trigger] self.entropy_heap@[j]).loc,
                            ) by {
                            if j < pre_heap.len() {
                                assert(self.entropy_heap@[j] == pre_heap[j]);
                            } else {
                                assert(self.entropy_heap@[j] == entry);
                                assert(entry.loc == self.cells()[i as int].loc);
                                assert(self.cells()[i as int].loc == old(self).cells()[i as int].loc);
                                assert(neighbors[d as int].1 == Some(nloc));
                            }
                        }
                        // The changed-cell witness for this neighbour.
                        assert forall|k: int|
                            #![auto]
                            0 <= k < self.cells().len() && self.cells()[k] != old(self).cells()[k]
                            implies exists|kk: int|
                            #![auto]
                            0 <= kk < d + 1 && neighbors[kk].1 == Some(old(self).cells()[k].loc)
                                && (old(self).cells()[k].collapsed_to is None
                                ==> EnablerDict::decremented(
                                old(self).cells()[k].domain,
                                self.cells()[k].domain,
                                old(self).rules_spec().allowed_seq(event.tile_id, neighbors[kk].0),
                                neighbors[kk].0.opp(),
                            )) by {
                            if k == i {
                                assert(neighbors[d as int].1 == Some(old(self).cells()[i as int].loc));
                                assert(neighbors[d as int].0 == dir);
                            } else {
                                assert(self.cells()[k] == pre_cells[k]);
                            }
                        }
                        // Re-establish the per-direction processed facts.
                        assert(old(self).index_spec(nloc) == i);
                        assert forall|kk: int|
                            #![auto]
                            0 <= kk < d + 1 && neighbors[kk].1 is Some implies neighbor_processed(
                            old(self).cells(),
                            self.cells(),
                            old(self).index_spec(neighbors[kk].1.unwrap()),
                            old(self).rules_spec(),
                            event.tile_id,
                            neighbors[kk].0,
                        ) by {
                            let nl = neighbors[kk].1.unwrap();
                            let j = old(self).index_spec(nl);
                            if kk == d {
                                assert(nl == nloc && j == i);
                                assert(pre_cells[i as int] == old(self).cells()[i as int]);
                            } else {
                                assert(neighbors[kk].0 != dir) by {
                                    if kk == 0 {
                                    } else if kk == 1 {
                                    } else if kk == 2 {
                                    } else {
                                    }
                                }
                                assert(neighbors[kk].1 == neighbor_of(
                                    event.cell_loc,
                                    neighbors[kk].0,
                                    w,
                                    h,
                                )) by {
                                    if kk == 0 {
                                    } else if kk == 1 {
                                    } else if kk == 2 {
                                    } else {
                                    }
                                }
                                lemma_neighbor_of_distinct(
                                    event.cell_loc,
                                    neighbors[kk].0,
                                    dir,
                                    w,
                                    h,
                                );
                                assert(nl != nloc);
                                self.board.lemma_index(nl, n);
                                self.board.lemma_index(nloc, n);
                                assert(j != i);
                                assert(self.cells()[j] == pre_cells[j]);
                            }
                        }
                    }
                },
            }
            d = d + 1;
        }
        proof {
            // Every direction was processed; convert the slot-indexed facts
            // to direction form, and rule the clash out on this Ok path.
            assert forall|dd: CardinalDirs|
                (#[trigger] neighbor_of(event.cell_loc, dd, w, h)) is Some
                implies neighbor_processed(
                old(self).cells(),
                self.cells(),
                old(self).index_spec(neighbor_of(event.cell_loc, dd, w, h).unwrap()),
                old(self).rules_spec(),
                event.tile_id,
                dd,
            ) && !(old(self).cells()[old(self).index_spec(
                neighbor_of(event.cell_loc, dd, w, h).unwrap(),
            )].collapsed_to is None && old(self).cells()[old(self).index_spec(
                neighbor_of(event.cell_loc, dd, w, h).unwrap(),
            )].domain.has_zero_count_clash(
                old(self).rules_spec().allowed_seq(event.tile_id, dd),
                dd.opp(),
            )) by {
                match dd {
                    CardinalDirs::Up => {
                        assert(neighbors[0].1 is Some);
                    },
                    CardinalDirs::Right => {
                        assert(neighbors[1].1 is Some);
                    },
                    CardinalDirs::Down => {
                        assert(neighbors[2].1 is Some);
                    },
                    CardinalDirs::Left => {
                        assert(neighbors[3].1 is Some);
                    },
                }
            }
            // Name each processed slot's direction for the postcondition.
            assert forall|k: int|
                #![auto]
                0 <= k < self.cells().len() && self.cells()[k] != old(self).cells()[k] implies exists|
                dd: CardinalDirs,
            |
                #![auto]
                neighbor_of(old(self).wave_spec().last().cell_loc, dd, w, h) == Some(
                    old(self).cells()[k].loc,
                ) && (old(self).cells()[k].collapsed_to is None ==> EnablerDict::decremented(
                    old(self).cells()[k].domain,
                    self.cells()[k].domain,
                    old(self).rules_spec().allowed_seq(
                        old(self).wave_spec().last().tile_id,
                        dd,
                    ),
                    dd.opp(),
                )) by {
                let kk = choose|kk: int|
                    #![auto]
                    0 <= kk < 4 && neighbors[kk].1 == Some(old(self).cells()[k].loc) && (old(self).cells()[k].collapsed_to is None ==> EnablerDict::decremented(
                        old(self).cells()[k].domain,
                        self.cells()[k].domain,
                        old(self).rules_spec().allowed_seq(event.tile_id, neighbors[kk].0),
                        neighbors[kk].0.opp(),
                    ));
                if kk == 0 {
                } else if kk == 1 {
                } else if kk == 2 {
                } else {
                }
            }
            assert forall|q: int|
                old(self).wave_spec().len() - 1 <= q < self.wave@.len() implies exists|
                dd: CardinalDirs,
            |
                #![auto]
                neighbor_of(old(self).wave_spec().last().cell_loc, dd, w, h) == Some(
                    (#[trigger] self.wave@[q]).cell_loc,
                ) by {
                let kk = choose|kk: int|
                    #![auto]
                    0 <= kk < 4 && neighbors[kk].1 == Some(self.wave@[q].cell_loc);
                if kk == 0 {
                } else if kk == 1 {
                } else if kk == 2 {
                } else {
                }
            }
            assert forall|j: int|
                old(self).queue_spec().len() <= j < self.entropy_heap@.len() implies exists|
                dd: CardinalDirs,
            |
                #![auto]
                neighbor_of(old(self).wave_spec().last().cell_loc, dd, w, h) == Some(
                    (#[trigger] self.entropy_heap@[j]).loc,
                ) by {
                let kk = choose|kk: int|
                    #![auto]
                    0 <= kk < 4 && neighbors[kk].1 == Some(self.entropy_heap@[j].loc);
                if kk == 0 {
                } else if kk == 1 {
                } else if kk == 2 {
                } else {
                }
            }
            assert forall|u: int|
                old(self).updated_spec().len() <= u < self.updated_cells@.len() implies exists|
                dd: CardinalDirs,
            |
                #![auto]
                neighbor_of(old(self).wave_spec().last().cell_loc, dd, w, h) == Some(
                    #[trigger] self.updated_cells@[u],
                ) by {
                let kk = choose|kk: int|
                    #![auto]
                    0 <= kk < 4 && neighbors[kk].1 == Some(self.updated_cells@[u]);
                if kk == 0 {
                } else if kk == 1 {
                } else if kk == 2 {
                } else {
                }
            }
        }
        Ok(())
    }

    /// Advances the run by exactly one unit of work: a no-op once every
    /// cell is collapsed; otherwise one collapse when the wave is empty, or
    /// one propagation pop when it is not.  Returns the locations whose
    /// state changed during this call.
    pub fn step(&mut self) -> (r: Result<Vec<Loc>, Contradiction>)
        requires
            old(self).wf(),
        ensures
            final(self).remaining_spec() <= old(self).remaining_spec(),
            final(self).rules_spec() == old(self).rules_spec(),
            final(self).width_spec() == old(self).width_spec(),
            final(self).height_spec() == old(self).height_spec(),
            r is Ok ==> final(self).wf(),
            old(self).remaining_spec() > 0 && r is Ok ==> final(self).updated_spec().len() == 0,
            old(self).remaining_spec() == 0 ==> *final(self) == *old(self) && (r matches Ok(v)
                && v@ =~= Seq::<Loc>::empty()),
            old(self).remaining_spec() > 0 && old(self).wave_len() == 0 && r is Ok ==> final(self).remaining_spec() == old(self).remaining_spec() - 1,
            old(self).remaining_spec() > 0 && old(self).wave_len() > 0 && r is Ok ==> final(self).remaining_spec() == old(self).remaining_spec() && final(self).work_left() == old(self).work_left() - 1,
            // An error preserves the uncollapsed count and names its
            // witness: either some uncollapsed cell has no possible tile
            // left (found while collapsing), or an uncollapsed cell holds a
            // possible tile whose enabler counter is already zero (found
            // while propagating).
            r is Err ==> final(self).remaining_spec() == old(self).remaining_spec(),
            r is Err ==> (exists|i: int|
                #![auto]
                0 <= i < old(self).cells().len() && old(self).cells()[i].collapsed_to is None
                    && old(self).cells()[i].domain.allowed_count() == 0) || (exists|
                k: int,
                t: TileId,
                dd: CardinalDirs,
            |
                #![auto]
                0 <= k < old(self).cells().len() && old(self).cells()[k].collapsed_to is None
                    && old(self).cells()[k].domain.allowed(t) && old(self).cells()[k].domain.count_spec(
                    t,
                    dd,
                ) == 0),
            // A collapse step follows the lazy min-entropy rule: the
            // collapsed cell's re-queued entry sits last in the queue, at
            // or below every queued entry, all of which were queued before.
            old(self).remaining_spec() > 0 && old(self).wave_len() == 0 && r is Ok ==> final(self).queue_spec().len() >= 1 && (forall|j: int|
                0 <= j < final(self).queue_spec().len() ==> final(self).queue_spec().last().le_spec(
                    #[trigger] final(self).queue_spec()[j],
                )) && (forall|j: int|
                0 <= j < final(self).queue_spec().len() ==> from_queue(
                    old(self).queue_spec(),
                    #[trigger] final(self).queue_spec()[j],
                )),
            // With no stale updated entries pending, a collapse step returns
            // exactly the collapsed cell's location.
            old(self).remaining_spec() > 0 && old(self).wave_len() == 0 && old(self).updated_spec().len() == 0 ==> (r matches Ok(v) ==> exists|i: int|
                #![auto]
                0 <= i < old(self).cells().len() && old(self).cells()[i].collapsed_to is None
                    && final(self).cells()[i].collapsed_to is Some && v@ == seq![
                old(self).cells()[i].loc,
            ]),
            // Likewise, a propagation step returns only locations adjacent
            // to the popped event's cell.
            old(self).remaining_spec() > 0 && old(self).wave_len() > 0 && old(self).updated_spec().len() == 0 ==> (r matches Ok(v) ==> forall|q: int|
                0 <= q < v@.len() ==> exists|dd: CardinalDirs|
                    #![auto]
                    neighbor_of(
                        old(self).wave_spec().last().cell_loc,
                        dd,
                        old(self).width_spec(),
                        old(self).height_spec(),
                    ) == Some(#[trigger] v@[q])),
    {
        if self.remaining_uncollapsed == 0 {
            return Ok(Vec::new());
        }
        let res = if self.wave.len() == 0 {
            self.collapse_cell()
        } else {
            self.propogate()
        };
        match res {
            Err(c) => Err(c),
            Ok(()) => {
                let ghost snap = *self;
                let mut updated: Vec<Loc> = Vec::new();
                while self.updated_cells.len() > 0
                    invariant
                        self.wf(),
                        self.remaining_spec() == snap.remaining_spec(),
                        self.rules_spec() == snap.rules_spec(),
                        self.width_spec() == snap.width_spec(),
                        self.height_spec() == snap.height_spec(),
                        self.work_left() == snap.work_left(),
                        self.cells() == snap.cells(),
                        self.queue_spec() == snap.queue_spec(),
                        self.updated_cells@ == snap.updated_spec().subrange(
                            0,
                            self.updated_cells@.len() as int,
                        ),
                        updated@.len() + self.updated_cells@.len() == snap.updated_spec().len(),
                        forall|q: int|
                            0 <= q < updated@.len() ==> #[trigger] updated@[q]
                                == snap.updated_spec()[snap.updated_spec().len() - 1 - q],
                    decreases self.updated_cells@.len(),
                {
                    let ghost m = self.updated_cells@.len() as int;
                    let l = self.updated_cells.pop().unwrap();
                    proof {
                        assert(l == snap.updated_spec()[m - 1]);
                        assert(self.updated_cells@ =~= snap.updated_spec().subrange(0, m - 1));
                    }
                    updated.push(l);
                }
                proof {
                    if old(self).wave_len() == 0 && old(self).updated_spec().len() == 0 {
                        assert(snap.updated_spec().len() == 1);
                        assert(updated@ =~= seq![snap.updated_spec()[0]]);
                    }
                    if old(self).wave_len() > 0 && old(self).updated_spec().len() == 0 {
                        assert forall|q: int|
                            0 <= q < updated@.len() implies exists|dd: CardinalDirs|
                            #![auto]
                            neighbor_of(
                                old(self).wave_spec().last().cell_loc,
                                dd,
                                old(self).width_spec(),
                                old(self).height_spec(),
                            ) == Some(#[trigger] updated@[q]) by {
                            let u = snap.updated_spec().len() - 1 - q;
                            assert(updated@[q] == snap.updated_spec()[u]);
                            assert(0 <= u < snap.updated_spec().len());
                            assert(exists|dd: CardinalDirs|
                                #![auto]
                                neighbor_of(
                                    old(self).wave_spec().last().cell_loc,
                                    dd,
                                    old(self).width_spec(),
                                    old(self).height_spec(),
                                ) == Some(snap.updated_spec()[u]));
                        }
                    }
                }
                Ok(updated)
            },
        }
    }
}

} // verus!
