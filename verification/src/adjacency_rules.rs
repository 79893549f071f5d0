//! The directed tile-compatibility table and the per-cell arc-consistency
//! counters derived from it.
//!
//! `AdjacencyRules` is a symmetric-by-construction table: declaring that `a`
//! may sit next to `b` in direction `d` always also declares that `b` may sit
//! next to `a` in the opposite direction.  `EnablerDict` holds, for one grid
//! cell, a counter per still-possible tile and direction of how many
//! compatible neighbour tiles remain; a counter reaching zero makes the tile
//! impossible in this cell.

use vstd::prelude::*;

use crate::tile::TileId;

verus! {

/// A contradiction: the rules and the choices already made admit no tiling.
#[derive(Clone, Copy, Debug, PartialEq, Eq, Structural)]
pub struct Contradiction;

/// One of the four cardinal directions, as used by the solver.
#[derive(Clone, Copy, Debug, PartialEq, Eq, Structural)]
pub enum CardinalDirs {
    Up,
    Left,
    Right,
    Down,
}

impl CardinalDirs {
    /// The opposite direction, as a spec-level function.
    pub open spec fn opp(self) -> CardinalDirs {
        match self {
            CardinalDirs::Up => CardinalDirs::Down,
            CardinalDirs::Left => CardinalDirs::Right,
            CardinalDirs::Right => CardinalDirs::Left,
            CardinalDirs::Down => CardinalDirs::Up,
        }
    }

    /// The opposite direction; an involution (`d.opposite().opposite() == d`).
    pub fn opposite(self) -> (r: CardinalDirs)
        ensures
            r == self.opp(),
            r.opp() == self,
    {
        match self {
            CardinalDirs::Up => CardinalDirs::Down,
            CardinalDirs::Left => CardinalDirs::Right,
            CardinalDirs::Right => CardinalDirs::Left,
            CardinalDirs::Down => CardinalDirs::Up,
        }
    }

    /// Dense index of the direction, the order every per-direction array uses.
    pub open spec fn index_spec(self) -> int {
        match self {
            CardinalDirs::Up => 0,
            CardinalDirs::Left => 1,
            CardinalDirs::Down => 2,
            CardinalDirs::Right => 3,
        }
    }

    /// Dense index of the direction, usable as an array offset.
    pub fn index(self) -> (r: usize)
        ensures
            r == self.index_spec(),
    {
        match self {
            CardinalDirs::Up => 0,
            CardinalDirs::Left => 1,
            CardinalDirs::Down => 2,
            CardinalDirs::Right => 3,
        }
    }

    /// The direction carrying a dense index, inverse to `index`.
    pub fn from_index(i: usize) -> (r: CardinalDirs)
        requires
            i < 4,
        ensures
            r.index_spec() == i,
    {
        if i == 0 {
            CardinalDirs::Up
        } else if i == 1 {
            CardinalDirs::Left
        } else if i == 2 {
            CardinalDirs::Down
        } else {
            CardinalDirs::Right
        }
    }

    /// All four directions in a fixed order.
    pub fn as_array() -> (r: [CardinalDirs; 4])
        ensures
            r[0] == CardinalDirs::Up,
            r[1] == CardinalDirs::Left,
            r[2] == CardinalDirs::Down,
            r[3] == CardinalDirs::Right,
    {
        [CardinalDirs::Up, CardinalDirs::Left, CardinalDirs::Down, CardinalDirs::Right]
    }

    /// All four directions, in the same order as `as_array`.
    pub fn as_uvec_array() -> (r: [CardinalDirs; 4])
        ensures
            r[0] == CardinalDirs::Up,
            r[1] == CardinalDirs::Left,
            r[2] == CardinalDirs::Down,
            r[3] == CardinalDirs::Right,
    {
        [CardinalDirs::Up, CardinalDirs::Left, CardinalDirs::Down, CardinalDirs::Right]
    }

    /// All four directions as a vector, for callers that loop over them.
    pub fn iter() -> (r: Vec<CardinalDirs>)
        ensures
            r@.len() == 4,
            r@[0] == CardinalDirs::Up,
            r@[1] == CardinalDirs::Left,
            r@[2] == CardinalDirs::Down,
            r@[3] == CardinalDirs::Right,
    {
        let mut v: Vec<CardinalDirs> = Vec::new();
        v.push(CardinalDirs::Up);
        v.push(CardinalDirs::Left);
        v.push(CardinalDirs::Down);
        v.push(CardinalDirs::Right);
        v
    }
}

/// The tiles allowed adjacent to one tile, one duplicate-free list per
/// direction.
struct TileDirs {
    up: Vec<TileId>,
    left: Vec<TileId>,
    down: Vec<TileId>,
    right: Vec<TileId>,
}

impl TileDirs {
    spec fn get_spec(&self, dir: CardinalDirs) -> Seq<TileId> {
        match dir {
            CardinalDirs::Up => self.up@,
            CardinalDirs::Left => self.left@,
            CardinalDirs::Down => self.down@,
            CardinalDirs::Right => self.right@,
        }
    }

    spec fn wf(&self, n: int) -> bool {
        forall|d: CardinalDirs|
            (#[trigger] self.get_spec(d)).no_duplicates() && forall|k: int|
                0 <= k < self.get_spec(d).len() ==> self.get_spec(d)[k] < n
    }

    fn empty() -> (r: TileDirs)
        ensures
            forall|d: CardinalDirs| (#[trigger] r.get_spec(d)).len() == 0,
    {
        let r = TileDirs { up: Vec::new(), left: Vec::new(), down: Vec::new(), right: Vec::new() };
        assert forall|d: CardinalDirs| (#[trigger] r.get_spec(d)).len() == 0 by {
            match d {
                CardinalDirs::Up => {},
                CardinalDirs::Left => {},
                CardinalDirs::Down => {},
                CardinalDirs::Right => {},
            }
        }
        r
    }
}

/// How many ids below `n` the list `s` holds.
spec fn count_contains(s: Seq<TileId>, n: int) -> int
    decreases n,
{
    if n <= 0 {
        0
    } else {
        count_contains(s, n - 1) + if s.contains((n - 1) as usize) {
            1int
        } else {
            0int
        }
    }
}

/// Dropping the last element of a duplicate-free list lowers each
/// membership count by exactly that element.
proof fn lemma_count_contains_drop_last(s: Seq<TileId>, n: int)
    requires
        s.no_duplicates(),
        s.len() >= 1,
        0 <= n <= usize::MAX + 1,
    ensures
        count_contains(s, n) == count_contains(s.drop_last(), n) + if s.last() < n {
            1int
        } else {
            0int
        },
    decreases n,
{
    if n > 0 {
        lemma_count_contains_drop_last(s, n - 1);
        let t = (n - 1) as usize;
        assert(count_contains(s, n) == count_contains(s, n - 1) + if s.contains(t) {
            1int
        } else {
            0int
        });
        assert(count_contains(s.drop_last(), n) == count_contains(s.drop_last(), n - 1)
            + if s.drop_last().contains(t) {
            1int
        } else {
            0int
        });
        assert(s.contains(t) <==> (s.drop_last().contains(t) || s.last() == t)) by {
            if s.contains(t) {
                let k = choose|k: int| 0 <= k < s.len() && s[k] == t;
                if k < s.len() - 1 {
                    assert(s.drop_last()[k] == t);
                }
            }
            if s.drop_last().contains(t) {
                let k = choose|k: int| 0 <= k < s.drop_last().len() && s.drop_last()[k] == t;
                assert(s[k] == t);
            }
            if s.last() == t {
                assert(s[s.len() - 1] == t);
            }
        }
        if s.last() == t {
            assert(!s.drop_last().contains(t)) by {
                if s.drop_last().contains(t) {
                    let k = choose|k: int| 0 <= k < s.drop_last().len() && s.drop_last()[k] == t;
                    assert(s[k] == t && s[s.len() - 1] == t);
                }
            }
            assert(s.contains(t));
        } else {
            assert(s.contains(t) <==> s.drop_last().contains(t));
        }
    }
}

/// A duplicate-free list of ids below `n` is as long as its membership
/// count over `0..n`.
proof fn lemma_card_of_bounded_nodup(s: Seq<TileId>, n: int)
    requires
        s.no_duplicates(),
        forall|k: int| 0 <= k < s.len() ==> s[k] < n,
        0 <= n <= usize::MAX + 1,
    ensures
        count_contains(s, n) == s.len(),
    decreases s.len(),
{
    if s.len() == 0 {
        lemma_count_contains_empty(s, n);
    } else {
        lemma_count_contains_drop_last(s, n);
        assert(s.drop_last().no_duplicates()) by {
            assert forall|k: int, l: int|
                0 <= k < l < s.drop_last().len() implies s.drop_last()[k] != s.drop_last()[l] by {
                assert(s[k] == s.drop_last()[k] && s[l] == s.drop_last()[l]);
            }
        }
        assert(s.last() < n);
        lemma_card_of_bounded_nodup(s.drop_last(), n);
    }
}

proof fn lemma_count_contains_empty(s: Seq<TileId>, n: int)
    requires
        s.len() == 0,
        0 <= n,
    ensures
        count_contains(s, n) == 0,
    decreases n,
{
    if n > 0 {
        lemma_count_contains_empty(s, n - 1);
    }
}

/// Membership counting over the enabler list equals counting over the
/// allows relation.
proof fn lemma_count_contains_congruent_allows(
    rules: AdjacencyRules,
    from: TileId,
    dir: CardinalDirs,
    s: Seq<TileId>,
    n: int,
)
    requires
        from < rules.len_spec(),
        s == rules.allowed_seq(from, dir),
    ensures
        count_contains(s, n) == rules.allows_count(from, dir, n),
    decreases n,
{
    if n > 0 {
        lemma_count_contains_congruent_allows(rules, from, dir, s, n - 1);
    }
}

/// Tests whether a list of tile ids holds a given id.
fn ids_contain(v: &Vec<TileId>, x: TileId) -> (r: bool)
    ensures
        r == v@.contains(x),
{
    let mut i: usize = 0;
    while i < v.len()
        invariant
            i <= v@.len(),
            forall|k: int| 0 <= k < i ==> v@[k] != x,
        decreases v@.len() - i,
    {
        if v[i] == x {
            return true;
        }
        i = i + 1;
    }
    false
}

/// The static tile-compatibility table: for each tile and direction, the set
/// of tiles allowed adjacent in that direction.  Symmetric by construction.
pub struct AdjacencyRules {
    table: Vec<TileDirs>,
}

impl AdjacencyRules {
    /// Number of registered tiles.
    pub closed spec fn len_spec(&self) -> nat {
        self.table@.len()
    }

    /// The list of tiles allowed adjacent to `from` in direction `dir`.
    pub closed spec fn allowed_seq(&self, from: TileId, dir: CardinalDirs) -> Seq<TileId> {
        self.table@[from as int].get_spec(dir)
    }

    /// Whether `to` is allowed adjacent to `from` in direction `dir`.
    pub open spec fn allows(&self, from: TileId, to: TileId, dir: CardinalDirs) -> bool {
        from < self.len_spec() && self.allowed_seq(from, dir).contains(to)
    }

    /// Well-formedness: every per-direction list is duplicate-free and only
    /// mentions registered tiles.
    pub closed spec fn wf(&self) -> bool {
        forall|from: int, d: CardinalDirs|
            0 <= from < self.table@.len() ==> (#[trigger] self.table@[from].get_spec(d)).no_duplicates()
                && forall|k: int|
                    0 <= k < self.table@[from].get_spec(d).len() ==> self.table@[from].get_spec(
                        d,
                    )[k] < self.table@.len()
    }

    /// Whether every allowance has its mirror: `b` allowed next to `a` in a
    /// direction exactly when `a` is allowed next to `b` in the opposite one.
    pub open spec fn symmetric(&self) -> bool {
        forall|a: TileId, b: TileId, d: CardinalDirs|
            #[trigger] self.allows(a, b, d) ==> self.allows(b, a, d.opp())
    }

    /// Counts the tiles below `n` that `from` allows in direction `dir`.
    pub open spec fn allows_count(&self, from: TileId, dir: CardinalDirs, n: int) -> int
        decreases n,
    {
        if n <= 0 {
            0
        } else {
            self.allows_count(from, dir, n - 1) + if self.allows(from, (n - 1) as usize, dir) {
                1int
            } else {
                0int
            }
        }
    }

    /// An enabler list is as long as the number of registered tiles its
    /// relation admits: the per-direction counters are determined by the
    /// allows relation.
    pub proof fn lemma_allowed_seq_len(&self, from: TileId, dir: CardinalDirs)
        requires
            self.wf(),
            self.len_spec() <= usize::MAX,
            from < self.len_spec(),
        ensures
            self.allowed_seq(from, dir).len() == self.allows_count(
                from,
                dir,
                self.len_spec() as int,
            ),
    {
        self.lemma_wf_bounds(from, dir);
        lemma_card_of_bounded_nodup(self.allowed_seq(from, dir), self.len_spec() as int);
        lemma_count_contains_congruent_allows(
            *self,
            from,
            dir,
            self.allowed_seq(from, dir),
            self.len_spec() as int,
        );
    }

    /// Exports the id bound of `wf` for callers.
    pub proof fn lemma_wf_bounds(&self, from: TileId, dir: CardinalDirs)
        requires
            self.wf(),
            from < self.len_spec(),
        ensures
            self.allowed_seq(from, dir).no_duplicates(),
            forall|k: int|
                0 <= k < self.allowed_seq(from, dir).len() ==> self.allowed_seq(from, dir)[k]
                    < self.len_spec(),
    {
    }

    /// An empty table.
    pub fn new() -> (r: AdjacencyRules)
        ensures
            r.len_spec() == 0,
            r.wf(),
    {
        AdjacencyRules { table: Vec::new() }
    }

    /// Number of registered tiles.  The table is dense: this is one more
    /// than the largest id that has appeared in an `allow` call, so with
    /// the data model's contiguous 0-based ids it is the tile count (a
    /// sparse id set would count the gaps too).
    pub fn len(&self) -> (r: usize)
        ensures
            r == self.len_spec(),
    {
        self.table.len()
    }

    /// Whether no tile has been registered yet.
    pub fn is_empty(&self) -> (r: bool)
        ensures
            r == (self.len_spec() == 0),
    {
        self.table.len() == 0
    }

    /// Grows the table so that tile `id` is registered.
    fn ensure_tile(&mut self, id: TileId)
        requires
            old(self).wf(),
            id < usize::MAX,
        ensures
            final(self).wf(),
            final(self).len_spec() == if old(self).len_spec() > id + 1 {
                old(self).len_spec() as int
            } else {
                id + 1
            },
            forall|a: TileId, d: CardinalDirs|
                a < old(self).len_spec() ==> final(self).allowed_seq(a, d) == old(self).allowed_seq(
                    a,
                    d,
                ),
            forall|a: TileId, d: CardinalDirs|
                old(self).len_spec() <= a < final(self).len_spec()
                    ==> (#[trigger] final(self).allowed_seq(a, d)).len() == 0,
            forall|a: TileId, b: TileId, d: CardinalDirs|
                final(self).allows(a, b, d) == old(self).allows(a, b, d),
    {
        while self.table.len() <= id
            invariant
                old(self).wf(),
                id < usize::MAX,
                self.table@.len() >= old(self).table@.len(),
                self.table@.len() <= vstd::math::max(old(self).table@.len() as int, id + 1),
                forall|a: int|
                    0 <= a < old(self).table@.len() ==> self.table@[a] == old(self).table@[a],
                forall|a: int, d: CardinalDirs|
                    old(self).table@.len() <= a < self.table@.len() ==> (
                    #[trigger] self.table@[a].get_spec(d)).len() == 0,
            decreases id + 1 - self.table@.len(),
        {
            let td = TileDirs::empty();
            self.table.push(td);
        }
        assert(final(self).wf()) by {
            assert forall|from: int, d: CardinalDirs|
                0 <= from < self.table@.len() implies (#[trigger] self.table@[from].get_spec(
                d,
            )).no_duplicates() && forall|k: int|
                0 <= k < self.table@[from].get_spec(d).len() ==> self.table@[from].get_spec(d)[k]
                    < self.table@.len() by {
                if from < old(self).table@.len() {
                    assert(self.table@[from] == old(self).table@[from]);
                    assert(old(self).table@[from].get_spec(d).no_duplicates());
                }
            }
        }
        assert forall|a: TileId, b: TileId, d: CardinalDirs|
            final(self).allows(a, b, d) == old(self).allows(a, b, d) by {
            if a < old(self).len_spec() {
            } else if a < final(self).len_spec() {
                assert(final(self).allowed_seq(a, d).len() == 0);
            }
        }
    }

    /// Inserts `to` into `from`'s allowed list for `dir` only; idempotent.
    fn allow_one_way(&mut self, from: TileId, to: TileId, dir: CardinalDirs)
        requires
            old(self).wf(),
            from < usize::MAX,
            to < usize::MAX,
        ensures
            final(self).wf(),
            final(self).len_spec() >= old(self).len_spec(),
            final(self).len_spec() >= from + 1,
            final(self).len_spec() >= to + 1,
            final(self).len_spec() == vstd::math::max(
                old(self).len_spec() as int,
                vstd::math::max(from + 1, to + 1),
            ),
            final(self).allows(from, to, dir),
            forall|a: TileId, b: TileId, d: CardinalDirs|
                old(self).allows(a, b, d) ==> final(self).allows(a, b, d),
            forall|a: TileId, b: TileId, d: CardinalDirs|
                final(self).allows(a, b, d) ==> old(self).allows(a, b, d) || (a == from && b == to
                    && d == dir),
    {
        let bigger = if from > to {
            from
        } else {
            to
        };
        self.ensure_tile(bigger);
        let ghost grown = *self;
        let mut td = self.table.remove(from);
        let present = match dir {
            CardinalDirs::Up => ids_contain(&td.up, to),
            CardinalDirs::Left => ids_contain(&td.left, to),
            CardinalDirs::Down => ids_contain(&td.down, to),
            CardinalDirs::Right => ids_contain(&td.right, to),
        };
        if !present {
            match dir {
                CardinalDirs::Up => td.up.push(to),
                CardinalDirs::Left => td.left.push(to),
                CardinalDirs::Down => td.down.push(to),
                CardinalDirs::Right => td.right.push(to),
            }
        }
        self.table.insert(from, td);
        proof {
            assert(self.table@ =~= grown.table@.update(from as int, self.table@[from as int]));
            assert(self.table@[from as int].get_spec(dir) == if grown.table@[from as int].get_spec(
                dir,
            ).contains(to) {
                grown.table@[from as int].get_spec(dir)
            } else {
                grown.table@[from as int].get_spec(dir).push(to)
            });
            assert forall|d: CardinalDirs|
                d != dir implies #[trigger] self.table@[from as int].get_spec(d)
                == grown.table@[from as int].get_spec(d) by {
                match (d, dir) {
                    _ => {},
                }
            }
            if !grown.table@[from as int].get_spec(dir).contains(to) {
                grown.table@[from as int].get_spec(dir).unique_seq_to_set();
                assert(self.table@[from as int].get_spec(dir).no_duplicates()) by {
                    let s = grown.table@[from as int].get_spec(dir);
                    assert forall|i: int, j: int|
                        0 <= i < j < s.push(to).len() implies s.push(to)[i] != s.push(to)[j] by {
                        if j < s.len() {
                            assert(s.no_duplicates());
                        } else {
                            assert(s.push(to)[j] == to);
                            assert(s.push(to)[i] == s[i]);
                            assert(s.contains(s[i]));
                        }
                    }
                    assert(s.push(to).no_duplicates());
                }
            }
            assert(final(self).wf());
            assert(final(self).allowed_seq(from, dir).contains(to)) by {
                let s = grown.table@[from as int].get_spec(dir);
                if s.contains(to) {
                } else {
                    assert(s.push(to)[s.len() as int] == to);
                }
            }
            assert forall|a: TileId, b: TileId, d: CardinalDirs|
                grown.allows(a, b, d) implies final(self).allows(a, b, d) by {
                if a == from && d == dir {
                    let s = grown.table@[from as int].get_spec(dir);
                    if !s.contains(to) {
                        let k = choose|k: int| 0 <= k < s.len() && s[k] == b;
                        assert(s.push(to)[k] == b);
                    }
                }
            }
            assert forall|a: TileId, b: TileId, d: CardinalDirs|
                final(self).allows(a, b, d) implies grown.allows(a, b, d) || (a == from && b == to
                && d == dir) by {
                if a == from && d == dir {
                    let s = grown.table@[from as int].get_spec(dir);
                    if !s.contains(to) {
                        let k = choose|k: int|
                            0 <= k < s.push(to).len() && s.push(to)[k] == b;
                        if k < s.len() {
                            assert(s[k] == b);
                        }
                    }
                }
            }
        }
    }

    /// Declares `to` allowed next to `from` in direction `dir`, and
    /// symmetrically `from` next to `to` in the opposite direction.
    /// Idempotent; set semantics.
    pub fn allow(&mut self, from: TileId, to: TileId, dir: CardinalDirs)
        requires
            old(self).wf(),
            from < usize::MAX,
            to < usize::MAX,
        ensures
            final(self).wf(),
            final(self).allows(from, to, dir),
            final(self).allows(to, from, dir.opp()),
            final(self).len_spec() == vstd::math::max(
                old(self).len_spec() as int,
                vstd::math::max(from + 1, to + 1),
            ),
            forall|a: TileId, b: TileId, d: CardinalDirs|
                old(self).allows(a, b, d) ==> final(self).allows(a, b, d),
            forall|a: TileId, b: TileId, d: CardinalDirs|
                final(self).allows(a, b, d) ==> old(self).allows(a, b, d) || (a == from && b == to
                    && d == dir) || (a == to && b == from && d == dir.opp()),
            old(self).symmetric() ==> final(self).symmetric(),
            // Idempotence: re-declaring a pair changes nothing.
            old(self).allows(from, to, dir) && old(self).allows(to, from, dir.opp()) ==> forall|
                a: TileId,
                b: TileId,
                d: CardinalDirs,
            | final(self).allows(a, b, d) == old(self).allows(a, b, d),
    {
        self.allow_one_way(from, to, dir);
        let od = dir.opposite();
        self.allow_one_way(to, from, od);
        proof {
            if old(self).symmetric() {
                assert forall|a: TileId, b: TileId, d: CardinalDirs|
                    #[trigger] self.allows(a, b, d) implies self.allows(b, a, d.opp()) by {
                    assert(d.opp().opp() == d) by {
                        match d {
                            CardinalDirs::Up => {},
                            CardinalDirs::Left => {},
                            CardinalDirs::Down => {},
                            CardinalDirs::Right => {},
                        }
                    }
                    if old(self).allows(a, b, d) {
                        assert(old(self).allows(b, a, d.opp()));
                    }
                }
            }
        }
    }

    /// Whether `to` may stand adjacent to `from` in direction `dir`.
    pub fn is_allowed(&self, from: TileId, to: TileId, dir: CardinalDirs) -> (r: bool)
        requires
            from < self.len_spec(),
        ensures
            r == self.allows(from, to, dir),
    {
        let td = &self.table[from];
        match dir {
            CardinalDirs::Up => ids_contain(&td.up, to),
            CardinalDirs::Left => ids_contain(&td.left, to),
            CardinalDirs::Down => ids_contain(&td.down, to),
            CardinalDirs::Right => ids_contain(&td.right, to),
        }
    }

    /// The tiles allowed adjacent to `from` in direction `dir`.  Looking up an
    /// unregistered tile is a data error, ruled out by the precondition.
    pub fn enabled_by(&self, from: TileId, dir: CardinalDirs) -> (r: Vec<TileId>)
        requires
            from < self.len_spec(),
        ensures
            r@ == self.allowed_seq(from, dir),
    {
        let td = &self.table[from];
        let src: &Vec<TileId> = match dir {
            CardinalDirs::Up => &td.up,
            CardinalDirs::Left => &td.left,
            CardinalDirs::Down => &td.down,
            CardinalDirs::Right => &td.right,
        };
        let mut r: Vec<TileId> = Vec::new();
        let mut i: usize = 0;
        while i < src.len()
            invariant
                i <= src@.len(),
                r@ == src@.subrange(0, i as int),
            decreases src@.len() - i,
        {
            r.push(src[i]);
            proof {
                assert(r@ =~= src@.subrange(0, i + 1));
            }
            i = i + 1;
        }
        proof {
            assert(r@ =~= src@);
        }
        r
    }

    /// As `enabled_by`, but total: `None` for an unregistered tile.
    pub fn maybe_enabled_by(&self, from: TileId, dir: CardinalDirs) -> (r: Option<Vec<TileId>>)
        ensures
            r is Some <==> from < self.len_spec(),
            r matches Some(v) ==> v@ == self.allowed_seq(from, dir),
    {
        if from < self.table.len() {
            Some(self.enabled_by(from, dir))
        } else {
            None
        }
    }

    /// How many tiles enable `from` in each direction, indexed by
    /// `CardinalDirs::index`.  Used when building a fresh `EnablerDict`.
    pub fn enabled_by_count(&self, from: TileId) -> (r: [usize; 4])
        requires
            from < self.len_spec(),
        ensures
            forall|d: CardinalDirs| #[trigger] r[d.index_spec()] == self.allowed_seq(from, d).len(),
    {
        let td = &self.table[from];
        let r = [td.up.len(), td.left.len(), td.down.len(), td.right.len()];
        assert forall|d: CardinalDirs| #[trigger] r[d.index_spec()] == self.allowed_seq(
            from,
            d,
        ).len() by {
            match d {
                CardinalDirs::Up => {},
                CardinalDirs::Left => {},
                CardinalDirs::Down => {},
                CardinalDirs::Right => {},
            }
        }
        r
    }

    /// Whether `to` may stand next to `from` in every direction.
    pub fn allowed_in_all_dirs(&self, from: TileId, to: TileId) -> (r: bool)
        requires
            from < self.len_spec(),
        ensures
            r == (self.allows(from, to, CardinalDirs::Up) && self.allows(from, to, CardinalDirs::Left)
                && self.allows(from, to, CardinalDirs::Down) && self.allows(
                from,
                to,
                CardinalDirs::Right,
            )),
    {
        self.is_allowed(from, to, CardinalDirs::Up) && self.is_allowed(from, to, CardinalDirs::Left)
            && self.is_allowed(from, to, CardinalDirs::Down) && self.is_allowed(
            from,
            to,
            CardinalDirs::Right,
        )
    }
}

impl Clone for AdjacencyRules {
    fn clone(&self) -> (r: Self)
        ensures
            r.len_spec() == self.len_spec(),
            forall|a: TileId, d: CardinalDirs|
                a < self.len_spec() ==> #[trigger] r.allowed_seq(a, d) == self.allowed_seq(a, d),
            forall|a: TileId, b: TileId, d: CardinalDirs| #[trigger] r.allows(a, b, d)
                == self.allows(a, b, d),
            self.wf() ==> r.wf(),
            self.symmetric() ==> r.symmetric(),
    {
        let mut table: Vec<TileDirs> = Vec::new();
        let mut i: usize = 0;
        while i < self.table.len()
            invariant
                i <= self.table@.len(),
                table@.len() == i,
                forall|a: int, d: CardinalDirs|
                    0 <= a < i ==> (#[trigger] table@[a].get_spec(d)) == self.table@[a].get_spec(
                        d,
                    ),
            decreases self.table@.len() - i,
        {
            let src = &self.table[i];
            let td = TileDirs {
                up: clone_ids(&src.up),
                left: clone_ids(&src.left),
                down: clone_ids(&src.down),
                right: clone_ids(&src.right),
            };
            proof {
                assert forall|d: CardinalDirs| (#[trigger] td.get_spec(d)) == self.table@[i as int].get_spec(
                    d,
                ) by {
                    match d {
                        CardinalDirs::Up => {},
                        CardinalDirs::Left => {},
                        CardinalDirs::Down => {},
                        CardinalDirs::Right => {},
                    }
                }
            }
            table.push(td);
            i = i + 1;
        }
        let r = AdjacencyRules { table };
        proof {
            assert forall|a: TileId, d: CardinalDirs|
                a < self.len_spec() implies #[trigger] r.allowed_seq(a, d) == self.allowed_seq(
                a,
                d,
            ) by {
                assert(r.table@[a as int].get_spec(d) == self.table@[a as int].get_spec(d));
            }
            assert forall|a: TileId, b: TileId, d: CardinalDirs| #[trigger] r.allows(a, b, d)
                == self.allows(a, b, d) by {
                if a < self.len_spec() {
                    assert(r.allowed_seq(a, d) == self.allowed_seq(a, d));
                }
            }
            if self.wf() {
                assert forall|from: int, d: CardinalDirs|
                    0 <= from < r.table@.len() implies (#[trigger] r.table@[from].get_spec(
                    d,
                )).no_duplicates() && forall|k: int|
                    0 <= k < r.table@[from].get_spec(d).len() ==> r.table@[from].get_spec(d)[k]
                        < r.table@.len() by {
                    assert(r.table@[from].get_spec(d) == self.table@[from].get_spec(d));
                }
            }
        }
        r
    }
}

/// Copies a list of tile ids.
fn clone_ids(v: &Vec<TileId>) -> (r: Vec<TileId>)
    ensures
        r@ == v@,
{
    let mut r: Vec<TileId> = Vec::new();
    let mut i: usize = 0;
    while i < v.len()
        invariant
            i <= v@.len(),
            r@ == v@.subrange(0, i as int),
        decreases v@.len() - i,
    {
        r.push(v[i]);
        proof {
            assert(r@ =~= v@.subrange(0, i + 1));
        }
        i = i + 1;
    }
    proof {
        assert(r@ =~= v@);
    }
    r
}

/// How many still-possible neighbour tiles enable one tile, per direction.
#[derive(Copy, Debug, PartialEq, Eq, Structural)]
pub struct EnablerCounts {
    pub up: usize,
    pub left: usize,
    pub down: usize,
    pub right: usize,
}

impl Clone for EnablerCounts {
    fn clone(&self) -> (r: Self)
        ensures
            r == *self,
    {
        EnablerCounts { up: self.up, left: self.left, down: self.down, right: self.right }
    }
}

impl EnablerCounts {
    /// The counter for one direction.
    pub open spec fn get_spec(self, dir: CardinalDirs) -> int {
        match dir {
            CardinalDirs::Up => self.up as int,
            CardinalDirs::Left => self.left as int,
            CardinalDirs::Down => self.down as int,
            CardinalDirs::Right => self.right as int,
        }
    }

    /// Reads the counter for one direction.
    pub fn get(&self, dir: CardinalDirs) -> (r: usize)
        ensures
            r == self.get_spec(dir),
    {
        match dir {
            CardinalDirs::Up => self.up,
            CardinalDirs::Left => self.left,
            CardinalDirs::Down => self.down,
            CardinalDirs::Right => self.right,
        }
    }

    /// The counts with one direction's counter decremented.
    fn dec(self, dir: CardinalDirs) -> (r: Self)
        requires
            self.get_spec(dir) >= 1,
        ensures
            r.get_spec(dir) == self.get_spec(dir) - 1,
            forall|d: CardinalDirs| d != dir ==> #[trigger] r.get_spec(d) == self.get_spec(d),
    {
        let r = match dir {
            CardinalDirs::Up => EnablerCounts { up: self.up - 1, ..self },
            CardinalDirs::Left => EnablerCounts { left: self.left - 1, ..self },
            CardinalDirs::Down => EnablerCounts { down: self.down - 1, ..self },
            CardinalDirs::Right => EnablerCounts { right: self.right - 1, ..self },
        };
        assert forall|d: CardinalDirs| d != dir implies #[trigger] r.get_spec(d) == self.get_spec(
            d,
        ) by {
            match d {
                CardinalDirs::Up => {},
                CardinalDirs::Left => {},
                CardinalDirs::Down => {},
                CardinalDirs::Right => {},
            }
        }
        r
    }
}

/// Number of `Some` slots among the first `n` entries.
spec fn count_some(s: Seq<Option<EnablerCounts>>, n: int) -> int
    decreases n,
{
    if n <= 0 {
        0
    } else {
        count_some(s, n - 1) + if s[n - 1] is Some {
            1int
        } else {
            0int
        }
    }
}

proof fn lemma_count_some_congruent(s1: Seq<Option<EnablerCounts>>, s2: Seq<Option<EnablerCounts>>, n: int)
    requires
        forall|i: int| 0 <= i < n ==> ((#[trigger] s1[i]) is Some <==> s2[i] is Some),
    ensures
        count_some(s1, n) == count_some(s2, n),
    decreases n,
{
    if n > 0 {
        lemma_count_some_congruent(s1, s2, n - 1);
    }
}

proof fn lemma_count_some_update(s: Seq<Option<EnablerCounts>>, j: int, v: Option<EnablerCounts>, n: int)
    requires
        0 <= j < s.len(),
        n <= s.len(),
    ensures
        count_some(s.update(j, v), n) == count_some(s, n) + if j < n {
            (if v is Some { 1int } else { 0int }) - (if s[j] is Some { 1int } else { 0int })
        } else {
            0int
        },
    decreases n,
{
    if n > 0 {
        lemma_count_some_update(s, j, v, n - 1);
    }
}

proof fn lemma_count_some_bounds(s: Seq<Option<EnablerCounts>>, n: int)
    requires
        0 <= n <= s.len(),
    ensures
        0 <= count_some(s, n) <= n,
    decreases n,
{
    if n > 0 {
        lemma_count_some_bounds(s, n - 1);
    }
}

proof fn lemma_count_some_all(s: Seq<Option<EnablerCounts>>, n: int)
    requires
        forall|i: int| 0 <= i < n ==> (#[trigger] s[i]) is Some,
    ensures
        count_some(s, n) == if n >= 0 {
            n
        } else {
            0int
        },
    decreases n,
{
    if n > 0 {
        lemma_count_some_all(s, n - 1);
    }
}

proof fn lemma_count_some_singleton(s: Seq<Option<EnablerCounts>>, n: int, t: int)
    requires
        0 <= t < n,
        forall|i: int| 0 <= i < n ==> ((#[trigger] s[i]) is Some <==> i == t),
    ensures
        count_some(s, n) == 1,
    decreases n,
{
    if t == n - 1 {
        lemma_count_some_none(s, n - 1);
    } else {
        lemma_count_some_singleton(s, n - 1, t);
    }
}

proof fn lemma_count_some_none(s: Seq<Option<EnablerCounts>>, n: int)
    requires
        forall|i: int| 0 <= i < n ==> (#[trigger] s[i]) is None,
    ensures
        count_some(s, n) == 0,
    decreases n,
{
    if n > 0 {
        lemma_count_some_none(s, n - 1);
    }
}

/// Per-cell arc-consistency state: for every tile still possible in this
/// cell, a counter per direction of how many compatible neighbour tiles
/// remain.  `None` means the tile is no longer possible here.
pub struct EnablerDict {
    enablers: Vec<Option<EnablerCounts>>,
}

impl Clone for EnablerDict {
    fn clone(&self) -> (r: Self)
        ensures
            r.len_spec() == self.len_spec(),
            forall|t: TileId| #[trigger] r.allowed(t) <==> self.allowed(t),
            forall|t: TileId, d: CardinalDirs| #[trigger] r.count_spec(t, d) == self.count_spec(
                t,
                d,
            ),
            r.allowed_count() == self.allowed_count(),
    {
        let enablers = self.enablers.clone();
        proof {
            assert forall|i: int| 0 <= i < self.enablers@.len() implies enablers@[i]
                == self.enablers@[i] by {
                assert(cloned::<Option<EnablerCounts>>(self.enablers[i], enablers[i]));
            }
            assert(enablers@ =~= self.enablers@);
        }
        EnablerDict { enablers }
    }
}

impl EnablerDict {
    /// Number of tiles tracked (possible or not).
    pub closed spec fn len_spec(&self) -> nat {
        self.enablers@.len()
    }

    /// Whether the slot of tile `t` still holds counters; prefer `allowed`.
    pub closed spec fn slot_some(&self, t: TileId) -> bool {
        self.enablers@[t as int] is Some
    }

    /// Whether tile `t` is still possible in this cell.
    pub open spec fn allowed(&self, t: TileId) -> bool {
        t < self.len_spec() && self.slot_some(t)
    }

    /// The enabler counter of a still-possible tile in one direction.
    pub closed spec fn count_spec(&self, t: TileId, dir: CardinalDirs) -> int {
        match self.enablers@[t as int] {
            Some(c) => c.get_spec(dir),
            None => 0,
        }
    }

    /// How many tiles are still possible in this cell.
    pub closed spec fn allowed_count(&self) -> int {
        count_some(self.enablers@, self.enablers@.len() as int)
    }

    /// Whether exactly the tile `t` is still possible.
    pub open spec fn singleton_spec(&self, t: TileId) -> bool {
        self.allowed(t) && forall|o: TileId| o != t ==> !self.allowed(o)
    }

    /// The number of possible tiles is bounded by the number of tiles.
    pub proof fn lemma_allowed_count_bounds(&self)
        ensures
            0 <= self.allowed_count() <= self.len_spec(),
    {
        lemma_count_some_bounds(self.enablers@, self.enablers@.len() as int);
    }

    /// Number of tiles tracked.
    pub fn len(&self) -> (r: usize)
        ensures
            r == self.len_spec(),
    {
        self.enablers.len()
    }

    /// The per-direction counters of one tile, `None` if it is impossible.
    pub fn get(&self, id: TileId) -> (r: Option<EnablerCounts>)
        requires
            id < self.len_spec(),
        ensures
            r is Some <==> self.allowed(id),
            r matches Some(c) ==> forall|d: CardinalDirs| #[trigger] c.get_spec(d)
                == self.count_spec(id, d),
    {
        self.enablers[id]
    }

    /// A fresh dictionary in which every tile of the rule table is possible,
    /// with counters equal to the number of tiles enabling it per direction.
    pub fn new(adjacency_rules: &AdjacencyRules) -> (r: EnablerDict)
        requires
            adjacency_rules.wf(),
        ensures
            r.len_spec() == adjacency_rules.len_spec(),
            forall|t: TileId| t < r.len_spec() ==> #[trigger] r.allowed(t),
            forall|t: TileId, d: CardinalDirs|
                t < r.len_spec() ==> #[trigger] r.count_spec(t, d) == adjacency_rules.allowed_seq(
                    t,
                    d,
                ).len(),
            r.allowed_count() == r.len_spec(),
    {
        let len = adjacency_rules.len();
        let mut enablers: Vec<Option<EnablerCounts>> = Vec::new();
        let mut id: usize = 0;
        while id < len
            invariant
                adjacency_rules.wf(),
                len == adjacency_rules.len_spec(),
                id <= len,
                enablers@.len() == id,
                forall|t: int| 0 <= t < id ==> (#[trigger] enablers@[t]) is Some,
                forall|t: TileId, d: CardinalDirs|
                    t < id ==> #[trigger] enablers@[t as int].unwrap().get_spec(d)
                        == adjacency_rules.allowed_seq(t, d).len(),
            decreases len - id,
        {
            let counts = adjacency_rules.enabled_by_count(id);
            let c = EnablerCounts {
                up: counts[0],
                left: counts[1],
                down: counts[2],
                right: counts[3],
            };
            proof {
                assert forall|d: CardinalDirs| #[trigger] c.get_spec(d)
                    == adjacency_rules.allowed_seq(id, d).len() by {
                    assert(counts[d.index_spec()] == adjacency_rules.allowed_seq(id, d).len());
                    match d {
                        CardinalDirs::Up => {},
                        CardinalDirs::Left => {},
                        CardinalDirs::Down => {},
                        CardinalDirs::Right => {},
                    }
                }
            }
            enablers.push(Some(c));
            id = id + 1;
        }
        let r = EnablerDict { enablers };
        proof {
            lemma_count_some_all(r.enablers@, r.enablers@.len() as int);
        }
        r
    }

    /// The ids of the tiles still possible in this cell, in increasing order.
    pub fn allowed_tile_ids(&self) -> (r: Vec<TileId>)
        ensures
            r@.no_duplicates(),
            forall|k: int, l: int| 0 <= k < l < r@.len() ==> r@[k] < r@[l],
            forall|t: TileId| r@.contains(t) <==> self.allowed(t),
            r@.len() == self.allowed_count(),
            forall|k: int| 0 <= k < r@.len() ==> self.allowed(#[trigger] r@[k]),
    {
        let mut r: Vec<TileId> = Vec::new();
        let mut id: usize = 0;
        while id < self.enablers.len()
            invariant
                id <= self.enablers@.len(),
                forall|k: int, l: int| 0 <= k < l < r@.len() ==> r@[k] < r@[l],
                forall|k: int| 0 <= k < r@.len() ==> r@[k] < id && self.allowed(#[trigger] r@[k]),
                forall|t: TileId| t < id && self.allowed(t) ==> r@.contains(t),
                r@.len() == count_some(self.enablers@, id as int),
            decreases self.enablers@.len() - id,
        {
            if self.enablers[id].is_some() {
                let ghost old_r = r@;
                r.push(id);
                proof {
                    assert forall|t: TileId| t < id + 1 && self.allowed(t) implies r@.contains(
                        t,
                    ) by {
                        if t < id {
                            let k = choose|k: int| 0 <= k < old_r.len() && old_r[k] == t;
                            assert(r@[k] == t);
                        } else {
                            assert(r@[old_r.len() as int] == t);
                        }
                    }
                }
            }
            id = id + 1;
        }
        proof {
            assert forall|k: int, l: int| 0 <= k < l < r@.len() implies r@[k] != r@[l] by {}
            assert(r@.no_duplicates());
            assert forall|t: TileId| r@.contains(t) implies self.allowed(t) by {
                let k = choose|k: int| 0 <= k < r@.len() && r@[k] == t;
            }
        }
        r
    }

    /// Whether processing the removal of an enabler (whose enabled list is
    /// `s`, with the counter direction `od`) makes tile `t` newly impossible:
    /// `t` is enabled by the removed tile, still possible here, and down to
    /// its last enabler in that direction.
    pub open spec fn newly_impossible(&self, s: Seq<TileId>, t: TileId, od: CardinalDirs) -> bool {
        s.contains(t) && self.allowed(t) && self.count_spec(t, od) == 1
    }

    /// How one removal step rewrites the dictionary: every still-possible
    /// tile of `s` has its `od` counter decremented, the ones that reach
    /// zero become impossible, everything else keeps its slot.  (The counter
    /// of an impossible tile reads as zero.)
    pub open spec fn decremented(pre: EnablerDict, post: EnablerDict, s: Seq<TileId>, od: CardinalDirs) -> bool {
        &&& post.len_spec() == pre.len_spec()
        &&& forall|t: TileId|
            #[trigger] post.allowed(t) <==> pre.allowed(t) && !(s.contains(t) && pre.count_spec(
                t,
                od,
            ) == 1)
        &&& forall|t: TileId, d: CardinalDirs|
            t < pre.len_spec() ==> #[trigger] post.count_spec(t, d) == if !post.allowed(t) {
                0int
            } else if s.contains(t) && d == od {
                pre.count_spec(t, d) - 1
            } else {
                pre.count_spec(t, d)
            }
    }

    /// Whether some tile of `s` is still possible here although its enabler
    /// counter towards `od` is already zero: a logic-level contradiction.
    pub open spec fn has_zero_count_clash(&self, s: Seq<TileId>, od: CardinalDirs) -> bool {
        exists|t: TileId|
            #![auto]
            s.contains(t) && self.allowed(t) && self.count_spec(t, od) == 0
    }

    /// The core arc-consistency step.  `removed_enabler` has just become
    /// impossible in the neighbour in direction `dir` from this cell; for
    /// every tile it would have enabled towards us, decrement our counter
    /// pointing back at that neighbour.  Tiles whose counter reaches zero
    /// become impossible and are returned.  Finding a counter already at
    /// zero for a still-possible tile is a contradiction; it is reported
    /// with the dictionary unchanged.
    pub fn remove_single(
        &mut self,
        removed_enabler: TileId,
        dir: CardinalDirs,
        adjacency_rules: &AdjacencyRules,
    ) -> (r: Result<Option<Vec<TileId>>, Contradiction>)
        requires
            adjacency_rules.wf(),
            removed_enabler < adjacency_rules.len_spec(),
            old(self).len_spec() == adjacency_rules.len_spec(),
        ensures
            ({
                let s = adjacency_rules.allowed_seq(removed_enabler, dir);
                let od = dir.opp();
                &&& (r is Err ==> *final(self) == *old(self) && old(self).has_zero_count_clash(
                    s,
                    od,
                ))
                &&& (r is Ok ==> {
                    &&& (forall|t: TileId|
                        #![auto]
                        s.contains(t) && old(self).allowed(t) ==> old(self).count_spec(t, od) >= 1)
                    &&& EnablerDict::decremented(*old(self), *final(self), s, od)
                    &&& forall|t: TileId| #[trigger] final(self).allowed(t) ==> old(self).allowed(t)
                })
                &&& (r matches Ok(removed) ==> match removed {
                    None => {
                        &&& forall|t: TileId|
                            !#[trigger] old(self).newly_impossible(s, t, od)
                        &&& final(self).allowed_count() == old(self).allowed_count()
                    },
                    Some(l) => {
                        &&& l@.no_duplicates()
                        &&& l@.len() > 0
                        &&& forall|t: TileId| #![auto]
                            l@.contains(t) <==> old(self).newly_impossible(s, t, od)
                        &&& final(self).allowed_count() == old(self).allowed_count() - l@.len()
                    },
                })
            }),
    {
        let enabled: Vec<TileId> = adjacency_rules.enabled_by(removed_enabler, dir);
        let ghost s = adjacency_rules.allowed_seq(removed_enabler, dir);
        let od = dir.opposite();
        proof {
            adjacency_rules.lemma_wf_bounds(removed_enabler, dir);
        }
        // First pass: a still-possible tile whose counter in `od` is already
        // zero is a contradiction; report it before touching anything.
        let mut i: usize = 0;
        while i < enabled.len()
            invariant
                enabled@ == s,
                s == adjacency_rules.allowed_seq(removed_enabler, dir),
                *old(self) == *self,
                od == dir.opp(),
                self.len_spec() == adjacency_rules.len_spec(),
                i <= s.len(),
                forall|k: int| 0 <= k < s.len() ==> #[trigger] s[k] < adjacency_rules.len_spec(),
                forall|k: int|
                    #![auto]
                    0 <= k < i ==> !(self.allowed(s[k]) && self.count_spec(s[k], od) == 0),
            decreases enabled@.len() - i,
        {
            let t = enabled[i];
            match self.enablers[t] {
                Some(c) => {
                    if c.get(od) == 0 {
                        proof {
                            assert(s.contains(s[i as int]));
                            assert(s.contains(t) && old(self).allowed(t) && old(self).count_spec(
                                t,
                                dir.opp(),
                            ) == 0);
                            assert(old(self).has_zero_count_clash(s, dir.opp()));
                        }
                        return Err(Contradiction);
                    }
                },
                None => {},
            }
            i = i + 1;
        }
        proof {
            assert forall|t: TileId| s.contains(t) && old(self).allowed(t) implies old(
                self,
            ).count_spec(t, od) >= 1 by {
                let k = choose|k: int| 0 <= k < s.len() && s[k] == t;
            }
        }
        // Second pass: decrement, removing the tiles whose counter hits zero.
        let mut removed: Vec<TileId> = Vec::new();
        let mut i: usize = 0;
        while i < enabled.len()
            invariant
                enabled@ == s,
                od == dir.opp(),
                s.no_duplicates(),
                self.len_spec() == old(self).len_spec(),
                self.len_spec() == adjacency_rules.len_spec(),
                i <= s.len(),
                forall|k: int| 0 <= k < s.len() ==> #[trigger] s[k] < adjacency_rules.len_spec(),
                forall|t: TileId|
                    #![auto]
                    s.contains(t) && old(self).allowed(t) ==> old(self).count_spec(t, od) >= 1,
                EnablerDict::decremented(*old(self), *self, s.subrange(0, i as int), od),
                removed@.no_duplicates(),
                forall|t: TileId|
                    #![auto]
                    removed@.contains(t) <==> old(self).newly_impossible(
                        s.subrange(0, i as int),
                        t,
                        od,
                    ),
                self.allowed_count() == old(self).allowed_count() - removed@.len(),
            decreases enabled@.len() - i,
        {
            let ghost head: EnablerDict = *self;
            let ghost prefix = s.subrange(0, i as int);
            let ghost prefix1 = s.subrange(0, i + 1);
            let ghost rem0 = removed@;
            let t = enabled[i];
            proof {
                assert(s[i as int] == t);
                assert(s.contains(t));
                assert(prefix1[i as int] == t);
                assert(prefix1.contains(t));
                // `t` was not processed before: the prefix cannot hold it.
                assert(!prefix.contains(t)) by {
                    if prefix.contains(t) {
                        let k = choose|k: int| 0 <= k < prefix.len() && prefix[k] == t;
                        assert(s[k] == t);
                    }
                }
                assert forall|x: TileId| x != t implies (prefix1.contains(x) <==> prefix.contains(
                    x,
                )) by {
                    if prefix1.contains(x) {
                        let k = choose|k: int| 0 <= k < prefix1.len() && prefix1[k] == x;
                        if k < i {
                            assert(prefix[k] == x);
                        }
                    }
                    if prefix.contains(x) {
                        let k = choose|k: int| 0 <= k < prefix.len() && prefix[k] == x;
                        assert(prefix1[k] == x);
                    }
                }
                // An untouched slot still shows the counters it started with.
                assert(head.allowed(t) <==> old(self).allowed(t));
                assert forall|d: CardinalDirs| #[trigger] head.count_spec(t, d) == old(
                    self,
                ).count_spec(t, d) by {
                    if !head.allowed(t) {
                        assert(!old(self).allowed(t));
                    }
                }
            }
            match self.enablers[t] {
                Some(c) => {
                    let cv = c.get(od);
                    proof {
                        assert(head.allowed(t));
                        assert(head.count_spec(t, od) == c.get_spec(od));
                        assert(cv == old(self).count_spec(t, od));
                        assert(cv >= 1);
                    }
                    if cv == 1 {
                        self.enablers.set(t, None);
                        removed.push(t);
                        proof {
                            lemma_count_some_update(
                                head.enablers@,
                                t as int,
                                None,
                                head.enablers@.len() as int,
                            );
                            assert(old(self).newly_impossible(prefix1, t, od));
                            assert(!rem0.contains(t));
                            assert forall|a: int, b: int|
                                0 <= a < b < removed@.len() implies removed@[a] != removed@[b] by {
                                if b < rem0.len() {
                                } else {
                                    assert(removed@[b] == t);
                                    assert(rem0.contains(rem0[a]));
                                }
                            }
                            assert(removed@.no_duplicates());
                            assert forall|x: TileId| #![auto]
                                removed@.contains(x) <==> old(self).newly_impossible(
                                prefix1,
                                x,
                                od,
                            ) by {
                                if removed@.contains(x) {
                                    let k = choose|k: int|
                                        0 <= k < removed@.len() && removed@[k] == x;
                                    if k < rem0.len() {
                                        assert(rem0[k] == x);
                                        assert(rem0.contains(x));
                                    }
                                }
                                if rem0.contains(x) {
                                    let k = choose|k: int| 0 <= k < rem0.len() && rem0[k] == x;
                                    assert(removed@[k] == x);
                                }
                                if x == t {
                                    assert(removed@[rem0.len() as int] == t);
                                }
                            }
                        }
                    } else {
                        let c2 = c.dec(od);
                        self.enablers.set(t, Some(c2));
                        proof {
                            lemma_count_some_update(
                                head.enablers@,
                                t as int,
                                Some(c2),
                                head.enablers@.len() as int,
                            );
                            assert forall|x: TileId| #![auto]
                                removed@.contains(x) <==> old(self).newly_impossible(
                                prefix1,
                                x,
                                od,
                            ) by {
                                if x == t {
                                    assert(old(self).count_spec(t, od) != 1);
                                }
                            }
                        }
                    }
                },
                None => {
                    proof {
                        assert(!old(self).allowed(t));
                        assert forall|x: TileId| #![auto]
                            removed@.contains(x) <==> old(self).newly_impossible(
                            prefix1,
                            x,
                            od,
                        ) by {}
                    }
                },
            }
            proof {
                // Slots other than `t` kept their value this iteration.
                assert forall|x: TileId|
                    x != t && x < self.len_spec() implies self.enablers@[x as int]
                    == head.enablers@[x as int] by {}
                assert forall|x: TileId| #[trigger] self.allowed(x) <==> old(self).allowed(x) && !(
                    prefix1.contains(x) && old(self).count_spec(x, od) == 1) by {
                    if x != t {
                        assert(self.allowed(x) <==> head.allowed(x));
                        assert(prefix1.contains(x) <==> prefix.contains(x));
                    }
                }
                assert forall|x: TileId, d: CardinalDirs|
                    x < old(self).len_spec() implies #[trigger] self.count_spec(x, d)
                    == if !self.allowed(x) {
                    0int
                } else if prefix1.contains(x) && d == od {
                    old(self).count_spec(x, d) - 1
                } else {
                    old(self).count_spec(x, d)
                } by {
                    if x != t {
                        assert(self.count_spec(x, d) == head.count_spec(x, d));
                        assert(self.allowed(x) <==> head.allowed(x));
                        assert(prefix1.contains(x) <==> prefix.contains(x));
                    } else {
                        assert(head.count_spec(t, d) == old(self).count_spec(t, d));
                        assert(head.count_spec(t, od) == old(self).count_spec(t, od));
                    }
                }
            }
            i = i + 1;
        }
        proof {
            assert(s.subrange(0, s.len() as int) =~= s);
            assert forall|t: TileId| #[trigger] self.allowed(t) implies old(self).allowed(t) by {
                if s.contains(t) && old(self).allowed(t) {
                    if old(self).count_spec(t, od) == 1 {
                        assert(old(self).newly_impossible(s, t, od));
                    }
                }
            }
        }
        if removed.len() == 0 {
            proof {
                assert forall|t: TileId| !#[trigger] old(self).newly_impossible(s, t, od) by {
                    if old(self).newly_impossible(s, t, od) {
                        assert(removed@.contains(t));
                    }
                }
            }
            Ok(None)
        } else {
            Ok(Some(removed))
        }
    }

    /// Removes every possible tile except the lone `survivor`, returning the
    /// ids that were removed, in increasing order.  Asking to keep a tile
    /// that is already impossible is a contradiction, ruled out by the
    /// precondition.
    pub fn remove_all_but(&mut self, survivor: TileId) -> (removed: Vec<TileId>)
        requires
            old(self).allowed(survivor),
        ensures
            final(self).len_spec() == old(self).len_spec(),
            forall|t: TileId| #[trigger] final(self).allowed(t) <==> t == survivor,
            forall|d: CardinalDirs| #[trigger] final(self).count_spec(survivor, d) == old(
                self,
            ).count_spec(survivor, d),
            removed@.no_duplicates(),
            forall|k: int, l: int| 0 <= k < l < removed@.len() ==> removed@[k] < removed@[l],
            forall|t: TileId|
                #[trigger] removed@.contains(t) <==> (old(self).allowed(t) && t != survivor),
            removed@.len() == old(self).allowed_count() - 1,
            final(self).allowed_count() == 1,
            final(self).singleton_spec(survivor),
    {
        let mut removed: Vec<TileId> = Vec::new();
        let n = self.enablers.len();
        let mut id: usize = 0;
        while id < n
            invariant
                n == self.len_spec(),
                self.len_spec() == old(self).len_spec(),
                old(self).allowed(survivor),
                survivor < n,
                id <= n,
                forall|t: TileId|
                    t < id && t != survivor ==> !#[trigger] self.allowed(t),
                forall|t: TileId|
                    t < n && (id <= t || t == survivor) ==> #[trigger] self.enablers@[t as int]
                        == old(self).enablers@[t as int],
                removed@.no_duplicates(),
                forall|k: int, l: int| 0 <= k < l < removed@.len() ==> removed@[k] < removed@[l],
                forall|k: int| 0 <= k < removed@.len() ==> removed@[k] < id,
                forall|t: TileId|
                    #[trigger] removed@.contains(t) <==> (old(self).allowed(t) && t != survivor
                        && t < id),
                self.allowed_count() == old(self).allowed_count() - removed@.len(),
            decreases n - id,
        {
            let ghost head: EnablerDict = *self;
            let ghost rem0 = removed@;
            if id != survivor {
                match self.enablers[id] {
                    Some(_) => {
                        self.enablers.set(id, None);
                        removed.push(id);
                        proof {
                            lemma_count_some_update(
                                head.enablers@,
                                id as int,
                                None,
                                head.enablers@.len() as int,
                            );
                            assert(old(self).allowed(id));
                            assert forall|t: TileId| #[trigger] removed@.contains(t) implies (old(
                                self,
                            ).allowed(t) && t != survivor && t < id + 1) by {
                                let k = choose|k: int| 0 <= k < removed@.len() && removed@[k] == t;
                                if k < rem0.len() {
                                    assert(rem0[k] == t);
                                    assert(rem0.contains(t));
                                }
                            }
                            assert forall|t: TileId| (old(self).allowed(t) && t != survivor && t
                                < id + 1) implies #[trigger] removed@.contains(t) by {
                                if t < id {
                                    assert(rem0.contains(t));
                                    let k = choose|k: int| 0 <= k < rem0.len() && rem0[k] == t;
                                    assert(removed@[k] == t);
                                } else {
                                    assert(removed@[rem0.len() as int] == t);
                                }
                            }
                        }
                    },
                    None => {
                        proof {
                            assert(!old(self).allowed(id));
                        }
                    },
                }
            }
            proof {
                assert forall|t: TileId| t < id + 1 && t != survivor implies !#[trigger] self.allowed(
                    t,
                ) by {
                    if t < id {
                        assert(!head.allowed(t));
                        assert(self.enablers@[t as int] == head.enablers@[t as int]);
                    }
                }
                assert forall|t: TileId|
                    t < n && (id + 1 <= t || t == survivor) implies #[trigger] self.enablers@[t as int]
                    == old(self).enablers@[t as int] by {
                    assert(head.enablers@[t as int] == old(self).enablers@[t as int]);
                    assert(self.enablers@[t as int] == head.enablers@[t as int]);
                }
            }
            id = id + 1;
        }
        proof {
            assert forall|t: TileId| #[trigger] self.allowed(t) <==> t == survivor by {
                if t == survivor {
                    assert(self.enablers@[t as int] == old(self).enablers@[t as int]);
                }
            }
            assert forall|i: int|
                0 <= i < self.enablers@.len() implies ((#[trigger] self.enablers@[i]) is Some
                <==> i == survivor) by {
                let t: TileId = i as usize;
                assert(self.allowed(t) <==> t == survivor);
            }
            lemma_count_some_singleton(
                self.enablers@,
                self.enablers@.len() as int,
                survivor as int,
            );
            assert forall|d: CardinalDirs| #[trigger] self.count_spec(survivor, d) == old(
                self,
            ).count_spec(survivor, d) by {
                assert(self.enablers@[survivor as int] == old(self).enablers@[survivor as int]);
            }
        }
        removed
    }

    /// The ids of the tiles still possible in this cell.
    pub fn allowed_iter(&self) -> (r: Vec<TileId>)
        ensures
            r@.no_duplicates(),
            forall|t: TileId| r@.contains(t) <==> self.allowed(t),
            r@.len() == self.allowed_count(),
            forall|k: int| 0 <= k < r@.len() ==> self.allowed(#[trigger] r@[k]),
    {
        self.allowed_tile_ids()
    }

    /// One `Some` entry per still-possible tile, aligned with `other`.
    pub fn iter_allowed<T: Clone>(&self, other: &Vec<T>) -> (r: Vec<Option<T>>)
        requires
            self.len_spec() == other@.len(),
        ensures
            r@.len() == self.len_spec(),
            forall|k: int| 0 <= k < r@.len() ==> ((#[trigger] r@[k]) is Some <==> self.allowed(
                k as usize,
            )),
    {
        let mut r: Vec<Option<T>> = Vec::new();
        let mut id: usize = 0;
        while id < other.len()
            invariant
                self.len_spec() == other@.len(),
                id <= other@.len(),
                r@.len() == id,
                forall|k: int| 0 <= k < id ==> ((#[trigger] r@[k]) is Some <==> self.allowed(
                    k as usize,
                )),
            decreases other@.len() - id,
        {
            if self.enablers[id].is_some() {
                r.push(Some(other[id].clone()));
            } else {
                r.push(None);
            }
            id = id + 1;
        }
        r
    }

    /// The entries of `other` whose tile is still possible here.
    pub fn filter_allowed<T: Clone>(&self, other: &Vec<T>) -> (r: Vec<T>)
        requires
            self.len_spec() == other@.len(),
        ensures
            r@.len() == self.allowed_count(),
    {
        let mut r: Vec<T> = Vec::new();
        let mut id: usize = 0;
        while id < other.len()
            invariant
                self.len_spec() == other@.len(),
                id <= other@.len(),
                r@.len() == count_some(self.enablers@, id as int),
            decreases other@.len() - id,
        {
            if self.enablers[id].is_some() {
                r.push(other[id].clone());
            }
            id = id + 1;
        }
        r
    }

    /// The still-possible tile ids paired with their entries of `other`.
    pub fn filter_allowed_enumerate<T: Clone>(&self, other: &Vec<T>) -> (r: Vec<(TileId, T)>)
        requires
            self.len_spec() == other@.len(),
        ensures
            r@.len() == self.allowed_count(),
            forall|k: int| 0 <= k < r@.len() ==> self.allowed((#[trigger] r@[k]).0),
            forall|k: int, l: int| 0 <= k < l < r@.len() ==> r@[k].0 < r@[l].0,
            forall|t: TileId| self.allowed(t) ==> exists|k: int|
                0 <= k < r@.len() && (#[trigger] r@[k]).0 == t,
            forall|k: int|
                0 <= k < r@.len() ==> cloned::<T>(other@[(#[trigger] r@[k]).0 as int], r@[k].1),
    {
        let mut r: Vec<(TileId, T)> = Vec::new();
        let mut id: usize = 0;
        while id < other.len()
            invariant
                self.len_spec() == other@.len(),
                id <= other@.len(),
                r@.len() == count_some(self.enablers@, id as int),
                forall|k: int| 0 <= k < r@.len() ==> (#[trigger] r@[k]).0 < id && self.allowed(
                    r@[k].0,
                ),
                forall|k: int, l: int| 0 <= k < l < r@.len() ==> r@[k].0 < r@[l].0,
                forall|t: TileId| t < id && self.allowed(t) ==> exists|k: int|
                    0 <= k < r@.len() && (#[trigger] r@[k]).0 == t,
                forall|k: int|
                    0 <= k < r@.len() ==> cloned::<T>(other@[(#[trigger] r@[k]).0 as int], r@[k].1),
            decreases other@.len() - id,
        {
            if self.enablers[id].is_some() {
                let ghost r0 = r@;
                let c = other[id].clone();
                proof {
                    assert(cloned::<T>(other@[id as int], c));
                }
                r.push((id, c));
                proof {
                    assert(r@[r0.len() as int].0 == id);
                    assert forall|k: int|
                        0 <= k < r@.len() implies cloned::<T>(
                        other@[(#[trigger] r@[k]).0 as int],
                        r@[k].1,
                    ) by {
                        if k < r0.len() {
                            assert(r@[k] == r0[k]);
                        } else {
                            assert(r@[k] == (id, c));
                        }
                    }
                    assert forall|t: TileId| t < id + 1 && self.allowed(t) implies exists|k: int|
                        0 <= k < r@.len() && (#[trigger] r@[k]).0 == t by {
                        if t < id {
                            let k = choose|k: int| 0 <= k < r0.len() && (#[trigger] r0[k]).0 == t;
                            assert(r@[k].0 == t);
                        } else {
                            assert(r@[r0.len() as int].0 == t);
                        }
                    }
                }
            }
            id = id + 1;
        }
        r
    }
}

} // verus!
