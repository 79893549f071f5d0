//! Extraction of tiles, frequencies and adjacency rules from a source image:
//! the image is cut into tile-sized squares, duplicate squares share one
//! dense tile id, and every adjacent pair of squares registers an allowance
//! in the rule table.

use vstd::prelude::*;

use crate::adjacency_rules::{AdjacencyRules, CardinalDirs};
use crate::point::Loc;
use crate::tile::{IdMap, TileId};
use crate::wfc::{sum_counts, TOTAL_WEIGHT_MAX};

verus! {

broadcast use vstd::array::group_array_axioms;

/// The pixel data of one tile-sized square, row-major RGBA.
pub type Pattern = Vec<[u8; 4]>;

/// The same data; kept as a distinct alias mirroring the per-pixel view.
pub type RgbaPattern = Vec<[u8; 4]>;

/// The same data flattened to single bytes.
pub type U8Pattern = Vec<u8>;

/// A source image: RGBA pixels, row-major.
pub struct Image {
    pub width: usize,
    pub height: usize,
    pub pixels: Vec<[u8; 4]>,
}

impl Image {
    /// Well-formedness: one pixel per coordinate.
    pub open spec fn wf(&self) -> bool {
        &&& self.pixels@.len() == self.width * self.height
        &&& self.width * self.height <= TOTAL_WEIGHT_MAX
    }
}

impl Clone for Image {
    fn clone(&self) -> (r: Self)
        ensures
            r.width == self.width,
            r.height == self.height,
            r.pixels@ == self.pixels@,
            r.wf() == self.wf(),
    {
        let mut pixels: Vec<[u8; 4]> = Vec::new();
        let mut i: usize = 0;
        while i < self.pixels.len()
            invariant
                i <= self.pixels@.len(),
                pixels@ == self.pixels@.subrange(0, i as int),
            decreases self.pixels@.len() - i,
        {
            pixels.push(self.pixels[i]);
            proof {
                assert(pixels@ =~= self.pixels@.subrange(0, i + 1));
            }
            i = i + 1;
        }
        proof {
            assert(pixels@ =~= self.pixels@);
        }
        Image { width: self.width, height: self.height, pixels }
    }
}

/// The data a preprocessor hands to the solver.
pub struct WfcData {
    pub tile_frequencies: IdMap<usize>,
    pub adjacency_rules: AdjacencyRules,
    pub patterns: IdMap<Pattern>,
}

impl WfcData {
    /// Well-formedness: one positive frequency and one pattern per
    /// registered tile, with a bounded total weight.
    pub open spec fn wf(&self) -> bool {
        &&& self.adjacency_rules.wf()
        &&& self.tile_frequencies@.len() == self.adjacency_rules.len_spec()
        &&& self.patterns@.len() == self.adjacency_rules.len_spec()
        &&& forall|i: int|
            0 <= i < self.tile_frequencies@.len() ==> (#[trigger] self.tile_frequencies@[i]) >= 1
        &&& sum_counts(self.tile_frequencies@, self.tile_frequencies@.len() as int)
            <= TOTAL_WEIGHT_MAX
    }
}

/// Preprocessing options.
#[derive(Clone, Copy, Debug, PartialEq, Eq, Structural)]
pub struct ProcessorConfig {
    pub wrap: bool,
    pub wang: bool,
    pub wang_flip: bool,
}

impl Default for ProcessorConfig {
    fn default() -> (r: Self)
        ensures
            !r.wrap,
            !r.wang,
            !r.wang_flip,
    {
        ProcessorConfig { wrap: false, wang: false, wang_flip: false }
    }
}

/// The tile-sized square of `img` whose top-left corner is `loc`, as a
/// row-major pixel sequence.
pub open spec fn pattern_spec(img: Image, loc: Loc, ts: int) -> Seq<[u8; 4]> {
    Seq::new((ts * ts) as nat, |p: int| img.pixels@[(loc.y + p / ts) * img.width + (loc.x + p % ts)])
}

/// How many of the first `n` square-to-tile entries carry tile id `j`.
pub open spec fn count_id(s: Seq<(Loc, TileId)>, j: int, n: int) -> int
    decreases n,
{
    if n <= 0 {
        0
    } else {
        count_id(s, j, n - 1) + if s[n - 1].1 == j {
            1int
        } else {
            0int
        }
    }
}

proof fn lemma_count_id_congruent(s1: Seq<(Loc, TileId)>, s2: Seq<(Loc, TileId)>, j: int, n: int)
    requires
        forall|k: int| 0 <= k < n ==> (#[trigger] s1[k]).1 == s2[k].1,
    ensures
        count_id(s1, j, n) == count_id(s2, j, n),
    decreases n,
{
    if n > 0 {
        lemma_count_id_congruent(s1, s2, j, n - 1);
    }
}

proof fn lemma_count_id_none(s: Seq<(Loc, TileId)>, j: int, n: int)
    requires
        forall|k: int| 0 <= k < n ==> (#[trigger] s[k]).1 != j,
    ensures
        count_id(s, j, n) == 0,
    decreases n,
{
    if n > 0 {
        lemma_count_id_none(s, j, n - 1);
    }
}

/// Cuts the source image into tiles and derives the solver's input.
pub struct PreProcessor {
    pub image: Image,
    pub tile_size: usize,
    /// Processed locations paired with the tile id found there.
    pub tile_loc_map: Vec<(Loc, TileId)>,
    /// For each tile id, the corner of the square it was first seen at.
    pub tiles: IdMap<Loc>,
    pub pattern_ids: Vec<Pattern>,
    pub config: ProcessorConfig,
}

/// Finds a pattern in a list, by pixel equality.
fn find_pattern(patterns: &Vec<Pattern>, pattern: &Pattern) -> (r: Option<usize>)
    ensures
        r matches Some(id) ==> id < patterns@.len() && patterns@[id as int]@ =~= pattern@,
        r is None ==> forall|k: int| 0 <= k < patterns@.len() ==> !((#[trigger] patterns@[k])@
            =~= pattern@),
{
    let mut id: usize = 0;
    while id < patterns.len()
        invariant
            id <= patterns@.len(),
            forall|k: int| 0 <= k < id ==> !((#[trigger] patterns@[k])@ =~= pattern@),
        decreases patterns@.len() - id,
    {
        if pattern_eq(&patterns[id], pattern) {
            return Some(id);
        }
        id = id + 1;
    }
    None
}

/// Copies a list of patterns.
fn clone_patterns(patterns: &Vec<Pattern>) -> (r: Vec<Pattern>)
    ensures
        r@.len() == patterns@.len(),
        forall|k: int| 0 <= k < r@.len() ==> (#[trigger] r@[k])@ == patterns@[k]@,
{
    let mut r: Vec<Pattern> = Vec::new();
    let mut i: usize = 0;
    while i < patterns.len()
        invariant
            i <= patterns@.len(),
            r@.len() == i,
            forall|k: int| 0 <= k < i ==> (#[trigger] r@[k])@ == patterns@[k]@,
        decreases patterns@.len() - i,
    {
        let src = &patterns[i];
        let mut p: Pattern = Vec::new();
        let mut j: usize = 0;
        while j < src.len()
            invariant
                j <= src@.len(),
                p@ == src@.subrange(0, j as int),
            decreases src@.len() - j,
        {
            p.push(src[j]);
            proof {
                assert(p@ =~= src@.subrange(0, j + 1));
            }
            j = j + 1;
        }
        proof {
            assert(p@ =~= src@);
        }
        r.push(p);
        i = i + 1;
    }
    r
}

/// Compares two patterns pixel by pixel.
fn pattern_eq(a: &Pattern, b: &Pattern) -> (r: bool)
    ensures
        r == (a@ =~= b@),
{
    if a.len() != b.len() {
        return false;
    }
    let mut i: usize = 0;
    while i < a.len()
        invariant
            a@.len() == b@.len(),
            i <= a@.len(),
            forall|k: int| 0 <= k < i ==> a@[k] == b@[k],
        decreases a@.len() - i,
    {
        let pa = a[i];
        let pb = b[i];
        if pa[0] != pb[0] || pa[1] != pb[1] || pa[2] != pb[2] || pa[3] != pb[3] {
            proof {
                assert(a@[i as int] != b@[i as int]) by {
                    if a@[i as int] == b@[i as int] {
                        assert(pa == pb);
                    }
                }
                assert(!(a@ =~= b@));
            }
            return false;
        }
        proof {
            assert forall|c: int| 0 <= c < 4 implies pa[c] == pb[c] by {
                if c == 0 {
                } else if c == 1 {
                } else if c == 2 {
                } else {
                }
            }
            assert(pa =~= pb);
            assert(a@[i as int] == b@[i as int]);
        }
        i = i + 1;
    }
    proof {
        assert(a@ =~= b@);
    }
    true
}

impl PreProcessor {
    /// A preprocessor over one image with a given square tile size.
    pub fn new(image: Image, tile_size: usize, config: ProcessorConfig) -> (r: PreProcessor)
        requires
            tile_size >= 1,
        ensures
            r.image == image,
            r.tile_size == tile_size,
            r.config == config,
            r.tile_loc_map@.len() == 0,
            r.tiles@.len() == 0,
    {
        PreProcessor {
            image,
            tile_size,
            tile_loc_map: Vec::new(),
            tiles: Vec::new(),
            pattern_ids: Vec::new(),
            config,
        }
    }

    /// Number of distinct tiles found so far.
    pub fn num_tiles(&self) -> (r: usize)
        ensures
            r == self.tiles@.len(),
    {
        self.tiles.len()
    }

    /// The tile ids found so far, dense from zero.
    pub fn tile_ids(&self) -> (r: Vec<TileId>)
        ensures
            r@.len() == self.tiles@.len(),
            forall|k: int| 0 <= k < r@.len() ==> (#[trigger] r@[k]) == k,
    {
        let mut r: Vec<TileId> = Vec::new();
        let mut i: usize = 0;
        while i < self.tiles.len()
            invariant
                i <= self.tiles@.len(),
                r@.len() == i,
                forall|k: int| 0 <= k < i ==> (#[trigger] r@[k]) == k,
            decreases self.tiles@.len() - i,
        {
            r.push(i);
            i = i + 1;
        }
        r
    }

    /// Number of whole tile columns in the image.
    pub open spec fn ncols_spec(&self) -> int {
        self.image.width as int / self.tile_size as int
    }

    /// Number of whole tile rows in the image.
    pub open spec fn nrows_spec(&self) -> int {
        self.image.height as int / self.tile_size as int
    }

    /// The corners of the tile-sized squares, in column-major order (edges
    /// that do not fit a whole tile are trimmed).
    pub fn tile_locs(&self) -> (r: Vec<Loc>)
        requires
            self.tile_size >= 1,
            self.image.width * self.image.height <= usize::MAX,
        ensures
            r@.len() == self.ncols_spec() * self.nrows_spec(),
            forall|k: int|
                0 <= k < r@.len() ==> (#[trigger] r@[k]) == (Loc {
                    x: ((k / self.nrows_spec()) * self.tile_size) as usize,
                    y: ((k % self.nrows_spec()) * self.tile_size) as usize,
                }),
    {
        let ts = self.tile_size;
        let ncols = self.image.width / ts;
        let nrows = self.image.height / ts;
        proof {
            assert(ncols * nrows <= self.image.width * self.image.height) by (nonlinear_arith)
                requires
                    0 <= ncols <= self.image.width,
                    0 <= nrows <= self.image.height,
            ;
            vstd::arithmetic::div_mod::lemma_div_is_ordered_by_denominator(
                self.image.width as int,
                1,
                ts as int,
            );
            vstd::arithmetic::div_mod::lemma_div_is_ordered_by_denominator(
                self.image.height as int,
                1,
                ts as int,
            );
        }
        let mut r: Vec<Loc> = Vec::new();
        if nrows == 0 {
            proof {
                assert(ncols * nrows == 0) by (nonlinear_arith)
                    requires
                        nrows == 0,
                ;
            }
            return r;
        }
        let mut cx: usize = 0;
        while cx < ncols
            invariant
                0 < nrows,
                ts >= 1,
                ts == self.tile_size,
                ncols == self.ncols_spec(),
                nrows == self.nrows_spec(),
                ncols * nrows <= usize::MAX,
                ncols <= self.image.width,
                nrows <= self.image.height,
                self.image.width * self.image.height <= usize::MAX,
                cx <= ncols,
                r@.len() == cx * nrows,
                forall|k: int|
                    0 <= k < r@.len() ==> (#[trigger] r@[k]) == (Loc {
                        x: ((k / nrows as int) * ts) as usize,
                        y: ((k % nrows as int) * ts) as usize,
                    }),
            decreases ncols - cx,
        {
            proof {
                assert((cx + 1) * nrows <= ncols * nrows) by (nonlinear_arith)
                    requires
                        cx + 1 <= ncols,
                        nrows >= 0,
                ;
                assert(cx * nrows <= (cx + 1) * nrows && (cx + 1) * nrows == cx * nrows + nrows)
                    by (nonlinear_arith)
                    requires
                        nrows >= 0,
                ;
                assert((cx + 1) * ts <= ncols * ts) by (nonlinear_arith)
                    requires
                        cx + 1 <= ncols,
                        ts >= 0,
                ;
                vstd::arithmetic::div_mod::lemma_fundamental_div_mod(
                    self.image.width as int,
                    ts as int,
                );
                vstd::arithmetic::div_mod::lemma_mod_bound(self.image.width as int, ts as int);
                assert(ncols * ts <= self.image.width) by (nonlinear_arith)
                    requires
                        self.image.width as int == ts as int * (self.image.width as int / ts as int)
                            + self.image.width as int % ts as int,
                        self.image.width as int % ts as int >= 0,
                        ncols == self.image.width as int / ts as int,
                ;
                assert(self.image.width <= usize::MAX);
            }
            let mut cy: usize = 0;
            while cy < nrows
                invariant
                    0 < nrows,
                    ts >= 1,
                    ts == self.tile_size,
                    ncols == self.ncols_spec(),
                    nrows == self.nrows_spec(),
                    ncols * nrows <= usize::MAX,
                    nrows <= self.image.height,
                    self.image.width * self.image.height <= usize::MAX,
                    cx < ncols,
                    cy <= nrows,
                    (cx + 1) * nrows <= ncols * nrows,
                    cx * nrows + cy <= (cx + 1) * nrows,
                    (cx + 1) * ts <= self.image.width,
                    r@.len() == cx * nrows + cy,
                    forall|k: int|
                        0 <= k < r@.len() ==> (#[trigger] r@[k]) == (Loc {
                            x: ((k / nrows as int) * ts) as usize,
                            y: ((k % nrows as int) * ts) as usize,
                        }),
                decreases nrows - cy,
            {
                proof {
                    assert(cx * nrows + (cy + 1) <= (cx + 1) * nrows) by (nonlinear_arith)
                        requires
                            cy + 1 <= nrows,
                    ;
                    vstd::arithmetic::div_mod::lemma_fundamental_div_mod_converse(
                        (cx * nrows + cy) as int,
                        nrows as int,
                        cx as int,
                        cy as int,
                    );
                    assert((cy + 1) * ts <= nrows * ts) by (nonlinear_arith)
                        requires
                            cy + 1 <= nrows,
                            ts >= 0,
                    ;
                    vstd::arithmetic::div_mod::lemma_fundamental_div_mod(
                        self.image.height as int,
                        ts as int,
                    );
                    vstd::arithmetic::div_mod::lemma_mod_bound(
                        self.image.height as int,
                        ts as int,
                    );
                    assert(nrows * ts <= self.image.height) by (nonlinear_arith)
                        requires
                            self.image.height as int == ts as int * (self.image.height as int
                                / ts as int) + self.image.height as int % ts as int,
                            self.image.height as int % ts as int >= 0,
                            nrows == self.image.height as int / ts as int,
                    ;
                    assert(cx * ts <= (cx + 1) * ts && cy * ts <= (cy + 1) * ts)
                        by (nonlinear_arith)
                        requires
                            ts >= 0,
                    ;
                }
                r.push(Loc { x: cx * ts, y: cy * ts });
                cy = cy + 1;
            }
            proof {
                assert((cx + 1) * nrows == cx * nrows + nrows) by (nonlinear_arith);
            }
            cx = cx + 1;
        }
        r
    }

    /// The pattern of the tile-sized square whose corner is `loc`.
    pub fn rgba_arr_pattern_at(&self, loc: Loc) -> (r: Pattern)
        requires
            self.image.wf(),
            self.tile_size >= 1,
            loc.x + self.tile_size <= self.image.width,
            loc.y + self.tile_size <= self.image.height,
        ensures
            r@ == pattern_spec(self.image, loc, self.tile_size as int),
            r@.len() == self.tile_size * self.tile_size,
    {
        let ts = self.tile_size;
        proof {
            assert(ts * ts >= 0) by (nonlinear_arith);
        }
        let mut r: Pattern = Vec::new();
        let mut py: usize = 0;
        while py < ts
            invariant
                self.image.wf(),
                ts == self.tile_size,
                ts >= 1,
                loc.x + ts <= self.image.width,
                loc.y + ts <= self.image.height,
                py <= ts,
                r@.len() == py * ts,
                py * ts <= ts * ts,
                forall|p: int|
                    0 <= p < r@.len() ==> (#[trigger] r@[p]) == self.image.pixels@[(loc.y + p / (
                    ts as int)) * self.image.width + (loc.x + p % (ts as int))],
            decreases ts - py,
        {
            proof {
                assert(py * ts <= (py + 1) * ts && (py + 1) * ts == py * ts + ts && (py + 1) * ts
                    <= ts * ts) by (nonlinear_arith)
                    requires
                        ts >= 0,
                        py + 1 <= ts,
                ;
            }
            let mut px: usize = 0;
            while px < ts
                invariant
                    self.image.wf(),
                    ts == self.tile_size,
                    ts >= 1,
                    loc.x + ts <= self.image.width,
                    loc.y + ts <= self.image.height,
                    py < ts,
                    px <= ts,
                    (py + 1) * ts <= ts * ts,
                    py * ts + px <= (py + 1) * ts,
                    r@.len() == py * ts + px,
                    forall|p: int|
                        0 <= p < r@.len() ==> (#[trigger] r@[p]) == self.image.pixels@[(loc.y + p
                            / (ts as int)) * self.image.width + (loc.x + p % (ts as int))],
                decreases ts - px,
            {
                proof {
                    assert(py * ts + (px + 1) <= (py + 1) * ts) by (nonlinear_arith)
                        requires
                            px + 1 <= ts,
                    ;
                    vstd::arithmetic::div_mod::lemma_fundamental_div_mod_converse(
                        (py * ts + px) as int,
                        ts as int,
                        py as int,
                        px as int,
                    );
                    assert((loc.y + py) * self.image.width + (loc.x + px) < self.image.width
                        * self.image.height) by (nonlinear_arith)
                        requires
                            loc.y + py < self.image.height,
                            loc.x + px < self.image.width,
                            self.image.width >= 1,
                    ;
                    assert((loc.y + py) * self.image.width >= 0) by (nonlinear_arith)
                        requires
                            loc.y + py >= 0,
                            self.image.width >= 0,
                    ;
                }
                let idx = (loc.y + py) * self.image.width + (loc.x + px);
                r.push(self.image.pixels[idx]);
                px = px + 1;
            }
            proof {
                assert((py + 1) * ts == py * ts + ts) by (nonlinear_arith);
            }
            py = py + 1;
        }
        proof {
            assert(r@ =~= pattern_spec(self.image, loc, ts as int));
        }
        r
    }

    /// The same square, pixel by pixel.
    pub fn rgba_pattern_at(&self, loc: Loc) -> (r: RgbaPattern)
        requires
            self.image.wf(),
            self.tile_size >= 1,
            loc.x + self.tile_size <= self.image.width,
            loc.y + self.tile_size <= self.image.height,
        ensures
            r@ == pattern_spec(self.image, loc, self.tile_size as int),
    {
        self.rgba_arr_pattern_at(loc)
    }

    /// Extracts the distinct tiles, their frequencies, and the adjacency
    /// rules.  Tile ids are dense, assigned in order of first appearance;
    /// each pair of adjacent squares registers a (symmetric) allowance; the
    /// total frequency weight equals the number of squares.
    pub fn process(&mut self) -> (r: WfcData)
        requires
            old(self).image.wf(),
            old(self).tile_size >= 1,
            old(self).ncols_spec() * old(self).nrows_spec() >= 2,
        ensures
            r.wf(),
            r.adjacency_rules.symmetric(),
            sum_counts(r.tile_frequencies@, r.tile_frequencies@.len() as int) == old(
                self,
            ).ncols_spec() * old(self).nrows_spec(),
            final(self).tile_loc_map@.len() == old(self).ncols_spec() * old(self).nrows_spec(),
            final(self).tiles@.len() == r.tile_frequencies@.len(),
            final(self).pattern_ids@.len() == r.patterns@.len(),
            final(self).image == old(self).image,
            final(self).tile_size == old(self).tile_size,
    {
        let ts = self.tile_size;
        let locs = self.tile_locs();
        let ncols = self.image.width / ts;
        let nrows = self.image.height / ts;
        proof {
            vstd::arithmetic::div_mod::lemma_mod_bound(self.image.width as int, ts as int);
            vstd::arithmetic::div_mod::lemma_mod_bound(self.image.height as int, ts as int);
            vstd::arithmetic::div_mod::lemma_fundamental_div_mod(self.image.width as int, ts as int);
            vstd::arithmetic::div_mod::lemma_fundamental_div_mod(
                self.image.height as int,
                ts as int,
            );
            assert(nrows >= 1 && ncols >= 1) by {
                if nrows <= 0 || ncols <= 0 {
                    assert(ncols * nrows <= 0) by (nonlinear_arith)
                        requires
                            ncols >= 0,
                            nrows >= 0,
                            nrows <= 0 || ncols <= 0,
                    ;
                }
            }
            assert(ncols * nrows <= self.image.width * self.image.height) by (nonlinear_arith)
                requires
                    0 <= ncols <= self.image.width,
                    0 <= nrows <= self.image.height,
            ;
            assert(self.image.width >= ts && self.image.height >= ts) by (nonlinear_arith)
                requires
                    self.image.width as int == ts as int * (ncols as int) + self.image.width as int
                        % ts as int,
                    self.image.height as int == ts as int * (nrows as int)
                        + self.image.height as int % ts as int,
                    ncols >= 1,
                    nrows >= 1,
                    ts >= 1,
                    self.image.width as int % ts as int >= 0,
                    self.image.height as int % ts as int >= 0,
            ;
        }
        let max_x = self.image.width - self.image.width % ts - 1;
        let max_y = self.image.height - self.image.height % ts - 1;
        let mut adjacency_rules = AdjacencyRules::new();
        let mut tile_frequencies: Vec<usize> = Vec::new();
        let mut patterns: Vec<Pattern> = Vec::new();
        let mut loc_ids: Vec<TileId> = Vec::new();
        let mut tiles: Vec<Loc> = Vec::new();
        let mut tlm: Vec<(Loc, TileId)> = Vec::new();
        let mut i: usize = 0;
        while i < locs.len()
            invariant
                *self == *old(self),
                ts == self.tile_size,
                ts >= 1,
                self.image.wf(),
                ncols == self.ncols_spec(),
                nrows == self.nrows_spec(),
                ncols >= 1,
                nrows >= 1,
                ncols * nrows >= 2,
                ncols * nrows <= TOTAL_WEIGHT_MAX,
                locs@.len() == ncols * nrows,
                forall|k: int|
                    0 <= k < locs@.len() ==> (#[trigger] locs@[k]) == (Loc {
                        x: ((k / nrows as int) * ts) as usize,
                        y: ((k % nrows as int) * ts) as usize,
                    }),
                ncols * ts <= self.image.width,
                nrows * ts <= self.image.height,
                i <= locs@.len(),
                loc_ids@.len() == i,
                forall|k: int| 0 <= k < i ==> (#[trigger] loc_ids@[k]) < patterns@.len(),
                tlm@.len() == i,
                forall|k: int| 0 <= k < i ==> (#[trigger] tlm@[k]) == (locs@[k], loc_ids@[k]),
                tiles@.len() == patterns@.len(),
                patterns@.len() <= i,
                tile_frequencies@.len() == patterns@.len(),
                forall|k: int, l: int|
                    #![trigger patterns@[k], patterns@[l]]
                    0 <= k < l < patterns@.len() ==> !(patterns@[k]@ =~= patterns@[l]@),
                forall|k: int|
                    0 <= k < patterns@.len() ==> (#[trigger] patterns@[k])@ == pattern_spec(
                        self.image,
                        tiles@[k],
                        ts as int,
                    ),
                forall|k: int|
                    0 <= k < i ==> patterns@[(#[trigger] loc_ids@[k]) as int]@ == pattern_spec(
                        self.image,
                        locs@[k],
                        ts as int,
                    ),
                forall|j: int|
                    0 <= j < tile_frequencies@.len() ==> #[trigger] tile_frequencies@[j]
                        == count_id(tlm@, j, i as int),
                forall|k: int|
                    0 <= k < tile_frequencies@.len() ==> (#[trigger] tile_frequencies@[k]) >= 1,
                sum_counts(tile_frequencies@, tile_frequencies@.len() as int) == i,
                adjacency_rules.wf(),
                adjacency_rules.symmetric(),
                adjacency_rules.len_spec() <= patterns@.len(),
                i >= 2 ==> adjacency_rules.len_spec() == patterns@.len(),
            decreases locs@.len() - i,
        {
            let loc = locs[i];
            proof {
                vstd::arithmetic::div_mod::lemma_mod_bound(i as int, nrows as int);
                assert((i as int) / (nrows as int) < ncols) by {
                    vstd::arithmetic::div_mod::lemma_fundamental_div_mod(i as int, nrows as int);
                    if (i as int) / (nrows as int) >= ncols {
                        assert(nrows as int * ((i as int) / (nrows as int)) >= nrows as int
                            * ncols as int) by (nonlinear_arith)
                            requires
                                (i as int) / (nrows as int) >= ncols as int,
                                nrows >= 1,
                        ;
                        assert(nrows as int * ncols as int == ncols as int * nrows as int)
                            by (nonlinear_arith);
                    }
                }
                assert((i as int) / (nrows as int) >= 0) by {
                    vstd::arithmetic::div_mod::lemma_fundamental_div_mod(i as int, nrows as int);
                    if (i as int) / (nrows as int) < 0 {
                        assert(nrows as int * ((i as int) / (nrows as int)) <= nrows as int * (-1))
                            by (nonlinear_arith)
                            requires
                                (i as int) / (nrows as int) <= -1,
                                nrows >= 1,
                        ;
                    }
                }
                assert(loc.x + ts <= self.image.width) by {
                    assert(((i as int) / (nrows as int)) * ts + ts <= ncols * ts) by (nonlinear_arith)
                        requires
                            (i as int) / (nrows as int) < ncols,
                            ts >= 0,
                    ;
                }
                assert(loc.y + ts <= self.image.height) by {
                    assert(((i as int) % (nrows as int)) * ts + ts <= nrows * ts) by (nonlinear_arith)
                        requires
                            (i as int) % (nrows as int) < nrows,
                            ts >= 0,
                    ;
                }
            }
            let pattern = self.rgba_arr_pattern_at(loc);
            let found = find_pattern(&patterns, &pattern);
            let ghost freqs0 = tile_frequencies@;
            let ghost tlm0 = tlm@;
            let ghost pats0_len = patterns@.len() as int;
            let id: usize = match found {
                Some(id) => {
                    let f = tile_frequencies[id];
                    proof {
                        crate::wfc::lemma_sum_counts_elem(
                            tile_frequencies@,
                            tile_frequencies@.len() as int,
                            id as int,
                        );
                        crate::wfc::lemma_sum_counts_update(
                            tile_frequencies@,
                            id as int,
                            (f + 1) as usize,
                            tile_frequencies@.len() as int,
                        );
                    }
                    tile_frequencies.set(id, f + 1);
                    id
                },
                None => {
                    proof {
                        crate::wfc::lemma_sum_counts_congruent(
                            tile_frequencies@.push(1),
                            tile_frequencies@,
                            tile_frequencies@.len() as int,
                        );
                    }
                    patterns.push(pattern);
                    tile_frequencies.push(1);
                    tiles.push(loc);
                    patterns.len() - 1
                },
            };
            loc_ids.push(id);
            tlm.push((loc, id));
            proof {
                assert(tlm@ == tlm0.push((loc, id)));
                assert forall|j: int|
                    0 <= j < tile_frequencies@.len() implies #[trigger] tile_frequencies@[j]
                    == count_id(tlm@, j, i + 1) by {
                    lemma_count_id_congruent(tlm@, tlm0, j, i as int);
                    assert(tlm@[i as int].1 == id);
                    if tile_frequencies@.len() == freqs0.len() {
                        // An already-known pattern: one weight went up.
                        if j != id {
                            assert(tile_frequencies@[j] == freqs0[j]);
                        }
                    } else {
                        // A fresh pattern: its id is new to the map.
                        if j == id {
                            assert forall|k: int|
                                0 <= k < i implies (#[trigger] tlm0[k]).1 != j by {
                                assert(tlm0[k] == (locs@[k], loc_ids@[k]));
                                assert(loc_ids@[k] < pats0_len);
                            }
                            lemma_count_id_none(tlm0, j, i as int);
                        }
                    }
                }
                assert(patterns@.len() <= i + 1);
                assert(i + 1 <= ncols * nrows);
                assert(forall|k: int|
                    0 <= k < loc_ids@.len() ==> (#[trigger] loc_ids@[k]) < patterns@.len());
            }
            // Wrap-around allowances, when asked for.
            if self.config.wrap {
                if loc.x == max_x {
                    proof {
                        if i >= nrows {
                            vstd::arithmetic::div_mod::lemma_mod_bound(i as int, nrows as int);
                        } else {
                            vstd::arithmetic::div_mod::lemma_small_mod(i as nat, nrows as nat);
                        }
                    }
                    let left_id = loc_ids[i % nrows];
                    adjacency_rules.allow(id, left_id, CardinalDirs::Right);
                }
                if loc.y == max_y {
                    proof {
                        if i >= nrows {
                            vstd::arithmetic::div_mod::lemma_mod_bound(i as int, nrows as int);
                        } else {
                            vstd::arithmetic::div_mod::lemma_small_mod(i as nat, nrows as nat);
                        }
                    }
                    let bottom_id = loc_ids[i % nrows];
                    adjacency_rules.allow(id, bottom_id, CardinalDirs::Down);
                }
            }
            // Squares are visited column-major, so the square to the left
            // and the one above have been processed already.
            if i >= nrows {
                // Not in the leftmost column.
                let left_id = loc_ids[i - nrows];
                adjacency_rules.allow(id, left_id, CardinalDirs::Left);
            }
            if i % nrows != 0 {
                // Not in the top row of its column.
                proof {
                    vstd::arithmetic::div_mod::lemma_mod_bound(i as int, nrows as int);
                    if i < nrows {
                        vstd::arithmetic::div_mod::lemma_small_mod(i as nat, nrows as nat);
                    }
                }
                let bottom_id = loc_ids[i - 1];
                adjacency_rules.allow(id, bottom_id, CardinalDirs::Up);
            }
            proof {
                if i >= 1 {
                    assert(i >= nrows || i % nrows != 0) by {
                        if i < nrows {
                            vstd::arithmetic::div_mod::lemma_small_mod(i as nat, nrows as nat);
                        }
                    }
                    assert(id < patterns@.len() && patterns@.len() >= 1);
                    assert(adjacency_rules.len_spec() == patterns@.len());
                }
            }
            i = i + 1;
        }
        self.tile_loc_map = tlm;
        self.tiles = tiles;
        self.pattern_ids = clone_patterns(&patterns);
        proof {
            assert(i >= 2);
        }
        WfcData { tile_frequencies, adjacency_rules, patterns }
    }

    /// The same square flattened to single bytes, RGBA in order.
    pub fn pattern_at(&self, loc: Loc) -> (r: U8Pattern)
        requires
            self.image.wf(),
            self.tile_size >= 1,
            4 * (self.tile_size * self.tile_size) <= usize::MAX,
            loc.x + self.tile_size <= self.image.width,
            loc.y + self.tile_size <= self.image.height,
        ensures
            r@.len() == 4 * (self.tile_size * self.tile_size),
            forall|p: int|
                0 <= p < self.tile_size * self.tile_size ==> {
                    let px = #[trigger] pattern_spec(self.image, loc, self.tile_size as int)[p];
                    r@[4 * p] == px[0] && r@[4 * p + 1] == px[1] && r@[4 * p + 2] == px[2] && r@[4
                        * p + 3] == px[3]
                },
    {
        let pat = self.rgba_arr_pattern_at(loc);
        proof {
            assert(4 * (self.tile_size * self.tile_size) <= usize::MAX);
        }
        let mut r: U8Pattern = Vec::new();
        let mut i: usize = 0;
        while i < pat.len()
            invariant
                4 * pat@.len() <= usize::MAX,
                pat@.len() == self.tile_size * self.tile_size,
                pat@ == pattern_spec(self.image, loc, self.tile_size as int),
                i <= pat@.len(),
                r@.len() == 4 * i,
                forall|p: int|
                    0 <= p < i ==> {
                        let px = #[trigger] pat@[p];
                        r@[4 * p] == px[0] && r@[4 * p + 1] == px[1] && r@[4 * p + 2] == px[2]
                            && r@[4 * p + 3] == px[3]
                    },
            decreases pat@.len() - i,
        {
            let px = pat[i];
            r.push(px[0]);
            r.push(px[1]);
            r.push(px[2]);
            r.push(px[3]);
            proof {
                assert(px@ =~= pat@[i as int]@);
            }
            i = i + 1;
        }
        r
    }
}

} // verus!
