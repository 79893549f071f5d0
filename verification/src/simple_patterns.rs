//! A small hand-authored tile set: a blank tile and the four rotations of a
//! quarter pipe, with adjacency rules that connect pipe arms to pipe arms
//! and blank edges to blank edges.

use vstd::prelude::*;

use crate::adjacency_rules::{AdjacencyRules, CardinalDirs};
use crate::point::CardinalDir;
use crate::preprocessor::{Image, Pattern, WfcData};
use crate::wfc::sum_counts;
use crate::Wfc;

verus! {

/// The blank tile.
pub const BLANK: usize = 0;

/// Pipe from the down edge to the left edge.
pub const DL: usize = 1;

/// Pipe from the left edge to the up edge.
pub const LU: usize = 2;

/// Pipe from the right edge to the down edge.
pub const RD: usize = 3;

/// Pipe from the up edge to the right edge.
pub const UR: usize = 4;

/// A hand-authored tile: its id, name, neighbour masks and image.
pub struct SimplePattern {
    pub id: u8,
    pub name: String,
    pub allowed_neighbors: [(CardinalDir, [bool; 5]); 4],
    pub img: Image,
}

/// Componentwise or of two five-entry masks.
pub fn ora(a: [bool; 5], b: [bool; 5]) -> (c: [bool; 5])
    ensures
        forall|i: int| 0 <= i < 5 ==> #[trigger] c[i] == (a[i] || b[i]),
{
    let c = [a[0] || b[0], a[1] || b[1], a[2] || b[2], a[3] || b[3], a[4] || b[4]];
    proof {
        assert forall|i: int| 0 <= i < 5 implies #[trigger] c[i] == (a[i] || b[i]) by {
            if i == 0 {
            } else if i == 1 {
            } else if i == 2 {
            } else if i == 3 {
            } else {
            }
        }
    }
    c
}

/// Declares every `aaa` tile allowed next to every `bbb` tile in direction
/// `dir` (and, through the rules' symmetry, the mirrored allowances).
pub fn allow_all(
    aaa: [usize; 2],
    bbb: [usize; 2],
    dir: CardinalDirs,
    adjacency_rules: &mut AdjacencyRules,
)
    requires
        old(adjacency_rules).wf(),
        aaa[0] < 16,
        aaa[1] < 16,
        bbb[0] < 16,
        bbb[1] < 16,
    ensures
        final(adjacency_rules).wf(),
        old(adjacency_rules).symmetric() ==> final(adjacency_rules).symmetric(),
        forall|a: usize, b: usize, d: CardinalDirs|
            old(adjacency_rules).allows(a, b, d) ==> final(adjacency_rules).allows(a, b, d),
        final(adjacency_rules).allows(aaa[0], bbb[0], dir),
        final(adjacency_rules).allows(aaa[0], bbb[1], dir),
        final(adjacency_rules).allows(aaa[1], bbb[0], dir),
        final(adjacency_rules).allows(aaa[1], bbb[1], dir),
        final(adjacency_rules).len_spec() == vstd::math::max(
            old(adjacency_rules).len_spec() as int,
            vstd::math::max(
                vstd::math::max(aaa[0] + 1, aaa[1] + 1),
                vstd::math::max(bbb[0] + 1, bbb[1] + 1),
            ),
        ),
        forall|a: usize, b: usize, d: CardinalDirs|
            final(adjacency_rules).allows(a, b, d) ==> old(adjacency_rules).allows(a, b, d) || (d
                == dir && (a == aaa[0] || a == aaa[1]) && (b == bbb[0] || b == bbb[1])) || (d
                == dir.opp() && (a == bbb[0] || a == bbb[1]) && (b == aaa[0] || b == aaa[1])),
{
    let a0 = aaa[0];
    let a1 = aaa[1];
    let b0 = bbb[0];
    let b1 = bbb[1];
    adjacency_rules.allow(a0, b0, dir);
    adjacency_rules.allow(a0, b1, dir);
    adjacency_rules.allow(a1, b0, dir);
    adjacency_rules.allow(a1, b1, dir);
}

/// The corner-pipe adjacency table: arms meet arms, blank edges meet blank
/// edges, and the blank tile sits beside every blank edge.
pub open spec fn corner_pipe_allows(a: usize, b: usize, d: CardinalDirs) -> bool {
    match d {
        CardinalDirs::Up => ((a == RD || a == DL) && (b == UR || b == LU)) || ((a == UR || a == LU)
            && (b == RD || b == DL)) || (a == BLANK && (b == UR || b == LU || b == BLANK)) || ((a
            == RD || a == DL) && b == BLANK),
        CardinalDirs::Down => ((a == UR || a == LU) && (b == RD || b == DL)) || ((a == RD || a
            == DL) && (b == UR || b == LU)) || (a == BLANK && (b == RD || b == DL || b == BLANK))
            || ((a == UR || a == LU) && b == BLANK),
        CardinalDirs::Right => ((a == DL || a == LU) && (b == RD || b == UR)) || ((a == RD || a
            == UR) && (b == DL || b == LU)) || (a == BLANK && (b == RD || b == UR || b == BLANK))
            || ((a == DL || a == LU) && b == BLANK),
        CardinalDirs::Left => ((a == RD || a == UR) && (b == DL || b == LU)) || ((a == DL || a
            == LU) && (b == RD || b == UR)) || (a == BLANK && (b == DL || b == LU || b == BLANK))
            || ((a == RD || a == UR) && b == BLANK),
    }
}

/// Turns a flat RGBA byte list into pixels.
fn bytes_to_pixels(bytes: &Vec<u8>, n: usize) -> (r: Vec<[u8; 4]>)
    requires
        n <= 0x1000,
        bytes@.len() == 4 * n,
    ensures
        r@.len() == n,
{
    let mut r: Vec<[u8; 4]> = Vec::new();
    let mut i: usize = 0;
    while i < n
        invariant
            n <= 0x1000,
            bytes@.len() == 4 * n,
            i <= n,
            r@.len() == i,
        decreases n - i,
    {
        r.push([bytes[4 * i], bytes[4 * i + 1], bytes[4 * i + 2], bytes[4 * i + 3]]);
        i = i + 1;
    }
    r
}

/// A 4-by-4 image from 64 RGBA bytes.
fn image4(bytes: Vec<u8>) -> (r: Image)
    requires
        bytes@.len() == 64,
    ensures
        r.wf(),
        r.width == 4,
        r.height == 4,
        r.pixels@.len() == 16,
{
    let pixels = bytes_to_pixels(&bytes, 16);
    Image { width: 4, height: 4, pixels }
}

/// The five hand-drawn tiles, in id order.
pub fn get_simple_patterns() -> (r: Vec<SimplePattern>)
    ensures
        r@.len() == 5,
        forall|k: int| 0 <= k < 5 ==> (#[trigger] r@[k]).id == k && r@[k].img.wf()
            && r@[k].img.pixels@.len() == 16,
{
    let blank_mask = [true, false, false, false, false];
    let down_left = [false, true, false, false, false];
    let left_up = [false, false, true, false, false];
    let right_down = [false, false, false, true, false];
    let up_right = [false, false, false, false, true];

    let has_left = ora(left_up, down_left);
    let has_right = ora(right_down, up_right);
    let has_up = ora(left_up, up_right);
    let has_down = ora(right_down, down_left);

    let blank_on_left = ora(has_left, blank_mask);
    let blank_on_up = ora(has_up, blank_mask);
    let blank_on_right = ora(has_right, blank_mask);
    let blank_on_down = ora(has_down, blank_mask);

    let w: u8 = 255;
    let b: u8 = 0;
    let blank_bytes: Vec<u8> = vec![
        w, w, w, w, w, w, w, w, w, w, w, w, w, w, w, w,
        w, w, w, w, w, w, w, w, w, w, w, w, w, w, w, w,
        w, w, w, w, w, w, w, w, w, w, w, w, w, w, w, w,
        w, w, w, w, w, w, w, w, w, w, w, w, w, w, w, w,
    ];
    let dl_bytes: Vec<u8> = vec![
        w, w, w, w, w, w, w, w, w, w, w, w, w, w, w, w,
        b, b, b, w, b, b, b, w, b, b, b, w, w, w, w, w,
        b, b, b, w, b, b, b, w, b, b, b, w, w, w, w, w,
        w, w, w, w, b, b, b, w, b, b, b, w, w, w, w, w,
    ];
    let lu_bytes: Vec<u8> = vec![
        w, w, w, w, b, b, b, w, b, b, b, w, w, w, w, w,
        b, b, b, w, b, b, b, w, b, b, b, w, w, w, w, w,
        b, b, b, w, b, b, b, w, b, b, b, w, w, w, w, w,
        w, w, w, w, w, w, w, w, w, w, w, w, w, w, w, w,
    ];
    let rd_bytes: Vec<u8> = vec![
        w, w, w, w, w, w, w, w, w, w, w, w, w, w, w, w,
        w, w, w, w, b, b, b, w, b, b, b, w, b, b, b, w,
        w, w, w, w, b, b, b, w, b, b, b, w, b, b, b, w,
        w, w, w, w, b, b, b, w, b, b, b, w, w, w, w, w,
    ];
    let ur_bytes: Vec<u8> = vec![
        w, w, w, w, b, b, b, w, b, b, b, w, w, w, w, w,
        w, w, w, w, b, b, b, w, b, b, b, w, b, b, b, w,
        w, w, w, w, b, b, b, w, b, b, b, w, b, b, b, w,
        w, w, w, w, w, w, w, w, w, w, w, w, w, w, w, w,
    ];

    let mut r: Vec<SimplePattern> = Vec::new();
    r.push(SimplePattern {
        id: 0,
        name: "blank".to_owned(),
        allowed_neighbors: [
            (CardinalDir::LEFT, blank_on_right),
            (CardinalDir::UP, blank_on_down),
            (CardinalDir::RIGHT, blank_on_left),
            (CardinalDir::DOWN, blank_on_up),
        ],
        img: image4(blank_bytes),
    });
    r.push(SimplePattern {
        id: 1,
        name: "dl".to_owned(),
        allowed_neighbors: [
            (CardinalDir::LEFT, has_right),
            (CardinalDir::UP, blank_on_down),
            (CardinalDir::RIGHT, blank_on_left),
            (CardinalDir::DOWN, has_up),
        ],
        img: image4(dl_bytes),
    });
    r.push(SimplePattern {
        id: 2,
        name: "lu".to_owned(),
        allowed_neighbors: [
            (CardinalDir::LEFT, has_right),
            (CardinalDir::UP, has_down),
            (CardinalDir::RIGHT, blank_on_left),
            (CardinalDir::DOWN, blank_on_up),
        ],
        img: image4(lu_bytes),
    });
    r.push(SimplePattern {
        id: 3,
        name: "rd".to_owned(),
        allowed_neighbors: [
            (CardinalDir::LEFT, blank_on_right),
            (CardinalDir::UP, blank_on_down),
            (CardinalDir::RIGHT, has_left),
            (CardinalDir::DOWN, has_up),
        ],
        img: image4(rd_bytes),
    });
    r.push(SimplePattern {
        id: 4,
        name: "ur".to_owned(),
        allowed_neighbors: [
            (CardinalDir::LEFT, blank_on_right),
            (CardinalDir::UP, has_down),
            (CardinalDir::RIGHT, has_left),
            (CardinalDir::DOWN, blank_on_up),
        ],
        img: image4(ur_bytes),
    });
    r
}

/// Builds the corner-pipe tile set: the hand-authored adjacency rules, the
/// fixed tile frequencies, and the five tile images, ready to run.
pub fn construct_simple_patterns() -> (r: Wfc)
    ensures
        r.wfc_data matches Some(d) && d.wf() && d.adjacency_rules.symmetric()
            && d.tile_frequencies@ =~= seq![1usize, 2, 2, 2, 2] && d.patterns@.len() == 5 && (
        forall|k: int| 0 <= k < d.patterns@.len() ==> (#[trigger] d.patterns@[k])@.len() == 16) && (
        forall|a: usize, b: usize, dd: CardinalDirs| #[trigger] d.adjacency_rules.allows(a, b, dd)
            <==> corner_pipe_allows(a, b, dd)),
        r.creation_mode is FromPatterns,
        r.tile_size == 4,
        r.output_dims is None,
{
    let mut adjacency_rules = AdjacencyRules::new();

    // Matching blank top against bottom, and connecting arms.
    allow_all([RD, DL], [UR, LU], CardinalDirs::Up, &mut adjacency_rules);
    allow_all([UR, LU], [RD, DL], CardinalDirs::Up, &mut adjacency_rules);

    // Matching blank left against right, and connecting arms.
    allow_all([DL, LU], [RD, UR], CardinalDirs::Right, &mut adjacency_rules);
    allow_all([RD, UR], [DL, LU], CardinalDirs::Right, &mut adjacency_rules);

    // Blank edges against the blank tile.
    allow_all([BLANK, BLANK], [RD, UR], CardinalDirs::Right, &mut adjacency_rules);
    allow_all([BLANK, BLANK], [DL, LU], CardinalDirs::Left, &mut adjacency_rules);
    allow_all([BLANK, BLANK], [RD, DL], CardinalDirs::Down, &mut adjacency_rules);
    allow_all([BLANK, BLANK], [UR, LU], CardinalDirs::Up, &mut adjacency_rules);

    adjacency_rules.allow(BLANK, BLANK, CardinalDirs::Up);
    adjacency_rules.allow(BLANK, BLANK, CardinalDirs::Left);
    adjacency_rules.allow(BLANK, BLANK, CardinalDirs::Down);
    adjacency_rules.allow(BLANK, BLANK, CardinalDirs::Right);

    let mut tile_frequencies: Vec<usize> = Vec::new();
    tile_frequencies.push(1);
    tile_frequencies.push(2);
    tile_frequencies.push(2);
    tile_frequencies.push(2);
    tile_frequencies.push(2);

    let mut pats = get_simple_patterns();
    let mut patterns: Vec<Pattern> = Vec::new();
    let mut i: usize = 0;
    while i < 5
        invariant
            pats@.len() + i == 5,
            patterns@.len() == i,
            forall|k: int| 0 <= k < pats@.len() ==> (#[trigger] pats@[k]).img.pixels@.len() == 16,
            forall|k: int| 0 <= k < i ==> (#[trigger] patterns@[k])@.len() == 16,
        decreases 5 - i,
    {
        let p = pats.remove(0);
        patterns.push(p.img.pixels);
        i = i + 1;
    }

    proof {
        assert(adjacency_rules.len_spec() == 5);
        assert(tile_frequencies@ =~= seq![1usize, 2, 2, 2, 2]);
        assert forall|a: usize, b: usize, dd: CardinalDirs| #[trigger] adjacency_rules.allows(
            a,
            b,
            dd,
        ) <==> corner_pipe_allows(a, b, dd) by {
            match dd {
                CardinalDirs::Up => {},
                CardinalDirs::Left => {},
                CardinalDirs::Down => {},
                CardinalDirs::Right => {},
            }
        }
        assert(sum_counts(tile_frequencies@, 5) == 9) by {
            assert(sum_counts(tile_frequencies@, 0) == 0);
            assert(sum_counts(tile_frequencies@, 1) == 1);
            assert(sum_counts(tile_frequencies@, 2) == 3);
            assert(sum_counts(tile_frequencies@, 3) == 5);
            assert(sum_counts(tile_frequencies@, 4) == 7);
        }
    }
    let data = WfcData { tile_frequencies, adjacency_rules, patterns };
    let this = Wfc::new_from_patterns(data);
    this.with_tile_size(4)
}

} // verus!
