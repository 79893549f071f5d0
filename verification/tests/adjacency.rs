use wfc_rust::adjacency_rules::{AdjacencyRules, CardinalDirs, EnablerDict, EnablerCounts};
use wfc_rust::simple_patterns::{construct_simple_patterns, BLANK, DL, LU, RD, UR};

fn simple_patterns_common() -> AdjacencyRules {
    construct_simple_patterns().wfc_data.unwrap().adjacency_rules
}

#[test]
fn blank_allowed_in_all_dirs() {
    let adj = simple_patterns_common();
    assert!(adj.allowed_in_all_dirs(BLANK, BLANK));
}

#[test]
fn blank_allowed_to_the_right_of_blank_right() {
    let adj = simple_patterns_common();
    let blank_right = [DL, LU];
    for br in blank_right {
        assert!(adj.is_allowed(br, BLANK, CardinalDirs::Right));
        assert!(adj.is_allowed(BLANK, br, CardinalDirs::Left));
    }
}

#[test]
fn blank_allowed_to_the_left_of_blank_left() {
    let adj = simple_patterns_common();
    let blank_left = [RD, UR];
    for bl in blank_left {
        assert!(adj.is_allowed(bl, BLANK, CardinalDirs::Left));
        assert!(adj.is_allowed(BLANK, bl, CardinalDirs::Right));
    }
}

#[test]
fn blank_allowed_below_blank_down() {
    let adj = simple_patterns_common();
    let blank_down = [UR, LU];
    for bd in blank_down {
        assert!(adj.is_allowed(bd, BLANK, CardinalDirs::Down));
        assert!(adj.is_allowed(BLANK, bd, CardinalDirs::Up));
    }
}

#[test]
fn blank_allowed_above_blank_up() {
    let adj = simple_patterns_common();
    let blank_up = [RD, DL];
    for bu in blank_up {
        assert!(adj.is_allowed(bu, BLANK, CardinalDirs::Up));
        assert!(adj.is_allowed(BLANK, bu, CardinalDirs::Down));
    }
}

#[test]
fn blank_not_allowed_to_the_left_of_blank_right() {
    let adj = simple_patterns_common();
    let blank_right = [DL, LU];
    for br in blank_right {
        assert!(!adj.is_allowed(br, BLANK, CardinalDirs::Left));
        assert!(!adj.is_allowed(BLANK, br, CardinalDirs::Right));
    }
}

#[test]
fn blank_not_allowed_to_the_right_of_blank_left() {
    let adj = simple_patterns_common();
    let blank_left = [RD, UR];
    for bl in blank_left {
        assert!(!adj.is_allowed(bl, BLANK, CardinalDirs::Right));
        assert!(!adj.is_allowed(BLANK, bl, CardinalDirs::Left));
    }
}

#[test]
fn blank_not_allowed_above_blank_down() {
    let adj = simple_patterns_common();
    let blank_down = [UR, LU];
    for bd in blank_down {
        assert!(!adj.is_allowed(bd, BLANK, CardinalDirs::Up));
        assert!(!adj.is_allowed(BLANK, bd, CardinalDirs::Down));
    }
}

#[test]
fn blank_not_allowed_below_blank_up() {
    let adj = simple_patterns_common();
    let blank_up = [RD, DL];
    for bu in blank_up {
        assert!(!adj.is_allowed(bu, BLANK, CardinalDirs::Down));
        assert!(!adj.is_allowed(BLANK, bu, CardinalDirs::Up));
    }
}

fn all_allowed(froms: [usize; 2], tos: [usize; 2], dir: CardinalDirs, adj: &AdjacencyRules) {
    for from in froms {
        for to in tos {
            assert!(adj.is_allowed(from, to, dir), "{} -> {:?} -> {} not allowed", from, dir, to);
        }
    }
}

fn not_allowed(froms: [usize; 2], tos: [usize; 2], dir: CardinalDirs, adj: &AdjacencyRules) {
    for from in froms {
        for to in tos {
            assert!(!adj.is_allowed(from, to, dir), "{} -> {:?} -> {} allowed", from, dir, to);
        }
    }
}

#[test]
fn bl_allowed_left_of_br() {
    let adj = &simple_patterns_common();
    all_allowed([DL, LU], [RD, UR], CardinalDirs::Left, adj)
}

#[test]
fn br_not_allowed_right_of_br() {
    let adj = &simple_patterns_common();
    not_allowed([DL, LU], [DL, LU], CardinalDirs::Right, adj)
}

#[test]
fn bl_not_allowed_left_of_bl() {
    let adj = &simple_patterns_common();
    not_allowed([RD, UR], [RD, UR], CardinalDirs::Left, adj)
}

#[test]
fn remove_all_but_one_enabler() {
    let adj = simple_patterns_common();
    let mut enab = EnablerDict::new(&adj);
    let mut removed_ids = enab.remove_all_but(BLANK);
    assert!(removed_ids.len() == 4);
    removed_ids.sort();
    assert!(removed_ids == vec![1, 2, 3, 4]);
}

fn enabler_counts_common() -> Vec<EnablerCounts> {
    let adj = simple_patterns_common();
    let enab = EnablerDict::new(&adj);
    let mut counts = Vec::new();
    for id in 0..5 {
        counts.push(enab.get(id).expect("all enabler counts should start out present"));
    }
    counts
}

fn count_in_dir(c: &EnablerCounts, dir: CardinalDirs) -> usize {
    c.get(dir)
}

#[test]
fn blank_enabler_counts_all_3() {
    let counts = enabler_counts_common();
    let c = &counts[BLANK];
    assert!(
        c.up == 3 && c.left == 3 && c.down == 3 && c.right == 3,
        "{:?} != all threes",
        c
    );
}

fn connect_2_blank_3(id: usize, connect_dirs: [CardinalDirs; 2], counts: &[EnablerCounts]) {
    for dir in connect_dirs {
        assert!(
            count_in_dir(&counts[id], dir) == 2,
            "tile {} -> {:?} -> count = {} != 2",
            id,
            dir,
            count_in_dir(&counts[id], dir)
        );
    }
    for dir in [connect_dirs[0].opposite(), connect_dirs[1].opposite()] {
        assert!(
            count_in_dir(&counts[id], dir) == 3,
            "tile {} -> {:?} -> count = {} != 3",
            id,
            dir,
            count_in_dir(&counts[id], dir)
        );
    }
}

#[test]
fn lu_c2b3() {
    let counts = enabler_counts_common();
    connect_2_blank_3(LU, [CardinalDirs::Left, CardinalDirs::Up], &counts);
}

#[test]
fn rd_c2b3() {
    let counts = enabler_counts_common();
    connect_2_blank_3(RD, [CardinalDirs::Right, CardinalDirs::Down], &counts);
}

#[test]
fn ur_c2b3() {
    let counts = enabler_counts_common();
    connect_2_blank_3(UR, [CardinalDirs::Right, CardinalDirs::Up], &counts);
}

#[test]
fn dl_c2b3() {
    let counts = enabler_counts_common();
    connect_2_blank_3(DL, [CardinalDirs::Left, CardinalDirs::Down], &counts);
}

#[test]
fn no_enabler_counts_are_zero() {
    let adj = simple_patterns_common();
    for id in 0..5 {
        let counts = adj.enabled_by_count(id);
        assert!(counts.iter().all(|&c| c != 0));
    }
}

#[test]
fn allow_is_symmetric() {
    let mut rules = AdjacencyRules::new();
    rules.allow(0, 1, CardinalDirs::Right);
    assert!(rules.is_allowed(0, 1, CardinalDirs::Right));
    assert!(rules.is_allowed(1, 0, CardinalDirs::Left));
    assert!(!rules.is_allowed(1, 0, CardinalDirs::Right));
    rules.allow(2, 2, CardinalDirs::Up);
    assert!(rules.is_allowed(2, 2, CardinalDirs::Up));
    assert!(rules.is_allowed(2, 2, CardinalDirs::Down));
    assert_eq!(rules.len(), 3);
    assert!(!rules.is_empty());
    // Re-declaring a pair is a no-op: set semantics.
    rules.allow(0, 1, CardinalDirs::Right);
    assert_eq!(rules.len(), 3);
    assert_eq!(rules.enabled_by(0, CardinalDirs::Right), vec![1]);
}
