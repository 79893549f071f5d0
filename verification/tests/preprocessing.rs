use wfc_rust::adjacency_rules::CardinalDirs;
use wfc_rust::preprocessor::{Image, PreProcessor, ProcessorConfig};

fn make_checkerboard(width: usize, height: usize) -> Image {
    let white = [255u8, 255, 255, 255];
    let black = [0u8, 0, 0, 255];
    let mut pixels = Vec::new();
    for y in 0..height {
        for x in 0..width {
            // 4-pixel squares alternating like a checkerboard.
            if ((x / 4) + (y / 4)) % 2 == 0 {
                pixels.push(white);
            } else {
                pixels.push(black);
            }
        }
    }
    Image { width, height, pixels }
}

fn checker_proc() -> PreProcessor {
    let image = make_checkerboard(16, 16);
    let tile_size = 4;
    PreProcessor::new(image, tile_size, ProcessorConfig::default())
}

#[test]
fn extract_tiles() {
    let mut proc = checker_proc();
    let data = proc.process();
    let tile_frequencies = data.tile_frequencies;

    // Exactly two distinct tiles, with dense ids.
    assert_eq!(proc.pattern_ids.len(), 2);
    let mut ids: Vec<usize> = proc.tile_loc_map.iter().map(|&(_, id)| id).collect();
    ids.sort();
    ids.dedup();
    assert_eq!(ids, vec![0, 1]);

    // Equal frequencies, 8 occurrences each out of 16 squares.
    assert_eq!(tile_frequencies.iter().sum::<usize>(), 16);
    assert_eq!(tile_frequencies[0], tile_frequencies[1]);

    // One entry per square, and the largest id matches the tile count.
    assert_eq!(proc.tile_loc_map.len(), 16);
    let max_id = proc.tile_loc_map.iter().map(|&(_, id)| id).max().unwrap();
    assert_eq!(max_id, tile_frequencies.len() - 1);
}

#[test]
fn generate_adj_rules() {
    let mut proc = checker_proc();
    let data = proc.process();
    let adj_rules = data.adjacency_rules;
    assert_eq!(adj_rules.len(), 2);
    assert!(adj_rules.allowed_in_all_dirs(0, 1));
    assert!(adj_rules.allowed_in_all_dirs(1, 0));
}

#[test]
fn checkerboard_tiles_never_self_adjacent() {
    let mut proc = checker_proc();
    let data = proc.process();
    let adj_rules = data.adjacency_rules;
    for dir in [
        CardinalDirs::Up,
        CardinalDirs::Left,
        CardinalDirs::Down,
        CardinalDirs::Right,
    ] {
        assert!(!adj_rules.is_allowed(0, 0, dir));
        assert!(!adj_rules.is_allowed(1, 1, dir));
    }
}

#[test]
fn pattern_extraction_reads_pixels() {
    let image = make_checkerboard(8, 8);
    let proc = PreProcessor::new(image, 4, ProcessorConfig::default());
    let locs = proc.tile_locs();
    assert_eq!(locs.len(), 4);
    let pat = proc.rgba_arr_pattern_at(locs[0]);
    assert_eq!(pat.len(), 16);
    assert_eq!(pat[0], [255, 255, 255, 255]);
    let flat = proc.pattern_at(locs[0]);
    assert_eq!(flat.len(), 64);
    assert_eq!(&flat[0..4], &[255, 255, 255, 255]);
}
