use wfc_rust::adjacency_rules::{AdjacencyRules, CardinalDirs, EnablerDict};
use wfc_rust::simple_patterns::allow_all;
use wfc_rust::point::Loc;
use wfc_rust::simple_patterns::construct_simple_patterns;
use wfc_rust::wfc::{Cell, EntropyEntry, MinEntropyHeap, Model, ProbabilityDict, TileRemovalEvent};
use wfc_rust::Grid;

#[test]
fn entropy_calculations() {
    let tile_frequencies: Vec<usize> = vec![1, 2, 3, 4, 5];
    let mut prob = ProbabilityDict::new(&tile_frequencies);
    let calculated_entropy: f64 = 2.149;
    let e0 = prob.entropy() as f64 / 65536.0;
    assert!(calculated_entropy - e0 <= 0.001, "entropy was {}", e0);
    prob.remove(4);
    assert!(prob.total_count == 10);
    let calculated_entropy: f64 = 1.621;
    let e1 = prob.entropy() as f64 / 65536.0;
    assert!(calculated_entropy - e1 <= 0.001, "entropy was {}", e1);
}

#[test]
fn entropy_of_singleton_is_zero() {
    let mut prob = ProbabilityDict::new(&vec![3, 4]);
    prob.remove(1);
    assert_eq!(prob.entropy(), 0);
    let lone = ProbabilityDict::new(&vec![7]);
    assert_eq!(lone.entropy(), 0);
}

#[test]
fn entropy_heap_is_min_heap() {
    let mut heap = MinEntropyHeap::new();
    // Keys analogous to entropies 0.1 and 0.2, in 16.16 fixed point.
    let min_entry = EntropyEntry { entropy: 6554, loc: Loc { x: 1, y: 0 } };
    let max_entry = EntropyEntry { entropy: 13107, loc: Loc { x: 0, y: 1 } };
    heap.push(min_entry);
    heap.push(max_entry);
    assert!(heap.pop() == Some(min_entry));
}

#[test]
fn removal_events_wrap_tiles() {
    let loc = Loc { x: 3, y: 1 };
    let evs = TileRemovalEvent::from_list_of_removed_tiles(vec![2, 5], loc);
    assert_eq!(evs.len(), 2);
    assert_eq!(evs[0], TileRemovalEvent::new(2, loc));
    assert_eq!(evs[1], TileRemovalEvent::new(5, loc));
}

fn all_adjacency_rules_satisfied(model: &Model) {
    let dims = Grid { width: model.width(), height: model.height() };
    for cell_loc in dims.iter_locs() {
        let cell = model.get_cell(cell_loc).unwrap();
        for (dir, adjacent) in model.cardinal_neighbors(cell_loc) {
            let adjacent_cell_loc = match adjacent {
                Some(l) => l,
                None => continue,
            };
            let adj_cell = model.get_cell(adjacent_cell_loc).unwrap();
            let mut cell_domain_in_dir: Vec<usize> = Vec::new();
            for tile_id in cell.domain.allowed_tile_ids() {
                cell_domain_in_dir.extend(model.rules().enabled_by(tile_id, dir));
            }
            cell_domain_in_dir.sort();
            cell_domain_in_dir.dedup();
            for adj_allowed_tile_id in adj_cell.domain.allowed_tile_ids() {
                assert!(
                    cell_domain_in_dir.contains(&adj_allowed_tile_id),
                    "cell at {:?} with domain {:?} in direction {:?} has neighbor at {:?} with possible tile {} that should not be allowed",
                    cell_loc,
                    cell_domain_in_dir,
                    dir,
                    adjacent_cell_loc,
                    adj_allowed_tile_id
                );
            }
        }
    }
}

#[test]
fn adjacency_rules_fulfilled_always() {
    let mut wfc = construct_simple_patterns().with_output_dimensions(40, 40);
    let mut model = wfc.get_model(11);
    while model.remaining_uncollapsed > 0 {
        if model.wave_size() == 0 {
            all_adjacency_rules_satisfied(&model);
        }
        model.step().expect("run should not hit a contradiction");
    }
    all_adjacency_rules_satisfied(&model);
}

#[test]
fn wfc_adjacency_rules_fulfilled_always() {
    let wfc = construct_simple_patterns().with_output_dimensions(40, 40);
    let model = wfc.run(23).expect("run should not hit a contradiction");
    assert_eq!(model.remaining_uncollapsed, 0);
    all_adjacency_rules_satisfied(&model);
}

#[test]
fn remaining_is_monotone_and_reaches_zero() {
    let mut wfc = construct_simple_patterns().with_output_dimensions(24, 24);
    let mut model = wfc.get_model(7);
    let mut last = model.remaining_uncollapsed;
    assert_eq!(last, 36);
    let mut steps = 0u64;
    while model.remaining_uncollapsed > 0 {
        model.step().expect("run should not hit a contradiction");
        assert!(model.remaining_uncollapsed <= last);
        last = model.remaining_uncollapsed;
        steps += 1;
        assert!(steps < 1_000_000);
    }
    assert_eq!(model.remaining_uncollapsed, 0);
}

#[test]
fn step_after_done_is_noop() {
    let mut wfc = construct_simple_patterns().with_output_dimensions(16, 16);
    let mut model = wfc.get_model(3);
    while model.remaining_uncollapsed > 0 {
        model.step().expect("run should not hit a contradiction");
    }
    let updated = model.step().expect("a finished run cannot contradict");
    assert!(updated.is_empty());
    assert_eq!(model.remaining_uncollapsed, 0);
    // Terminal consistency: every cell holds exactly one possible tile.
    for cell in model.iter_cells() {
        assert!(cell.collapsed_to.is_some());
        let allowed = cell.domain.allowed_tile_ids();
        assert_eq!(allowed.len(), 1);
        assert_eq!(allowed[0], cell.collapsed_to.unwrap());
    }
}

#[test]
fn corner_pipe_collapse_constrains_neighbors() {
    let mut wfc = construct_simple_patterns().with_output_dimensions(20, 20);
    let mut model = wfc.get_model(5);
    // One collapse, then drain the wave to the next quiescent point.
    model.step().expect("first collapse cannot contradict");
    let mut collapsed_at: Option<Loc> = None;
    for cell in model.iter_cells() {
        if cell.collapsed_to.is_some() {
            collapsed_at = Some(cell.loc);
        }
    }
    let collapsed_at = collapsed_at.expect("one cell must be collapsed after the first step");
    while model.wave_size() > 0 {
        model.step().expect("propagation of one collapse cannot contradict here");
    }
    all_adjacency_rules_satisfied(&model);
    for (_, adjacent) in model.cardinal_neighbors(collapsed_at) {
        if let Some(nloc) = adjacent {
            let neighbor = model.get_cell(nloc).unwrap();
            assert!(
                neighbor.domain.allowed_tile_ids().len() < 5,
                "neighbor at {:?} kept its full domain",
                nloc
            );
        }
    }
}

#[test]
fn model_seeds_are_reproducible() {
    let mut wfc_a = construct_simple_patterns().with_output_dimensions(16, 16);
    let model_a = wfc_a.get_model(42);
    let mut wfc_b = construct_simple_patterns().with_output_dimensions(16, 16);
    let model_b = wfc_b.get_model(42);
    let mut rules_len = 0;
    for cell in model_a.iter_cells() {
        rules_len = cell.domain.len();
    }
    assert_eq!(rules_len, 5);
    assert_eq!(model_a.remaining_uncollapsed, model_b.remaining_uncollapsed);
}

#[test]
fn model_new_counts_cells() {
    let mut rules = AdjacencyRules::new();
    rules.allow(0, 0, CardinalDirs::Up);
    rules.allow(0, 0, CardinalDirs::Left);
    let model = Model::new(rules, vec![1], Grid { width: 3, height: 2 }, 0);
    assert_eq!(model.remaining_uncollapsed, 6);
    assert_eq!(model.wave_size(), 0);
    assert!(model.get_cell(Loc { x: 2, y: 1 }).is_some());
    assert!(model.get_cell(Loc { x: 3, y: 1 }).is_none());
}

#[test]
fn render_mixes_patterns_by_weight() {
    let mut wfc = construct_simple_patterns().with_output_dimensions(16, 16);
    let data_patterns = wfc.wfc_data.as_ref().unwrap().patterns.clone();
    let mut model = wfc.get_model(9);
    // A fresh cell blends all five patterns by frequency; at pixel 1 the
    // blank, down-left and right-down tiles are white (weights 1+2+2) and
    // the other two are black, so the channel reads (5*255)/9 = 141.
    let cell = model.get_cell(Loc { x: 0, y: 0 }).unwrap();
    let blended = cell.render(&data_patterns, 4);
    assert_eq!(blended.len(), 16);
    assert_eq!(blended[1], [141, 141, 141, 255]);
    // A collapsed cell shows its pattern verbatim.
    while model.remaining_uncollapsed > 0 {
        model.step().expect("run should not hit a contradiction");
    }
    let cell = model.get_cell(Loc { x: 1, y: 1 }).unwrap();
    let id = cell.collapsed_to.unwrap();
    assert_eq!(cell.render(&data_patterns, 4), data_patterns[id]);
}

#[test]
fn collapsing_an_emptied_cell_reports_contradiction() {
    // A one-tile rule set; removing its lone enabler empties the domain.
    let mut rules = AdjacencyRules::new();
    rules.allow(0, 0, CardinalDirs::Up);
    let mut domain = EnablerDict::new(&rules);
    let removed = rules_removal(&mut domain, &rules);
    assert_eq!(removed, vec![0]);
    let mut probability_dict = ProbabilityDict::new(&vec![1]);
    probability_dict.remove(0);
    let mut cell = Cell {
        collapsed_to: None,
        domain,
        probability_dict,
        loc: Loc { x: 0, y: 0 },
        jitter: 0,
    };
    let mut rng = <rand::rngs::StdRng as rand::SeedableRng>::seed_from_u64(0);
    assert!(cell.collapse(&mut rng).is_err());
}

fn rules_removal(domain: &mut EnablerDict, rules: &AdjacencyRules) -> Vec<usize> {
    match domain.remove_single(0, CardinalDirs::Up, rules) {
        Ok(Some(removed)) => removed,
        _ => panic!("the lone tile should have been removed"),
    }
}
