use wfc_rust::entropy::{log2_fixed, LOG2_SCALE};

#[test]
fn log2_of_powers_is_exact() {
    assert_eq!(log2_fixed(1), 0);
    assert_eq!(log2_fixed(2), LOG2_SCALE);
    assert_eq!(log2_fixed(4), 2 * LOG2_SCALE);
    assert_eq!(log2_fixed(1024), 10 * LOG2_SCALE);
}

#[test]
fn log2_of_three_is_close() {
    let e = log2_fixed(3) as f64 / LOG2_SCALE as f64;
    assert!((e - 1.58496).abs() < 0.001, "log2(3) read as {}", e);
}

#[test]
fn log2_is_monotone_on_samples() {
    let mut last = 0u64;
    for w in 1..200u64 {
        let v = log2_fixed(w);
        assert!(v >= last, "log2({}) = {} dipped below {}", w, v, last);
        last = v;
    }
}

#[test]
fn entropy_of_uniform_pair_is_one_bit() {
    let prob = wfc_rust::wfc::ProbabilityDict::new(&vec![4usize, 4]);
    assert_eq!(prob.entropy(), LOG2_SCALE);
}
