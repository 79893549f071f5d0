use wfc_rust::domain::Domain;
use wfc_rust::simple_patterns::ora;

#[test]
fn bit_and_all_false() {
    let a = Domain(vec![true, true, true, true]);
    let b = Domain(vec![false, false, false, false]);
    assert_eq!(a.and(&b), Domain(vec![false, false, false, false]))
}

#[test]
fn bit_and_all_true() {
    let a = Domain(vec![true, true, true, true]);
    let b = Domain(vec![true, true, true, true]);
    assert_eq!(a.and(&b), Domain(vec![true, true, true, true]))
}

#[test]
fn filter_all_false() {
    let filter = Domain(vec![false, false, false, false]);
    let items = vec![0, 0, 0, 0];
    let empty: Vec<i32> = vec![];
    assert_eq!(empty, Domain::filter(&filter, &items));
}

#[test]
fn filter_some() {
    let filter = Domain(vec![true, false, true, false]);
    let items = vec![1, 0, 2, 0];
    let result: Vec<i32> = vec![1, 2];
    assert_eq!(result, Domain::filter(&filter, &items));
}

#[test]
fn andv_all_true() {
    let a = Domain(vec![true, true, true, true, true]);
    let b = Domain(vec![true, true, true, true, true]);
    let r = Domain(vec![true, true, true, true, true]);
    let ab = vec![a, b];
    assert_eq!(Domain::andv(&ab, 5), r);
}

#[test]
fn andv_alternating_doesnt_just_do_false() {
    let a = Domain(vec![true, false, true, false, true]);
    let b = Domain(vec![false, true, false, true, false]);
    let r = Domain(vec![false, false, false, false, false]);
    let ab = vec![a, b];
    assert_eq!(Domain::andv(&ab, 5), r);
}

#[test]
fn ora_all_true() {
    let a = [true, true, true, true, true];
    let b = [true, true, true, true, true];
    assert_eq!(ora(a, b), [true, true, true, true, true]);
}

#[test]
fn ora_all_false() {
    let a = [false, false, false, false, false];
    let b = [false, false, false, false, false];
    assert_eq!(ora(a, b), [false, false, false, false, false]);
}

#[test]
fn ora_one_true() {
    let a = [true, false, false, false, false];
    let b = [false, false, false, false, false];
    assert_eq!(ora(a, b), [true, false, false, false, false]);
}

#[test]
fn ora_alternating_is_all_true() {
    let a = [false, true, false, true, false];
    let b = [true, false, true, false, true];
    assert_eq!(ora(a, b), [true, true, true, true, true]);
}

#[test]
fn orv_any_column_set() {
    let a = Domain(vec![true, false, false]);
    let b = Domain(vec![false, false, true]);
    let r = Domain::orv(&vec![a, b]);
    assert_eq!(r, Domain(vec![true, false, true]));
}

#[test]
fn only_keeps_one() {
    let mut d = Domain::taut(4);
    d.only(2);
    assert_eq!(d, Domain(vec![false, false, true, false]));
    assert!(d.any());
    d.fill(false);
    assert!(!d.any());
}
