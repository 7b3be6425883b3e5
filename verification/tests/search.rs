use egui_snarl::search::lower_bound;

#[test]
fn lower_bound_finds_first_true() {
    assert_eq!(lower_bound(2, 100, |n| n >= 10), 10);
    assert_eq!(lower_bound(0, 8, |n| n * n >= 20), 5);
}

#[test]
fn lower_bound_all_true_gives_min() {
    assert_eq!(lower_bound(3, 50, |_| true), 3);
}

#[test]
fn lower_bound_none_true_gives_max() {
    assert_eq!(lower_bound(2, 100, |_| false), 100);
}

#[test]
fn lower_bound_empty_range_gives_max() {
    assert_eq!(lower_bound(5, 5, |_| true), 5);
    assert_eq!(lower_bound(7, 3, |_| true), 3);
}

#[test]
fn lower_bound_gives_a_boundary_of_any_predicate() {
    let r = lower_bound(0, 10, |n| n % 3 == 0);
    assert_eq!(r, 9);
    assert!(r % 3 == 0 && (r - 1) % 3 != 0);
}
