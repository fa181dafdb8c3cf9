use interval_scheduling::{Interval, Relation};

fn span(weight: u32, lower: f64, upper: f64) -> Interval {
    Interval::new(weight, lower.to_bits(), upper.to_bits())
}

#[test]
fn touching_ends_are_ordered() {
    let a = span(1, 0.0, 2.0);
    let b = span(1, 2.0, 4.0);
    assert_eq!(a.compare(&b), Relation::Before);
    assert_eq!(b.compare(&a), Relation::After);
}

#[test]
fn overlap_is_incomparable() {
    let a = span(1, 0.0, 2.0);
    let b = span(1, 1.0, 3.0);
    assert_eq!(a.compare(&b), Relation::Incomparable);
    assert_eq!(b.compare(&a), Relation::Incomparable);
}

#[test]
fn swapped_bounds_are_normalised() {
    let a = span(4, 5.0, 1.0);
    assert!(a.is_proper());
    assert_eq!(a.weight(), 4);
    assert_eq!(a.compare(&span(1, 5.0, 7.0)), Relation::Before);
    assert_eq!(a.compare(&span(1, -3.0, 1.0)), Relation::After);
}

#[test]
fn nan_bound_gives_degenerate_interval() {
    let a = span(9, f64::NAN, 1.0);
    assert!(!a.is_proper());
    assert_eq!(a.weight(), 0);
    assert_eq!(a.compare(&span(1, 2.0, 3.0)), Relation::Incomparable);
    assert_eq!(span(1, -3.0, -2.0).compare(&a), Relation::Incomparable);
}

#[test]
fn equal_bounds_give_zero_length_interval() {
    let a = span(9, 2.0, 2.0);
    assert!(a.is_proper());
    assert_eq!(a.weight(), 9);
    assert_eq!(a.compare(&span(1, 2.0, 3.0)), Relation::Before);
    assert_eq!(a.compare(&span(1, 1.0, 2.0)), Relation::After);
    assert_eq!(a.compare(&span(1, 1.0, 3.0)), Relation::Incomparable);
}

#[test]
fn negative_and_zero_bounds_order_numerically() {
    assert_eq!(span(1, -5.0, -0.0).compare(&span(1, 0.0, 1.0)), Relation::Before);
    assert_eq!(span(1, -5.0, -1.5).compare(&span(1, -1.5, -1.0)), Relation::Before);
    assert_eq!(span(1, -5.0, -1.0).compare(&span(1, -1.5, 1.0)), Relation::Incomparable);
    assert_eq!(span(1, 0.5, 0.75).compare(&span(1, 0.7, 1.0)), Relation::Incomparable);
}

#[test]
fn triple_decoding() {
    let x = Interval::from_f64_slice(&[3.0f64.to_bits(), 1.0f64.to_bits(), 7]).unwrap();
    assert_eq!(x.weight(), 7);
    assert_eq!(x.compare(&span(1, 3.0, 4.0)), Relation::Before);
    assert!(Interval::from_f64_slice(&[1, 2]).is_none());
    assert!(Interval::from_f64_slice(&[1, 2, 3, 4]).is_none());
}

#[test]
fn triple_weight_saturates() {
    let x = Interval::from_f64_slice(&[0.0f64.to_bits(), 1.0f64.to_bits(), 1 << 40]).unwrap();
    assert_eq!(x.weight(), u32::MAX);
}

#[test]
fn equality_of_normalised_intervals() {
    assert_eq!(span(2, 1.0, 3.0), span(2, 3.0, 1.0));
    assert_ne!(span(2, 1.0, 3.0), span(3, 1.0, 3.0));
    let degenerate = span(2, f64::NAN, 3.0);
    assert_ne!(degenerate, degenerate);
    assert_ne!(degenerate, span(5, 1.0, 1.0));
    assert_eq!(span(5, 1.0, 1.0), span(5, 1.0, 1.0));
}
