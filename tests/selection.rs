use interval_scheduling::{decode_mask, encode_mask, remove_overlapping};

fn flat(items: &[(f64, f64, u32)]) -> Vec<u64> {
    let mut v = Vec::new();
    for (lower, upper, weight) in items {
        v.push(lower.to_bits());
        v.push(upper.to_bits());
        v.push(*weight as u64);
    }
    v
}

fn run(items: &[(f64, f64, u32)]) -> Vec<u8> {
    let inputs = flat(items);
    let mut output = vec![7u8; items.len()];
    remove_overlapping(&inputs, &mut output);
    output
}

#[test]
fn scenario_all_adjacent_selected() {
    let out = run(&[(0.0, 2.0, 1), (2.0, 4.0, 1), (4.0, 6.0, 1), (6.0, 8.0, 1)]);
    assert_eq!(out, vec![255, 255, 255, 255]);
}

#[test]
fn scenario_alternating_overlap() {
    let out = run(&[(0.0, 2.0, 1), (1.0, 3.0, 1), (2.0, 4.0, 1), (3.0, 5.0, 1), (4.0, 6.0, 1)]);
    assert_eq!(out, vec![255, 0, 255, 0, 255]);
}

#[test]
fn scenario_heavy_middle() {
    let out = run(&[(0.0, 2.0, 1), (1.0, 3.0, 10), (2.0, 4.0, 1)]);
    assert_eq!(out, vec![0, 255, 0]);
}

#[test]
fn scenario_single_zero_weight() {
    let out = run(&[(1.0, 3.0, 0)]);
    assert_eq!(out, vec![255]);
}

#[test]
fn scenario_empty_input() {
    let out = run(&[]);
    assert!(out.is_empty());
}

#[test]
fn boundary_touching_both_selected() {
    let out = run(&[(0.0, 2.0, 1), (2.0, 4.0, 1)]);
    assert_eq!(out, vec![255, 255]);
}

#[test]
fn degenerate_item_not_selected() {
    let out = run(&[(0.0, 2.0, 1), (f64::NAN, 1.0, 50), (2.0, 4.0, 1)]);
    assert_eq!(out, vec![255, 0, 255]);
}

#[test]
fn mask_encoding() {
    assert_eq!(encode_mask(4, &vec![2, 0]), vec![255, 0, 255, 0]);
    assert_eq!(encode_mask(3, &vec![]), vec![0, 0, 0]);
}

#[test]
fn mask_round_trip() {
    let mask = vec![0u8, 255, 255, 0, 255];
    let sel = decode_mask(&mask);
    assert_eq!(sel, vec![1, 2, 4]);
    assert_eq!(encode_mask(mask.len(), &sel), mask);
}

#[test]
fn same_input_gives_same_mask_whatever_was_in_output() {
    let items = [(0.0, 2.0, 3), (1.0, 3.0, 3), (2.0, 4.0, 3), (3.0, 5.0, 3)];
    let inputs = flat(&items);
    let mut first = vec![0u8; 4];
    let mut second = vec![9u8, 255, 1, 0];
    remove_overlapping(&inputs, &mut first);
    remove_overlapping(&inputs, &mut second);
    assert_eq!(first, second);
    // Ties between [0,2]+[2,4] and [1,3]+[3,5] go to the lower node ids.
    assert_eq!(first, vec![255, 0, 255, 0]);
}

#[test]
fn zero_length_interval_is_selected_with_its_weight() {
    let out = run(&[(1.0, 1.0, 5), (3.0, 4.0, 1)]);
    assert_eq!(out, vec![255, 255]);
}

#[test]
fn zero_length_interval_touching_both_neighbours() {
    let out = run(&[(0.0, 2.0, 1), (2.0, 2.0, 1), (2.0, 4.0, 1)]);
    assert_eq!(out, vec![255, 255, 255]);
}

#[test]
fn two_points_at_one_place_make_a_cycle_and_select_nothing() {
    let out = run(&[(0.0, 1.0, 4), (2.0, 2.0, 1), (2.0, 2.0, 1)]);
    assert_eq!(out, vec![0, 0, 0]);
}
