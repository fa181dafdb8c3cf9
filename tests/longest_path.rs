use interval_scheduling::{build_graph, Interval};

fn span(weight: u32, lower: f64, upper: f64) -> Interval {
    Interval::new(weight, lower.to_bits(), upper.to_bits())
}

#[test]
fn test_non_overlapping() {
    let spans = vec![
        span(1, 0.0, 2.0),
        span(1, 2.0, 4.0),
        span(1, 4.0, 6.0),
        span(1, 6.0, 8.0),
    ];
    let g = build_graph(&spans);
    let path = g.longest_path();

    assert_eq!(&path, &[0, 1, 2, 3]);
}

#[test]
fn test_simple_overlapping() {
    let spans = vec![
        span(1, 0.0, 2.0),
        span(1, 1.0, 3.0),
        span(1, 2.0, 4.0),
        span(1, 3.0, 5.0),
        span(1, 4.0, 6.0),
    ];
    let g = build_graph(&spans);
    let path = g.longest_path();

    assert_eq!(&path, &[0, 2, 4]);
}

#[test]
fn test_simple_weighted() {
    let spans = vec![span(1, 0.0, 2.0), span(10, 1.0, 3.0), span(1, 2.0, 4.0)];
    let g = build_graph(&spans);
    let path = g.longest_path();

    assert_eq!(&path, &[1]);
}

#[test]
fn path_follows_chain_order_not_input_order() {
    let spans = vec![span(1, 4.0, 6.0), span(1, 0.0, 2.0)];
    let path = build_graph(&spans).longest_path();
    assert_eq!(path, vec![1, 0]);
}

#[test]
fn empty_graph_gives_empty_path() {
    let spans: Vec<Interval> = Vec::new();
    assert_eq!(build_graph(&spans).longest_path(), Vec::<usize>::new());
}

#[test]
fn single_zero_weight_item_is_kept() {
    let spans = vec![span(0, 3.0, 5.0)];
    assert_eq!(build_graph(&spans).longest_path(), vec![0]);
}

#[test]
fn heavy_middle_beats_two_light_ends() {
    let spans = vec![span(3, 0.0, 2.0), span(7, 1.0, 5.0), span(3, 4.0, 6.0)];
    assert_eq!(build_graph(&spans).longest_path(), vec![1]);
}

#[test]
fn two_light_ends_beat_lighter_middle() {
    let spans = vec![span(3, 0.0, 2.0), span(5, 1.0, 5.0), span(3, 4.0, 6.0)];
    assert_eq!(build_graph(&spans).longest_path(), vec![0, 2]);
}

#[test]
fn nan_item_never_blocks_neighbours() {
    let spans = vec![
        span(5, 0.0, 2.0),
        span(9, f64::NAN, 3.0),
        span(5, 2.0, 4.0),
    ];
    assert_eq!(build_graph(&spans).longest_path(), vec![0, 2]);
}

#[test]
fn pairwise_order_of_selected_items() {
    let spans = vec![
        span(2, 0.0, 3.0),
        span(4, 2.0, 5.0),
        span(1, 5.0, 6.0),
        span(6, 4.0, 9.0),
        span(2, 9.0, 10.0),
        span(3, 1.0, 2.0),
    ];
    let path = build_graph(&spans).longest_path();
    for a in 0..path.len() {
        for b in 0..path.len() {
            if a != b {
                assert!(
                    spans[path[a]].compare(&spans[path[b]])
                        != interval_scheduling::Relation::Incomparable
                );
            }
        }
    }
    let total: u32 = path.iter().map(|i| spans[*i].weight()).sum();
    // [1,2]+[2,5]+[5,6]+[9,10] = 3+4+1+2 = 10; [1,2]+[4,9]+[9,10] = 11
    assert_eq!(total, 11);
}

#[test]
fn path_along_a_given_order() {
    let spans = vec![span(1, 0.0, 2.0), span(1, 2.0, 4.0)];
    let g = build_graph(&spans);
    assert_eq!(g.longest_path_along(&vec![3, 2, 1, 0]), vec![0, 1]);
}

#[test]
fn path_along_a_refused_order_is_empty() {
    let spans = vec![span(1, 0.0, 2.0), span(1, 2.0, 4.0)];
    let g = build_graph(&spans);
    assert!(g.longest_path_along(&vec![0, 1, 2, 3]).is_empty());
    assert!(g.longest_path_along(&vec![3, 2, 1]).is_empty());
    assert!(g.longest_path_along(&vec![3, 2, 2, 1, 0]).is_empty());
    assert!(g.longest_path_along(&vec![3, 2, 1, 0, 9]).is_empty());
}

#[test]
fn equal_weight_tie_takes_lowest_predecessor() {
    // Both [0,1.5] and [1,2] end before [2,3]; the lower node id wins.
    let spans = vec![span(1, 0.0, 1.5), span(1, 1.0, 2.0), span(1, 2.0, 3.0)];
    assert_eq!(build_graph(&spans).longest_path(), vec![0, 2]);
}
