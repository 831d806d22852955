use tsptools::optima::{sort_by_length, LocalOptima};

#[test]
fn a_new_table_is_empty() {
    let optima = LocalOptima::new();
    assert_eq!(optima.recorded(), 0);
    assert_eq!(optima.get(&vec![0, 1, 2]), None);
    assert_eq!(optima.into_sorted_rows(), vec![]);
}

#[test]
fn recording_counts_each_search() {
    let mut optima = LocalOptima::new();
    optima.record(vec![0, 1, 2], 10);
    assert_eq!(optima.get(&vec![0, 1, 2]), Some((10, 1)));
    assert_eq!(optima.recorded(), 1);
    optima.record(vec![0, 2, 1], 11);
    optima.record(vec![0, 1, 2], 10);
    optima.record(vec![0, 1, 2], 10);
    assert_eq!(optima.get(&vec![0, 1, 2]), Some((10, 3)));
    assert_eq!(optima.get(&vec![0, 2, 1]), Some((11, 1)));
    assert_eq!(optima.get(&vec![1, 0, 2]), None);
    assert_eq!(optima.recorded(), 4);
}

#[test]
fn the_first_length_of_a_tour_stays() {
    let mut optima = LocalOptima::new();
    optima.record(vec![0, 1], 5);
    optima.record(vec![0, 1], 9);
    assert_eq!(optima.get(&vec![0, 1]), Some((5, 2)));
}

#[test]
fn the_order_of_recording_does_not_matter() {
    let mut one = LocalOptima::new();
    one.record(vec![0, 1, 2], 10);
    one.record(vec![0, 2, 1], 11);
    one.record(vec![0, 1, 2], 10);
    let mut other = LocalOptima::new();
    other.record(vec![0, 1, 2], 10);
    other.record(vec![0, 1, 2], 10);
    other.record(vec![0, 2, 1], 11);
    assert_eq!(one.recorded(), other.recorded());
    assert_eq!(one.into_sorted_rows(), other.into_sorted_rows());
}

#[test]
fn rows_come_out_by_length() {
    let mut optima = LocalOptima::new();
    optima.record(vec![0, 3, 1, 2], 30);
    optima.record(vec![0, 1, 2, 3], 10);
    optima.record(vec![0, 2, 1, 3], 20);
    optima.record(vec![0, 1, 2, 3], 10);
    optima.record(vec![0, 1, 3, 2], 5);
    assert_eq!(
        optima.into_sorted_rows(),
        vec![
            (vec![0, 1, 3, 2], 5, 1),
            (vec![0, 1, 2, 3], 10, 2),
            (vec![0, 2, 1, 3], 20, 1),
            (vec![0, 3, 1, 2], 30, 1),
        ]
    );
}

#[test]
fn sorting_keeps_rows_of_one_length_in_their_order() {
    let mut rows = vec![
        (vec![3], 7, 1),
        (vec![1], 2, 1),
        (vec![4], 7, 2),
        (vec![2], 2, 2),
        (vec![0], 1, 9),
        (vec![5], 7, 3),
    ];
    sort_by_length(&mut rows);
    assert_eq!(
        rows,
        vec![
            (vec![0], 1, 9),
            (vec![1], 2, 1),
            (vec![2], 2, 2),
            (vec![3], 7, 1),
            (vec![4], 7, 2),
            (vec![5], 7, 3),
        ]
    );
    let mut none: Vec<(Vec<usize>, i32, i32)> = vec![];
    sort_by_length(&mut none);
    assert_eq!(none, vec![]);
}
