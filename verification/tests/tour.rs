use tsptools::helpers::{
    check_distance_matrix, checked_tour_len, costs_fit, costs_mirror, is_valid_tour, tour_len,
    tour_len_wide, MatrixError,
};

fn six_nodes() -> Vec<Vec<i32>> {
    vec![
        vec![0, 12, 10, 19, 8, 14],
        vec![12, 0, 3, 7, 2, 13],
        vec![10, 3, 0, 6, 20, 4],
        vec![19, 7, 6, 0, 4, 11],
        vec![8, 2, 20, 4, 0, 9],
        vec![14, 13, 4, 11, 9, 0],
    ]
}

fn one_way() -> Vec<Vec<i32>> {
    vec![vec![0, 1, 2], vec![3, 0, 4], vec![5, 6, 0]]
}

#[test]
fn tour_len_adds_the_closing_edge() {
    // 12 + 3 + 6 + 4 + 9, and 14 from the last node back to the first.
    assert_eq!(tour_len(&vec![0, 1, 2, 3, 4, 5], &six_nodes()), 48);
}

#[test]
fn tour_len_closes_from_last_to_first() {
    // 0 -> 1 -> 2 -> 0 costs 1 + 4 + 5; the other way round 2 + 6 + 3.
    assert_eq!(tour_len(&vec![0, 1, 2], &one_way()), 10);
    assert_eq!(tour_len(&vec![2, 1, 0], &one_way()), 11);
}

#[test]
fn tour_len_of_one_node_is_its_loop() {
    assert_eq!(tour_len(&vec![0], &vec![vec![7]]), 7);
}

#[test]
fn tour_len_is_the_same_from_every_start() {
    let m = one_way();
    assert_eq!(tour_len(&vec![0, 1, 2], &m), 10);
    assert_eq!(tour_len(&vec![1, 2, 0], &m), 10);
    assert_eq!(tour_len(&vec![2, 0, 1], &m), 10);
    let m = six_nodes();
    let tour = vec![3, 0, 5, 1, 4, 2];
    let len = tour_len(&tour, &m);
    for r in 0..6 {
        let mut rotated = tour.clone();
        rotated.rotate_left(r);
        assert_eq!(tour_len(&rotated, &m), len);
    }
}

#[test]
fn tour_len_is_the_same_backwards_over_a_symmetric_matrix() {
    let m = six_nodes();
    let tour = vec![3, 0, 5, 1, 4, 2];
    let mut back = tour.clone();
    back.reverse();
    assert_eq!(tour_len(&tour, &m), 19 + 14 + 13 + 2 + 20 + 6);
    assert_eq!(tour_len(&back, &m), tour_len(&tour, &m));
}

#[test]
fn wide_and_checked_lengths_agree_with_tour_len() {
    let m = six_nodes();
    let tour = vec![0, 5, 2, 1, 3, 4];
    assert_eq!(tour_len(&tour, &m), 40);
    assert_eq!(tour_len_wide(&tour, &m), 40);
    assert_eq!(checked_tour_len(&tour, &m), Some(40));
}

#[test]
fn checked_tour_len_tells_when_the_length_does_not_fit() {
    let big = i32::MAX;
    let m = vec![vec![0, big], vec![big, 0]];
    assert_eq!(checked_tour_len(&vec![0, 1], &m), None);
    assert_eq!(tour_len_wide(&vec![0, 1], &m), 2 * (big as i128));
    let m = vec![vec![0, big], vec![0, 0]];
    assert_eq!(checked_tour_len(&vec![0, 1], &m), Some(big));
}

#[test]
fn valid_tours_hold_each_node_once() {
    assert!(is_valid_tour(&vec![2, 0, 1], 3));
    assert!(is_valid_tour(&vec![], 0));
    assert!(is_valid_tour(&vec![0], 1));
    // a node twice
    assert!(!is_valid_tour(&vec![0, 1, 1], 3));
    // a node that is none
    assert!(!is_valid_tour(&vec![0, 1, 3], 3));
    // too short, too long
    assert!(!is_valid_tour(&vec![0, 1], 3));
    assert!(!is_valid_tour(&vec![0, 1, 2, 0], 3));
}

#[test]
fn distance_matrices_are_square_and_not_negative() {
    assert_eq!(check_distance_matrix(&six_nodes()), Ok(()));
    assert_eq!(check_distance_matrix(&one_way()), Ok(()));
    assert_eq!(check_distance_matrix(&vec![]), Ok(()));
    assert_eq!(
        check_distance_matrix(&vec![vec![0, 1], vec![1]]),
        Err(MatrixError::NotSquare)
    );
    assert_eq!(
        check_distance_matrix(&vec![vec![0, 1, 2], vec![1, 0, 2]]),
        Err(MatrixError::NotSquare)
    );
    assert_eq!(
        check_distance_matrix(&vec![vec![0, -1], vec![1, 0]]),
        Err(MatrixError::NegativeCost)
    );
    // not square comes first
    assert_eq!(
        check_distance_matrix(&vec![vec![0, -1], vec![1]]),
        Err(MatrixError::NotSquare)
    );
}

#[test]
fn costs_fit_when_a_cost_for_each_node_stays_in_range() {
    assert!(costs_fit(&six_nodes()));
    let third = i32::MAX / 3;
    assert!(costs_fit(&vec![vec![0, third, 1], vec![1, 0, third], vec![third, 1, 0]]));
    assert!(!costs_fit(&vec![vec![0, third + 1, 1], vec![1, 0, 1], vec![1, 1, 0]]));
    assert!(costs_fit(&vec![]));
}

#[test]
fn costs_mirror_when_each_cost_is_the_cost_back() {
    assert!(costs_mirror(&six_nodes()));
    assert!(!costs_mirror(&one_way()));
    assert!(costs_mirror(&vec![]));
    assert!(costs_mirror(&vec![vec![3]]));
    assert!(!costs_mirror(&vec![vec![0, 1], vec![2, 0]]));
}
