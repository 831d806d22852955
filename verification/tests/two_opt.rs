use tsptools::algorithms::two_opt::{reverse_between, two_opt, two_opt_random};
use tsptools::helpers::{is_valid_tour, tour_len};

fn six_nodes() -> Vec<Vec<i32>> {
    vec![
        vec![0, 12, 10, 19, 8, 14],
        vec![12, 0, 3, 7, 2, 13],
        vec![10, 3, 0, 6, 20, 4],
        vec![19, 7, 6, 0, 4, 11],
        vec![8, 2, 20, 4, 0, 9],
        vec![14, 13, 4, 11, 9, 0],
    ]
}

fn tours_from(prefix: &mut Vec<usize>, left: &mut Vec<usize>, out: &mut Vec<Vec<usize>>) {
    if left.is_empty() {
        out.push(prefix.clone());
        return;
    }
    for k in 0..left.len() {
        let node = left.remove(k);
        prefix.push(node);
        tours_from(prefix, left, out);
        prefix.pop();
        left.insert(k, node);
    }
}

#[test]
fn rev_test() {
    let a = 2;
    let b = 5;
    let mut v = vec![1, 2, 3, 4, 5, 6];
    reverse_between(&mut v, a, b);

    assert_eq!(v, vec![1, 2, 6, 5, 4, 3]);
}

#[test]
fn reversing_one_entry_or_none_changes_nothing() {
    let mut v = vec![1, 2, 3];
    reverse_between(&mut v, 1, 1);
    assert_eq!(v, vec![1, 2, 3]);
    reverse_between(&mut v, 2, 1);
    assert_eq!(v, vec![1, 2, 3]);
    reverse_between(&mut v, 0, 2);
    assert_eq!(v, vec![3, 2, 1]);
}

#[test]
fn two_opt_makes_the_best_move_of_each_pass() {
    let m = six_nodes();
    assert_eq!(
        two_opt(&vec![0, 1, 2, 3, 4, 5], &m, true),
        (vec![0, 1, 4, 3, 2, 5], 42)
    );
    assert_eq!(
        two_opt(&vec![0, 1, 2, 3, 4, 5], &m, false),
        (vec![0, 4, 3, 1, 2, 5], 40)
    );
}

#[test]
fn two_opt_leaves_short_tours_as_they_are() {
    assert_eq!(two_opt(&vec![0], &vec![vec![5]], false), (vec![0], 5));
    let m = vec![vec![0, 3], vec![3, 0]];
    assert_eq!(two_opt(&vec![0, 1], &m, false), (vec![0, 1], 6));
    assert_eq!(two_opt(&vec![0, 1], &m, true), (vec![0, 1], 6));
}

#[test]
fn two_opt_never_lengthens_a_tour() {
    let m = six_nodes();
    let mut all = vec![];
    tours_from(&mut vec![0], &mut (1..6).collect(), &mut all);
    let mut shortest = 0;
    for start in &all {
        let (tour, len) = two_opt(start, &m, true);
        assert!(is_valid_tour(&tour, 6));
        assert_eq!(tour[0], 0);
        assert_eq!(tour[1], start[1]);
        assert_eq!(len, tour_len(&tour, &m));
        assert!(len <= tour_len(start, &m));
        assert!(len >= 40);
        if len == 40 {
            shortest += 1;
        }
    }
    assert_eq!(shortest, 45);
}

#[test]
fn two_opt_random_ends_in_a_local_optimum() {
    let m = six_nodes();
    let (tour, len) = two_opt_random(&m, Some(3), true);
    assert!(is_valid_tour(&tour, 6));
    assert_eq!(tour[0], 0);
    assert_eq!(len, tour_len(&tour, &m));
    assert_eq!(two_opt(&tour, &m, true), (tour.clone(), len));
    assert_eq!(two_opt_random(&m, Some(3), true), (tour, len));
}

#[test]
fn two_opt_stops_where_the_passes_would_not_end() {
    // Over this matrix the passes from this tour go round for ever: the
    // search makes as many as the tour is long, 27.
    let m = vec![
        vec![0, 6, 6, 6],
        vec![5, 0, 4, 5],
        vec![7, 3, 0, 9],
        vec![8, 2, 0, 0],
    ];
    let start = vec![0, 1, 2, 3];
    assert_eq!(tour_len(&start, &m), 27);
    assert_eq!(two_opt(&start, &m, false), (vec![0, 1, 3, 2], 18));
}

#[test]
fn two_opt_may_lengthen_a_tour_over_costs_that_do_not_mirror() {
    let m = vec![
        vec![0, 8, 3, 5],
        vec![3, 0, 3, 7],
        vec![4, 0, 0, 6],
        vec![8, 1, 2, 0],
    ];
    let start = vec![0, 3, 2, 1];
    assert_eq!(tour_len(&start, &m), 10);
    assert_eq!(two_opt(&start, &m, false), (vec![0, 3, 1, 2], 13));
    assert_eq!(two_opt(&start, &m, true), (vec![0, 3, 2, 1], 10));
}
