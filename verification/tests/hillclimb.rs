use tsptools::algorithms::hillclimb::{get_best_neighbor, get_neighbors, hillclimb, hillclimb_rand};
use tsptools::helpers::{is_valid_tour, tour_len};

fn six_nodes() -> Vec<Vec<i32>> {
    vec![
        vec![0, 12, 10, 19, 8, 14],
        vec![12, 0, 3, 7, 2, 13],
        vec![10, 3, 0, 6, 20, 4],
        vec![19, 7, 6, 0, 4, 11],
        vec![8, 2, 20, 4, 0, 9],
        vec![14, 13, 4, 11, 9, 0],
    ]
}

fn tours_from(prefix: &mut Vec<usize>, left: &mut Vec<usize>, out: &mut Vec<Vec<usize>>) {
    if left.is_empty() {
        out.push(prefix.clone());
        return;
    }
    for k in 0..left.len() {
        let node = left.remove(k);
        prefix.push(node);
        tours_from(prefix, left, out);
        prefix.pop();
        left.insert(k, node);
    }
}

/// The tours of `n` nodes that start at node 0.
fn starts(n: usize) -> Vec<Vec<usize>> {
    let mut out = vec![];
    tours_from(&mut vec![0], &mut (1..n).collect(), &mut out);
    out
}

#[test]
fn neighbors_are_the_swaps_in_scan_order() {
    let all = get_neighbors(&vec![0, 1, 2, 3], false);
    assert_eq!(
        all,
        vec![
            vec![1, 0, 2, 3],
            vec![2, 1, 0, 3],
            vec![3, 1, 2, 0],
            vec![0, 2, 1, 3],
            vec![0, 3, 2, 1],
            vec![0, 1, 3, 2],
        ]
    );
    let kept = get_neighbors(&vec![0, 1, 2, 3], true);
    assert_eq!(kept, vec![vec![0, 2, 1, 3], vec![0, 3, 2, 1], vec![0, 1, 3, 2]]);
}

#[test]
fn short_tours_have_no_neighbors() {
    assert_eq!(get_neighbors(&vec![0], false), Vec::<Vec<usize>>::new());
    assert_eq!(get_neighbors(&vec![0, 1], true), Vec::<Vec<usize>>::new());
    assert_eq!(get_neighbors(&vec![0, 1], false), vec![vec![1, 0]]);
}

#[test]
fn best_neighbor_is_the_first_of_the_shortest() {
    let m = six_nodes();
    let neighbors = vec![
        vec![0, 1, 2, 3, 4, 5],
        vec![0, 5, 2, 1, 3, 4],
        vec![0, 2, 1, 4, 3, 5],
        vec![0, 4, 3, 1, 2, 5],
    ];
    // lengths 48, 40, 44, 40
    assert_eq!(get_best_neighbor(&neighbors, &m), (vec![0, 5, 2, 1, 3, 4], 40));
}

#[test]
fn hillclimb_ends_in_the_known_optimum() {
    let m = six_nodes();
    assert_eq!(
        hillclimb(&vec![0, 1, 2, 3, 4, 5], &m, true),
        (vec![0, 5, 2, 1, 3, 4], 40)
    );
    assert_eq!(
        hillclimb(&vec![0, 1, 2, 3, 4, 5], &m, false),
        (vec![0, 5, 2, 1, 3, 4], 40)
    );
}

#[test]
fn hillclimb_leaves_a_tour_without_neighbors() {
    assert_eq!(hillclimb(&vec![0], &vec![vec![5]], false), (vec![0], 5));
    let m = vec![vec![0, 3], vec![4, 0]];
    assert_eq!(hillclimb(&vec![0, 1], &m, true), (vec![0, 1], 7));
}

#[test]
fn hillclimb_from_every_start_stays_above_the_optimum() {
    let m = six_nodes();
    // The shortest of the 120 tours that start at node 0.
    let optimal = 40;
    let all = starts(6);
    assert_eq!(all.len(), 120);
    assert_eq!(all.iter().map(|t| tour_len(t, &m)).min(), Some(optimal));
    let mut reached = 0;
    let mut ends_at_44 = 0;
    for start in &all {
        let (tour, len) = hillclimb(start, &m, true);
        assert!(is_valid_tour(&tour, 6));
        assert_eq!(tour[0], 0);
        assert_eq!(len, tour_len(&tour, &m));
        assert!(len <= tour_len(start, &m));
        assert!(len >= optimal);
        // no swap shortens it
        for neighbor in get_neighbors(&tour, true) {
            assert!(tour_len(&neighbor, &m) >= len);
        }
        if len == optimal {
            reached += 1;
        }
        if len == 44 {
            ends_at_44 += 1;
        }
    }
    assert_eq!(reached, 110);
    assert_eq!(ends_at_44, 10);
}

#[test]
fn hillclimb_rand_ends_in_a_local_optimum() {
    let m = six_nodes();
    let (tour, len) = hillclimb_rand(&m, Some(7), true);
    assert!(is_valid_tour(&tour, 6));
    assert_eq!(tour[0], 0);
    assert_eq!(len, tour_len(&tour, &m));
    assert!(len == 40 || len == 44);
    assert_eq!(hillclimb_rand(&m, Some(7), true), (tour, len));
}
