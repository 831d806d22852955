use tsptools::helpers::{is_valid_tour, random_solution, tour_from_draws};

#[test]
fn draws_take_the_nodes_out_one_by_one() {
    assert_eq!(tour_from_draws(5, &vec![2, 0, 1, 1, 0], false), vec![2, 0, 3, 4, 1]);
    assert_eq!(tour_from_draws(4, &vec![0, 0, 0, 0], false), vec![0, 1, 2, 3]);
    assert_eq!(tour_from_draws(4, &vec![3, 2, 1, 0], false), vec![3, 2, 1, 0]);
}

#[test]
fn draws_leave_node_0_first_when_asked() {
    assert_eq!(tour_from_draws(5, &vec![3, 0, 1, 0], true), vec![0, 4, 1, 3, 2]);
    assert_eq!(tour_from_draws(1, &vec![], true), vec![0]);
}

#[test]
fn no_node_gives_the_empty_tour() {
    assert_eq!(tour_from_draws(0, &vec![], false), Vec::<usize>::new());
    assert_eq!(tour_from_draws(0, &vec![], true), Vec::<usize>::new());
    assert_eq!(random_solution(0, Some(1), true), Vec::<usize>::new());
    assert_eq!(random_solution(0, None, false), Vec::<usize>::new());
}

#[test]
fn random_tours_are_permutations() {
    for n in 0..40 {
        for seed in 0..5 {
            let tour = random_solution(n, Some(seed), false);
            assert!(is_valid_tour(&tour, n));
            let mut sorted = tour.clone();
            sorted.sort();
            assert_eq!(sorted, (0..n).collect::<Vec<usize>>());
        }
    }
}

#[test]
fn random_tours_start_at_node_0_when_asked() {
    for n in 1..40 {
        let tour = random_solution(n, Some(11), true);
        assert!(is_valid_tour(&tour, n));
        assert_eq!(tour[0], 0);
    }
}

#[test]
fn the_same_seed_gives_the_same_tour() {
    for seed in 0..20 {
        assert_eq!(
            random_solution(50, Some(seed), false),
            random_solution(50, Some(seed), false)
        );
        assert_eq!(
            random_solution(50, Some(seed), true),
            random_solution(50, Some(seed), true)
        );
    }
}

#[test]
fn seeds_and_entropy_give_different_tours() {
    // Two tours of 100 nodes agree by chance once in 100! draws.
    assert_ne!(random_solution(100, Some(1), false), random_solution(100, Some(2), false));
    assert_ne!(random_solution(100, None, false), random_solution(100, None, false));
    assert!(is_valid_tour(&random_solution(100, None, true), 100));
}

#[test]
fn every_tour_of_three_nodes_is_drawn() {
    let mut seen = vec![];
    for seed in 0..200 {
        let tour = random_solution(3, Some(seed), false);
        if !seen.contains(&tour) {
            seen.push(tour);
        }
    }
    assert_eq!(seen.len(), 6);
}

#[test]
fn each_tour_has_one_sequence_of_draws() {
    let mut tours = vec![];
    for a in 0..4 {
        for b in 0..3 {
            for c in 0..2 {
                tours.push(tour_from_draws(4, &vec![a, b, c, 0], false));
            }
        }
    }
    assert_eq!(tours.len(), 24);
    tours.sort();
    tours.dedup();
    assert_eq!(tours.len(), 24);
    assert!(tours.iter().all(|t| is_valid_tour(t, 4)));

    let mut kept = vec![];
    for a in 0..3 {
        for b in 0..2 {
            kept.push(tour_from_draws(4, &vec![a, b, 0], true));
        }
    }
    kept.sort();
    kept.dedup();
    assert_eq!(kept.len(), 6);
    assert!(kept.iter().all(|t| is_valid_tour(t, 4) && t[0] == 0));
}
