use std::sync::Mutex;
use tsptools::algorithms::hillclimb::hillclimb;
use tsptools::algorithms::two_opt::two_opt;
use tsptools::helpers::{is_valid_tour, tour_len};
use tsptools::optima::LocalOptima;
use tsptools::sampler::{
    descend, find_starting_point, sample, try_start, Algorithm, Attempt, StartingPoints,
};

fn six_nodes() -> Vec<Vec<i32>> {
    vec![
        vec![0, 12, 10, 19, 8, 14],
        vec![12, 0, 3, 7, 2, 13],
        vec![10, 3, 0, 6, 20, 4],
        vec![19, 7, 6, 0, 4, 11],
        vec![8, 2, 20, 4, 0, 9],
        vec![14, 13, 4, 11, 9, 0],
    ]
}

fn four_nodes() -> Vec<Vec<i32>> {
    vec![
        vec![0, 1, 5, 2],
        vec![1, 0, 3, 4],
        vec![5, 3, 0, 6],
        vec![2, 4, 6, 0],
    ]
}

fn tours_from(prefix: &mut Vec<usize>, left: &mut Vec<usize>, out: &mut Vec<Vec<usize>>) {
    if left.is_empty() {
        out.push(prefix.clone());
        return;
    }
    for k in 0..left.len() {
        let node = left.remove(k);
        prefix.push(node);
        tours_from(prefix, left, out);
        prefix.pop();
        left.insert(k, node);
    }
}

fn starts(n: usize) -> Vec<Vec<usize>> {
    let mut out = vec![];
    tours_from(&mut vec![0], &mut (1..n).collect(), &mut out);
    out
}

#[test]
fn starting_points_hold_what_was_entered() {
    let mut points = StartingPoints::new();
    assert!(!points.contains(&vec![0, 1, 2]));
    assert!(points.insert(vec![0, 1, 2]));
    assert!(points.contains(&vec![0, 1, 2]));
    assert!(!points.contains(&vec![0, 2, 1]));
    assert!(!points.insert(vec![0, 1, 2]));
    assert!(points.insert(vec![0, 2, 1]));
    let mut tours = points.into_tours();
    tours.sort();
    assert_eq!(tours, vec![vec![0, 1, 2], vec![0, 2, 1]]);
}

#[test]
fn no_starting_point_is_left_when_all_are_taken() {
    let m = four_nodes();
    let mut points = StartingPoints::new();
    for start in starts(4) {
        points.insert(start);
    }
    assert_eq!(find_starting_point(&mut points, &m, 0), None);
    assert_eq!(find_starting_point(&mut points, &m, 25), None);
    assert_eq!(points.into_tours().len(), 6);
}

#[test]
fn a_new_starting_point_is_entered() {
    let m = four_nodes();
    let mut points = StartingPoints::new();
    let first = find_starting_point(&mut points, &m, 0).unwrap();
    assert!(is_valid_tour(&first, 4));
    assert_eq!(first[0], 0);
    assert!(points.contains(&first));
    assert_eq!(points.into_tours(), vec![first]);
}

#[test]
fn the_one_starting_point_that_is_left_is_found() {
    let m = four_nodes();
    let mut points = StartingPoints::new();
    for start in starts(4) {
        if start != vec![0, 3, 1, 2] {
            points.insert(start);
        }
    }
    // Each draw misses it with chance 5 in 6.
    assert_eq!(find_starting_point(&mut points, &m, 1000), Some(vec![0, 3, 1, 2]));
    assert_eq!(find_starting_point(&mut points, &m, 1000), None);
}

#[test]
fn every_starting_point_is_found_once() {
    let m = four_nodes();
    let mut points = StartingPoints::new();
    let mut found = vec![];
    for _ in 0..6 {
        found.push(find_starting_point(&mut points, &m, 10000).unwrap());
    }
    found.sort();
    assert_eq!(found, starts(4));
    assert_eq!(find_starting_point(&mut points, &m, 10), None);
}

#[test]
fn descend_runs_the_chosen_search() {
    let m = six_nodes();
    let start = vec![0, 1, 2, 3, 4, 5];
    assert_eq!(descend(Algorithm::HillClimb, &start, &m), hillclimb(&start, &m, true));
    assert_eq!(descend(Algorithm::TwoOpt, &start, &m), two_opt(&start, &m, true));
    assert_eq!(descend(Algorithm::HillClimb, &start, &m), (vec![0, 5, 2, 1, 3, 4], 40));
    assert_eq!(descend(Algorithm::TwoOpt, &start, &m), (vec![0, 1, 4, 3, 2, 5], 42));
}

#[test]
fn sampling_every_start_counts_every_optimum() {
    let m = six_nodes();
    let mut optima = LocalOptima::new();
    let mut points = StartingPoints::new();
    let found = sample(120, 100000, &m, &mut optima, &mut points, Algorithm::HillClimb);
    assert_eq!(found, 120);
    assert_eq!(optima.recorded(), 120);
    assert_eq!(optima.get(&vec![0, 5, 2, 1, 3, 4]), Some((40, 57)));
    assert_eq!(optima.get(&vec![0, 4, 3, 1, 2, 5]), Some((40, 53)));
    assert_eq!(optima.get(&vec![0, 2, 1, 4, 3, 5]), Some((44, 5)));
    assert_eq!(optima.get(&vec![0, 5, 3, 4, 1, 2]), Some((44, 5)));
    assert_eq!(optima.get(&vec![0, 1, 2, 3, 4, 5]), None);
    // Nothing is left to start from.
    assert_eq!(sample(5, 50, &m, &mut optima, &mut points, Algorithm::HillClimb), 0);
    assert_eq!(optima.recorded(), 120);
    assert_eq!(points.into_tours().len(), 120);
    assert_eq!(optima.into_sorted_rows().len(), 4);
}

#[test]
fn sampling_stops_when_the_starts_run_out() {
    let m = four_nodes();
    let mut optima = LocalOptima::new();
    let mut points = StartingPoints::new();
    let found = sample(400, 200, &m, &mut optima, &mut points, Algorithm::TwoOpt);
    assert_eq!(found, 6);
    assert_eq!(optima.recorded(), 6);
    let rows = optima.into_sorted_rows();
    assert_eq!(rows.iter().map(|r| r.2).sum::<i32>(), 6);
    for (tour, len, _) in &rows {
        assert_eq!(*len, tour_len(tour, &m));
        assert_eq!(two_opt(tour, &m, true), (tour.clone(), *len));
    }
}

#[test]
fn four_workers_account_for_every_search() {
    let m = six_nodes();
    let optima = Mutex::new(LocalOptima::new());
    let points = Mutex::new(StartingPoints::new());
    let successes = Mutex::new(vec![]);
    let worker_count = 4;
    let sample_count = 400;
    // The workers take turns, one restart each: one of the orders in which
    // they can come to the two locks.
    let mut mine = vec![0; worker_count];
    let mut stopped = vec![false; worker_count];
    for _ in 0..sample_count / worker_count {
        for worker in 0..worker_count {
            if stopped[worker] {
                continue;
            }
            let start = {
                let mut points = points.lock().unwrap();
                find_starting_point(&mut points, &m, 5000)
            };
            let start = match start {
                Some(start) => start,
                None => {
                    stopped[worker] = true;
                    continue;
                }
            };
            let (tour, len) = descend(Algorithm::HillClimb, &start, &m);
            optima.lock().unwrap().record(tour, len);
            mine[worker] += 1;
        }
    }
    for worker in 0..worker_count {
        successes.lock().unwrap().push(mine[worker]);
    }
    let successes = successes.into_inner().unwrap();
    assert_eq!(successes.len(), 4);
    let total: i32 = successes.iter().sum();
    // There are 120 tours to start from, and with 5000 tries for each
    // one every one of them is found.
    assert_eq!(total, 120);
    let optima = optima.into_inner().unwrap();
    assert_eq!(optima.recorded(), total);
    let rows = optima.into_sorted_rows();
    assert_eq!(rows.iter().map(|r| r.2).sum::<i32>(), total);
    // Where each search ends does not depend on the order of the workers.
    let mut rows = rows;
    rows.sort();
    assert_eq!(
        rows,
        vec![
            (vec![0, 2, 1, 4, 3, 5], 44, 5),
            (vec![0, 4, 3, 1, 2, 5], 40, 53),
            (vec![0, 5, 2, 1, 3, 4], 40, 57),
            (vec![0, 5, 3, 4, 1, 2], 44, 5),
        ]
    );
    assert_eq!(points.into_inner().unwrap().into_tours().len(), 120);
}

#[test]
fn a_try_finds_a_new_tour_or_asks_again_or_gives_up() {
    let mut points = StartingPoints::new();
    assert_eq!(try_start(&mut points, vec![0, 1, 2], 0, 0), Attempt::Found(vec![0, 1, 2]));
    assert!(points.contains(&vec![0, 1, 2]));
    // taken, with retries left
    assert_eq!(try_start(&mut points, vec![0, 1, 2], 0, 3), Attempt::Again);
    assert_eq!(try_start(&mut points, vec![0, 1, 2], 2, 3), Attempt::Again);
    // taken, and the retries are spent
    assert_eq!(try_start(&mut points, vec![0, 1, 2], 3, 3), Attempt::Spent);
    assert_eq!(try_start(&mut points, vec![0, 1, 2], 0, 0), Attempt::Spent);
    // a new tour is found whatever the retries
    assert_eq!(try_start(&mut points, vec![0, 2, 1], 9, 3), Attempt::Found(vec![0, 2, 1]));
    assert_eq!(points.into_tours().len(), 2);
}

#[test]
fn sampling_nothing_changes_nothing() {
    let m = four_nodes();
    let mut optima = LocalOptima::new();
    let mut points = StartingPoints::new();
    optima.record(vec![0, 1, 2, 3], 12);
    points.insert(vec![0, 1, 2, 3]);
    assert_eq!(sample(0, 10, &m, &mut optima, &mut points, Algorithm::HillClimb), 0);
    assert_eq!(optima.recorded(), 1);
    assert_eq!(optima.get(&vec![0, 1, 2, 3]), Some((12, 1)));
    assert_eq!(points.into_tours(), vec![vec![0, 1, 2, 3]]);
}

#[test]
fn each_search_adds_one_starting_tour_and_one_count() {
    let m = six_nodes();
    let mut optima = LocalOptima::new();
    let mut points = StartingPoints::new();
    let found = sample(30, 100000, &m, &mut optima, &mut points, Algorithm::TwoOpt);
    assert_eq!(found, 30);
    assert_eq!(optima.recorded(), 30);
    let starts = points.into_tours();
    assert_eq!(starts.len(), 30);
    // The table is what the searches from these starting tours leave.
    let mut again = LocalOptima::new();
    for start in &starts {
        let (tour, len) = two_opt(start, &m, true);
        again.record(tour, len);
    }
    assert_eq!(optima.into_sorted_rows().len(), again.into_sorted_rows().len());
}
