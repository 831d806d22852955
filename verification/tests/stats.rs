use tsptools::stats::{
    calculate_stats, covariance, distances_to_best, heights_above_best, mean, mean_product,
    plot_ranges, StatsError,
};

fn table() -> Vec<(Vec<usize>, i32, i32)> {
    vec![
        (vec![0, 5, 2, 1, 3, 4], 40, 57),
        (vec![0, 4, 3, 1, 2, 5], 40, 53),
        (vec![0, 2, 1, 4, 3, 5], 44, 5),
        (vec![0, 5, 3, 4, 1, 2], 44, 5),
    ]
}

#[test]
fn no_statistics_without_two_optima() {
    assert_eq!(calculate_stats(&vec![]), Err(StatsError::InsufficientSample));
    assert_eq!(
        calculate_stats(&vec![(vec![0, 1, 2], 10, 4)]),
        Err(StatsError::InsufficientSample)
    );
}

#[test]
fn statistics_of_two_optima() {
    let rows = vec![(vec![0, 1, 2, 3], 10, 4), (vec![0, 3, 2, 1], 17, 1)];
    let summary = calculate_stats(&rows).unwrap();
    assert_eq!(summary.distances, vec![1]);
    assert_eq!(summary.height_diff, vec![7]);
    assert_eq!(summary.mean_distance, 1);
    assert_eq!(summary.mean_height, 7);
    assert_eq!(summary.covariance, 0);
    assert_eq!(summary.variance_distance, 0);
    assert_eq!(summary.variance_height, 0);
}

#[test]
fn statistics_of_a_table() {
    let summary = calculate_stats(&table()).unwrap();
    assert_eq!(summary.distances, vec![2, 3, 3]);
    assert_eq!(summary.height_diff, vec![0, 4, 4]);
    // 8 / 3 and 8 / 3, rounded down
    assert_eq!(summary.mean_distance, 2);
    assert_eq!(summary.mean_height, 2);
    // 24 / 3 - 2 * 2
    assert_eq!(summary.covariance, 4);
    // 22 / 3 - 2 * 2, and 32 / 3 - 2 * 2
    assert_eq!(summary.variance_distance, 3);
    assert_eq!(summary.variance_height, 6);
}

#[test]
fn the_two_series() {
    assert_eq!(distances_to_best(&table()), vec![2, 3, 3]);
    assert_eq!(heights_above_best(&table()), vec![0, 4, 4]);
    assert_eq!(distances_to_best(&vec![(vec![0], 1, 1)]), vec![]);
    let low = vec![(vec![0], i32::MIN, 1), (vec![0], i32::MAX, 1)];
    assert_eq!(heights_above_best(&low), vec![u32::MAX as u64]);
}

#[test]
fn means_round_down() {
    assert_eq!(mean(&vec![1, 2]), 1);
    assert_eq!(mean(&vec![5]), 5);
    assert_eq!(mean(&vec![u64::MAX, u64::MAX, u64::MAX]), u64::MAX);
    assert_eq!(mean_product(&vec![1, 2, 3], &vec![4, 5, 6]), 10);
    let top = u32::MAX as u64;
    assert_eq!(mean_product(&vec![top, top], &vec![top, top]), top * top);
}

#[test]
fn covariance_can_be_negative() {
    assert_eq!(covariance(&vec![0, 4], &vec![4, 0]), -4);
    assert_eq!(covariance(&vec![0, 4], &vec![0, 4]), 4);
    assert_eq!(covariance(&vec![3, 3], &vec![1, 9]), 0);
}

#[test]
fn plot_ranges_leave_room_around_the_points() {
    assert_eq!(plot_ranges(&vec![2, 3, 3], &vec![0, 4, 4]), ((0, 5), (0, 104)));
    assert_eq!(plot_ranges(&vec![5, 3, 9, 4], &vec![1, 2, 3, 7]), ((1, 11), (0, 107)));
    // the least distance stays where it is below 2
    assert_eq!(plot_ranges(&vec![1, 6], &vec![0, 0]), ((1, 8), (0, 100)));
    assert_eq!(plot_ranges(&vec![0], &vec![9]), ((0, 2), (0, 109)));
    // up to where the room still fits
    let far = u64::MAX - 2;
    assert_eq!(
        plot_ranges(&vec![far, 7], &vec![u64::MAX, u64::MAX - 100]),
        ((5, u64::MAX), (0, u64::MAX))
    );
}
