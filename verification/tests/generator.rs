use tsptools::generator::{fill_edges, fill_full, fill_graph, place_edge, Fill};
use tsptools::rng::Generator;

fn zeros(n: usize) -> Vec<Vec<i32>> {
    vec![vec![0; n]; n]
}

#[test]
fn a_full_graph_has_a_weight_for_every_pair() {
    let mut m = zeros(8);
    assert_eq!(fill_graph(&mut m, Fill::Full, Some(5), false, false, 0), 0);
    for r in 0..8 {
        for c in 0..8 {
            if r == c {
                assert_eq!(m[r][c], 0);
            } else {
                assert!(1 <= m[r][c] && m[r][c] < 100);
            }
        }
    }
}

#[test]
fn a_full_graph_can_have_loops_and_be_mirrored() {
    let mut m = zeros(8);
    fill_graph(&mut m, Fill::Full, Some(5), true, true, 0);
    for r in 0..8 {
        for c in 0..8 {
            assert!(1 <= m[r][c] && m[r][c] < 100);
            assert_eq!(m[r][c], m[c][r]);
        }
    }
}

#[test]
fn the_same_seed_gives_the_same_graph() {
    let mut one = zeros(10);
    let mut other = zeros(10);
    fill_graph(&mut one, Fill::Full, Some(77), false, false, 0);
    fill_graph(&mut other, Fill::Full, Some(77), false, false, 0);
    assert_eq!(one, other);
    let mut third = zeros(10);
    fill_graph(&mut third, Fill::Full, Some(78), false, false, 0);
    assert_ne!(one, third);
    let mut sparse_one = zeros(10);
    let mut sparse_other = zeros(10);
    fill_graph(&mut sparse_one, Fill::Edges(20), Some(1), false, true, u64::MAX);
    fill_graph(&mut sparse_other, Fill::Edges(20), Some(1), false, true, u64::MAX);
    assert_eq!(sparse_one, sparse_other);
}

#[test]
fn edges_are_placed_one_by_one() {
    let mut m = zeros(10);
    let left = fill_graph(&mut m, Fill::Edges(20), Some(3), false, true, u64::MAX);
    assert_eq!(left, 0);
    let placed = m.iter().flatten().filter(|w| **w != 0).count();
    assert_eq!(placed, 20);
    for r in 0..10 {
        assert_eq!(m[r][r], 0);
        for c in 0..10 {
            assert!(0 <= m[r][c] && m[r][c] < 100);
        }
    }
}

#[test]
fn mirrored_edges_count_twice() {
    let mut m = zeros(10);
    let left = fill_graph(&mut m, Fill::Edges(20), Some(3), false, false, u64::MAX);
    assert!(left == 0 || left == -1);
    let placed = m.iter().flatten().filter(|w| **w != 0).count() as i32;
    assert_eq!(placed, 20 - left);
    for r in 0..10 {
        for c in 0..10 {
            assert_eq!(m[r][c], m[c][r]);
        }
    }
}

#[test]
fn no_edge_is_placed_without_draws_or_edges() {
    let mut m = zeros(4);
    assert_eq!(fill_graph(&mut m, Fill::Edges(5), Some(3), true, true, 0), 5);
    assert_eq!(m, zeros(4));
    assert_eq!(fill_graph(&mut m, Fill::Edges(0), Some(3), true, true, 100), 0);
    assert_eq!(fill_graph(&mut m, Fill::Edges(-2), Some(3), true, true, 100), -2);
    assert_eq!(m, zeros(4));
    // a full matrix takes no edge, however many cells are drawn
    let mut full = vec![vec![1; 3]; 3];
    assert_eq!(fill_graph(&mut full, Fill::Edges(2), Some(3), true, true, 1000), 2);
    assert_eq!(full, vec![vec![1; 3]; 3]);
}

#[test]
fn place_edge_fills_an_empty_cell() {
    let mut m = zeros(3);
    assert_eq!(place_edge(&mut m, 0, 2, 7, false, true, 5), 4);
    assert_eq!(m, vec![vec![0, 0, 7], vec![0, 0, 0], vec![0, 0, 0]]);
    // the cell is taken
    assert_eq!(place_edge(&mut m, 0, 2, 9, false, true, 4), 4);
    assert_eq!(m, vec![vec![0, 0, 7], vec![0, 0, 0], vec![0, 0, 0]]);
    // mirrored
    assert_eq!(place_edge(&mut m, 1, 0, 8, false, false, 4), 2);
    assert_eq!(m, vec![vec![0, 8, 7], vec![8, 0, 0], vec![0, 0, 0]]);
    // the mirror cell is taken over
    assert_eq!(place_edge(&mut m, 2, 0, 3, false, false, 2), 0);
    assert_eq!(m, vec![vec![0, 8, 3], vec![8, 0, 0], vec![3, 0, 0]]);
    // loops
    assert_eq!(place_edge(&mut m, 1, 1, 6, false, false, 1), 1);
    assert_eq!(m[1][1], 0);
    assert_eq!(place_edge(&mut m, 1, 1, 6, true, false, 1), 0);
    assert_eq!(m[1][1], 6);
}

#[test]
fn each_draw_on_an_empty_cell_places_an_edge() {
    // One cell, one draw: the cell takes a weight, and no edge is left.
    let mut rng = Generator::new(Some(9));
    let mut m = zeros(1);
    assert_eq!(fill_edges(&mut m, &mut rng, 1, true, true, 1), 0);
    assert!(1 <= m[0][0] && m[0][0] < 100);
    // The cell is taken: the draws run out, and the edge is left.
    assert_eq!(fill_edges(&mut m, &mut rng, 1, true, true, 50), 1);
    // Without loops the one cell takes nothing.
    let mut m = zeros(1);
    assert_eq!(fill_edges(&mut m, &mut rng, 3, false, true, 50), 3);
    assert_eq!(m, zeros(1));
}

#[test]
fn the_draws_end_with_the_edges_or_with_the_budget() {
    let mut rng = Generator::new(Some(4));
    let mut m = zeros(6);
    // Two draws place two edges at most.
    let left = fill_edges(&mut m, &mut rng, 10, true, true, 2);
    let placed = m.iter().flatten().filter(|w| **w != 0).count() as i32;
    assert!(placed <= 2);
    assert_eq!(left, 10 - placed);
    // With draws enough all are placed.
    let left = fill_edges(&mut m, &mut rng, left, true, true, u64::MAX);
    assert_eq!(left, 0);
    assert_eq!(m.iter().flatten().filter(|w| **w != 0).count(), 10);
}

#[test]
fn a_full_fill_goes_on_where_the_generator_stands() {
    // Two fills from one generator are the fill of the two matrices in turn.
    let mut rng = Generator::new(Some(21));
    let mut first = zeros(3);
    let mut second = zeros(3);
    fill_full(&mut first, &mut rng, false, false);
    fill_full(&mut second, &mut rng, false, false);
    assert_ne!(first, second);
    let mut again = zeros(3);
    fill_graph(&mut again, Fill::Full, Some(21), false, false, 0);
    assert_eq!(first, again);
    // Mirrored, the cell below the diagonal gives its weight to the one above.
    let mut plain = zeros(3);
    let mut mirrored = zeros(3);
    fill_graph(&mut plain, Fill::Full, Some(5), false, false, 0);
    fill_graph(&mut mirrored, Fill::Full, Some(5), false, true, 0);
    for r in 0..3 {
        for c in 0..r {
            assert_eq!(mirrored[r][c], plain[r][c]);
            assert_eq!(mirrored[c][r], plain[r][c]);
        }
    }
}
