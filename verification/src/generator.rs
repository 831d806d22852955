//! Random graphs: a matrix filled with random weights, in full or edge by
//! edge.

use vstd::prelude::*;
use crate::model::{is_square, scanned_before};
use crate::rng::{no_draws, range_draw, sample_below, sample_between, seeded_draw, Generator};

verus! {

/// How much of a graph gets a weight.
#[derive(Debug, Clone, Copy, PartialEq, Eq, Structural)]
pub enum Fill {
    /// Every pair of nodes.
    Full,
    /// This number of edges, drawn at random.
    Edges(i32),
}

/// A weight of a random graph: from 1 to 99.
pub open spec fn is_weight(w: i32) -> bool {
    1 <= w < 100
}

/// `after` has the rows and columns of `before`.
pub open spec fn same_shape(before: Seq<Seq<i32>>, after: Seq<Seq<i32>>) -> bool {
    &&& after.len() == before.len()
    &&& forall|i: int| 0 <= i < after.len() ==> (#[trigger] after[i]).len() == before[i].len()
}

/// The matrix after a weight has been drawn for the cell in row `row` and
/// column `col`: nothing changes where the cell holds a weight already,
/// or where it lies on the diagonal and loops are not allowed; else the
/// cell takes the weight, and with `mirror` the cell across the diagonal
/// takes it too.
pub open spec fn with_edge(
    m: Seq<Seq<i32>>,
    row: int,
    col: int,
    weight: i32,
    allow_loops: bool,
    mirror: bool,
) -> Seq<Seq<i32>> {
    if m[row][col] != 0 || (row == col && !allow_loops) {
        m
    } else if row != col && mirror {
        let placed = m.update(row, m[row].update(col, weight));
        placed.update(col, placed[col].update(row, weight))
    } else {
        m.update(row, m[row].update(col, weight))
    }
}

/// The number of edges that are still to place after a weight has been
/// drawn for a cell: one less for each cell that took it.
pub open spec fn edges_after(
    m: Seq<Seq<i32>>,
    row: int,
    col: int,
    allow_loops: bool,
    mirror: bool,
    edges: int,
) -> int {
    if m[row][col] != 0 || (row == col && !allow_loops) {
        edges
    } else if row != col && mirror {
        edges - 2
    } else {
        edges - 1
    }
}

/// Places one edge of weight `weight` in the cell in row `row` and column
/// `col`, unless the cell holds a weight already. Returns the number of
/// edges that are still to place.
pub fn place_edge(
    distance_matrix: &mut Vec<Vec<i32>>,
    row: usize,
    col: usize,
    weight: i32,
    allow_loops: bool,
    is_directed: bool,
    edges: i32,
) -> (left: i32)
    requires
        is_square(old(distance_matrix).deep_view()),
        row < old(distance_matrix).len(),
        col < old(distance_matrix).len(),
        edges > i32::MIN + 1,
    ensures
        final(distance_matrix).deep_view() == with_edge(
            old(distance_matrix).deep_view(),
            row as int,
            col as int,
            weight,
            allow_loops,
            !is_directed,
        ),
        left == edges_after(
            old(distance_matrix).deep_view(),
            row as int,
            col as int,
            allow_loops,
            !is_directed,
            edges as int,
        ),
        is_square(final(distance_matrix).deep_view()),
{
    let ghost before = distance_matrix.deep_view();
    let mut edges: i32 = edges;
    assert(before[row as int].len() == before.len());
    assert(before[col as int].len() == before.len());
    if distance_matrix[row][col] != 0 {
        return edges;
    }
    if col != row {
        distance_matrix[row][col] = weight;
        if !is_directed {
            distance_matrix[col][row] = weight;
            edges -= 1;
        }
        edges -= 1;
    } else if allow_loops {
        distance_matrix[row][col] = weight;
        edges -= 1;
    }
    assert(distance_matrix.deep_view() =~~= with_edge(
        before,
        row as int,
        col as int,
        weight,
        allow_loops,
        !is_directed,
    ));
    edges
}

/// The draws after `k` more weights have been drawn.
pub open spec fn weights_drawn(drawn: Seq<(int, int, int)>, k: int) -> Seq<(int, int, int)> {
    drawn + Seq::new(k as nat, |i: int| range_draw(1, 100))
}

/// The number of weights that a full fill of `n` nodes draws before it
/// comes to the cell in row `row` and column `col`: one for each cell
/// before it, the cells of the diagonal left out unless loops are
/// allowed.
pub open spec fn cells_before(n: int, row: int, col: int, allow_loops: bool) -> int {
    if allow_loops {
        row * n + col
    } else if col <= row {
        row * (n - 1) + col
    } else {
        row * (n - 1) + col - 1
    }
}

/// The weight that a generator made from `seed`, after the draws
/// `drawn`, gives to the cell in row `r` and column `c` in a full fill.
pub open spec fn weight_of_cell(
    seed: u64,
    drawn: Seq<(int, int, int)>,
    n: int,
    r: int,
    c: int,
    allow_loops: bool,
) -> int {
    seeded_draw(seed, weights_drawn(drawn, cells_before(n, r, c, allow_loops) + 1))
}

/// What the cell in row `r` and column `c` holds when a full fill stands
/// before the cell in row `row` and column `col`: the weight of the cell
/// once the fill has come by; with `is_directed`, the weight of the cell
/// across the diagonal where that came later; and `was` before.
pub open spec fn cell_at(
    seed: u64,
    drawn: Seq<(int, int, int)>,
    n: int,
    r: int,
    c: int,
    allow_loops: bool,
    is_directed: bool,
    was: i32,
    row: int,
    col: int,
) -> int {
    let own = scanned_before(r, c, row, col);
    let twin = scanned_before(c, r, row, col);
    if r == c {
        if allow_loops && own {
            weight_of_cell(seed, drawn, n, r, c, allow_loops)
        } else {
            was as int
        }
    } else if is_directed && twin && (r < c || !own) {
        weight_of_cell(seed, drawn, n, c, r, allow_loops)
    } else if own {
        weight_of_cell(seed, drawn, n, r, c, allow_loops)
    } else {
        was as int
    }
}

/// What the cell in row `r` and column `c` holds after a full fill by a
/// generator made from `seed`, after the draws `drawn`.
pub open spec fn full_cell(
    seed: u64,
    drawn: Seq<(int, int, int)>,
    n: int,
    r: int,
    c: int,
    allow_loops: bool,
    is_directed: bool,
    was: i32,
) -> int {
    cell_at(seed, drawn, n, r, c, allow_loops, is_directed, was, n, 0)
}

/// Gives every pair of different nodes a random weight, and with
/// `allow_loops` every node a loop. With `is_directed` the weight from
/// one node to another is the weight back.
pub fn fill_full(
    distance_matrix: &mut Vec<Vec<i32>>,
    rng: &mut Generator,
    allow_loops: bool,
    is_directed: bool,
)
    requires
        is_square(old(distance_matrix).deep_view()),
    ensures
        same_shape(old(distance_matrix).deep_view(), final(distance_matrix).deep_view()),
        forall|r: int, c: int|
            0 <= r < final(distance_matrix).len() && 0 <= c < final(distance_matrix).len() && (r
                != c || allow_loops) ==> is_weight(#[trigger] final(distance_matrix)[r][c]),
        forall|r: int|
            0 <= r < final(distance_matrix).len() && !allow_loops
                ==> #[trigger] final(distance_matrix)[r][r] == old(distance_matrix)[r][r],
        is_directed ==> forall|r: int, c: int|
            0 <= r < final(distance_matrix).len() && 0 <= c < final(distance_matrix).len()
                ==> #[trigger] final(distance_matrix)[r][c] == final(distance_matrix)[c][r],
        final(rng).seed() == old(rng).seed(),
        final(rng).drawn() == weights_drawn(
            old(rng).drawn(),
            cells_before(
                old(distance_matrix).len() as int,
                old(distance_matrix).len() as int,
                0,
                allow_loops,
            ),
        ),
        old(rng).seed() is Some ==> forall|r: int, c: int|
            0 <= r < final(distance_matrix).len() && 0 <= c < final(distance_matrix).len()
                ==> #[trigger] final(distance_matrix)[r][c] == full_cell(
                old(rng).seed()->0,
                old(rng).drawn(),
                old(distance_matrix).len() as int,
                r,
                c,
                allow_loops,
                is_directed,
                old(distance_matrix)[r][c],
            ),
{
    let n: usize = distance_matrix.len();
    let ghost before = distance_matrix.deep_view();
    let ghost seed = rng.seed();
    let ghost drawn = rng.drawn();
    assert forall|i: int| 0 <= i < n implies (#[trigger] distance_matrix[i]).len() == n by {
        assert(before[i].len() == n);
    }
    assert forall|r: int, c: int| 0 <= r < n && 0 <= c < n implies #[trigger] distance_matrix[r][c]
        == before[r][c] by {
        assert(before[r].len() == n);
    }
    assert(weights_drawn(drawn, 0) =~= drawn);
    let mut row: usize = 0;
    while row < n
        invariant
            row <= n,
            n == distance_matrix.len(),
            forall|i: int| 0 <= i < n ==> (#[trigger] distance_matrix[i]).len() == n,
            forall|r: int, c: int|
                0 <= r < row && 0 <= c < n && (r != c || allow_loops) ==> is_weight(
                    #[trigger] distance_matrix[r][c],
                ),
            is_directed ==> forall|r: int, c: int|
                0 <= r < row && 0 <= c < n && r != c ==> is_weight(
                    #[trigger] distance_matrix[c][r],
                ) && distance_matrix[c][r] == distance_matrix[r][c],
            forall|r: int|
                0 <= r < n && !allow_loops ==> #[trigger] distance_matrix[r][r] == before[r][r],
            before.len() == n,
            rng.seed() == seed,
            rng.drawn() == weights_drawn(drawn, cells_before(n as int, row as int, 0, allow_loops)),
            seed is Some ==> forall|r: int, c: int|
                0 <= r < n && 0 <= c < n ==> #[trigger] distance_matrix[r][c] == cell_at(
                    seed->0,
                    drawn,
                    n as int,
                    r,
                    c,
                    allow_loops,
                    is_directed,
                    before[r][c],
                    row as int,
                    0,
                ),
        decreases n - row,
    {
        let mut col: usize = 0;
        while col < n
            invariant
                row < n,
                col <= n,
                n == distance_matrix.len(),
                forall|i: int| 0 <= i < n ==> (#[trigger] distance_matrix[i]).len() == n,
                forall|r: int, c: int|
                    0 <= r < row && 0 <= c < n && (r != c || allow_loops) ==> is_weight(
                        #[trigger] distance_matrix[r][c],
                    ),
                is_directed ==> forall|r: int, c: int|
                    0 <= r < row && 0 <= c < n && r != c ==> is_weight(
                        #[trigger] distance_matrix[c][r],
                    ) && distance_matrix[c][r] == distance_matrix[r][c],
                forall|c: int|
                    0 <= c < col && (row != c || allow_loops) ==> is_weight(
                        #[trigger] distance_matrix[row as int][c],
                    ),
                is_directed ==> forall|c: int|
                    0 <= c < col && row != c ==> is_weight(
                        #[trigger] distance_matrix[c][row as int],
                    ) && distance_matrix[c][row as int] == distance_matrix[row as int][c],
                forall|r: int|
                    0 <= r < n && !allow_loops ==> #[trigger] distance_matrix[r][r] == before[r][r],
                before.len() == n,
                rng.seed() == seed,
                rng.drawn() == weights_drawn(
                    drawn,
                    cells_before(n as int, row as int, col as int, allow_loops),
                ),
                seed is Some ==> forall|r: int, c: int|
                    0 <= r < n && 0 <= c < n ==> #[trigger] distance_matrix[r][c] == cell_at(
                        seed->0,
                        drawn,
                        n as int,
                        r,
                        c,
                        allow_loops,
                        is_directed,
                        before[r][c],
                        row as int,
                        col as int,
                    ),
            decreases n - col,
        {
            let ghost count = cells_before(n as int, row as int, col as int, allow_loops);
            let ghost held = distance_matrix@;
            proof {
                assert(weights_drawn(drawn, count).push(range_draw(1, 100)) =~= weights_drawn(
                    drawn,
                    count + 1,
                ));
            }
            if col != row {
                let weight: i32 = sample_between(rng, 1, 100);
                distance_matrix[row][col] = weight;
                if is_directed {
                    distance_matrix[col][row] = weight;
                }
            } else if allow_loops {
                let weight: i32 = sample_between(rng, 1, 100);
                distance_matrix[row][col] = weight;
            }
            proof {
                if seed is Some {
                    assert forall|r: int, c: int|
                        0 <= r < n && 0 <= c < n implies #[trigger] distance_matrix[r][c]
                        == cell_at(
                        seed->0,
                        drawn,
                        n as int,
                        r,
                        c,
                        allow_loops,
                        is_directed,
                        before[r][c],
                        row as int,
                        col + 1,
                    ) by {
                        assert(held[r][c] == cell_at(
                            seed->0,
                            drawn,
                            n as int,
                            r,
                            c,
                            allow_loops,
                            is_directed,
                            before[r][c],
                            row as int,
                            col as int,
                        ));
                    }
                }
            }
            col += 1;
        }
        proof {
            let r0 = row as int;
            let size = n as int;
            assert((r0 + 1) * size == r0 * size + size) by (nonlinear_arith);
            assert((r0 + 1) * (size - 1) == r0 * (size - 1) + size - 1) by (nonlinear_arith);
            if seed is Some {
                assert forall|r: int, c: int|
                    0 <= r < n && 0 <= c < n implies #[trigger] distance_matrix[r][c] == cell_at(
                    seed->0,
                    drawn,
                    n as int,
                    r,
                    c,
                    allow_loops,
                    is_directed,
                    before[r][c],
                    row + 1,
                    0,
                ) by {
                    assert(scanned_before(r, c, row as int, n as int) == scanned_before(
                        r,
                        c,
                        row + 1,
                        0,
                    ));
                    assert(scanned_before(c, r, row as int, n as int) == scanned_before(
                        c,
                        r,
                        row + 1,
                        0,
                    ));
                }
            }
        }
        row += 1;
    }
    assert(same_shape(before, distance_matrix.deep_view()));
}

/// Places up to `edges` random edges: cells are drawn, and each that
/// holds no weight yet takes one, until no edge is left to place or
/// `max_draws` cells have been drawn. Returns the number of edges that
/// are still to place, which is not positive when all were placed.
///
/// Which cells and weights are drawn is the generator's choice: the
/// matrix and the number returned are those that some run of draws
/// leaves.
pub fn fill_edges(
    distance_matrix: &mut Vec<Vec<i32>>,
    rng: &mut Generator,
    edges: i32,
    allow_loops: bool,
    is_directed: bool,
    max_draws: u64,
) -> (left: i32)
    requires
        is_square(old(distance_matrix).deep_view()),
        old(distance_matrix).len() > 0 || edges <= 0,
    ensures
        same_shape(old(distance_matrix).deep_view(), final(distance_matrix).deep_view()),
        left <= edges,
        edges <= 0 ==> left == edges && final(distance_matrix).deep_view()
            == old(distance_matrix).deep_view(),
        forall|r: int, c: int|
            0 <= r < final(distance_matrix).len() && 0 <= c < final(distance_matrix).len()
                ==> #[trigger] final(distance_matrix)[r][c] == old(distance_matrix)[r][c]
                || is_weight(final(distance_matrix)[r][c]),
        forall|r: int|
            0 <= r < final(distance_matrix).len() && !allow_loops
                ==> #[trigger] final(distance_matrix)[r][r] == old(distance_matrix)[r][r],
        exists|drawn: Seq<CellDraw>|
            {
                &&& #[trigger] is_filling(
                    old(distance_matrix).deep_view(),
                    drawn,
                    allow_loops,
                    is_directed,
                    edges as int,
                    max_draws as int,
                )
                &&& final(distance_matrix).deep_view() == matrix_after(
                    old(distance_matrix).deep_view(),
                    drawn,
                    allow_loops,
                    is_directed,
                )
                &&& left == left_after(
                    old(distance_matrix).deep_view(),
                    drawn,
                    allow_loops,
                    is_directed,
                    edges as int,
                )
            },
{
    let ghost before = distance_matrix.deep_view();
    let ghost mut drawn: Seq<CellDraw> = Seq::empty();
    let n: usize = distance_matrix.len();
    let asked: i32 = edges;
    let mut edges: i32 = edges;
    let mut draws: u64 = 0;
    assert forall|r: int, c: int| 0 <= r < n && 0 <= c < n implies #[trigger] distance_matrix[r][c]
        == before[r][c] by {
        assert(before[r].len() == n);
    }
    while edges > 0 && draws < max_draws
        invariant
            n == distance_matrix.len(),
            n > 0 || edges <= 0,
            is_square(distance_matrix.deep_view()),
            same_shape(before, distance_matrix.deep_view()),
            is_square(before),
            edges <= asked,
            asked <= 0 ==> draws == 0,
            draws == 0 ==> edges == asked && distance_matrix.deep_view() == before,
            forall|r: int, c: int|
                0 <= r < n && 0 <= c < n ==> #[trigger] distance_matrix[r][c] == before[r][c]
                    || is_weight(distance_matrix[r][c]),
            forall|r: int|
                0 <= r < n && !allow_loops ==> #[trigger] distance_matrix[r][r] == before[r][r],
            before.len() == n,
            drawn.len() == draws <= max_draws,
            are_cell_draws(drawn, n as int),
            distance_matrix.deep_view() == matrix_after(before, drawn, allow_loops, is_directed),
            edges == left_after(before, drawn, allow_loops, is_directed, asked as int),
            forall|k: int|
                0 <= k < drawn.len() ==> left_after(
                    before,
                    #[trigger] drawn.take(k),
                    allow_loops,
                    is_directed,
                    asked as int,
                ) > 0,
        decreases max_draws - draws,
    {
        let row: usize = sample_below(rng, n);
        let col: usize = sample_below(rng, n);
        draws += 1;
        let ghost held = distance_matrix.deep_view();
        let ghost earlier = drawn;
        assert(held[row as int].len() == n);
        if distance_matrix[row][col] != 0 {
            proof {
                // The cell is taken: whatever weight would be drawn, nothing changes.
                drawn = earlier.push(CellDraw { row: row as int, col: col as int, weight: 1 });
                assert(drawn.drop_last() =~= earlier);
                assert(held[row as int][col as int] == distance_matrix[row as int][col as int]);
                assert forall|k: int| 0 <= k < drawn.len() implies left_after(
                    before,
                    #[trigger] drawn.take(k),
                    allow_loops,
                    is_directed,
                    asked as int,
                ) > 0 by {
                    if k < earlier.len() {
                        assert(drawn.take(k) =~= earlier.take(k));
                    } else {
                        assert(drawn.take(k) =~= earlier);
                    }
                }
            }
            continue ;
        }
        let weight: i32 = sample_between(rng, 1, 100);
        edges = place_edge(distance_matrix, row, col, weight, allow_loops, is_directed, edges);
        proof {
            drawn = earlier.push(CellDraw { row: row as int, col: col as int, weight });
            assert(drawn.drop_last() =~= earlier);
            assert forall|k: int| 0 <= k < drawn.len() implies left_after(
                before,
                #[trigger] drawn.take(k),
                allow_loops,
                is_directed,
                asked as int,
            ) > 0 by {
                if k < earlier.len() {
                    assert(drawn.take(k) =~= earlier.take(k));
                } else {
                    assert(drawn.take(k) =~= earlier);
                }
            }
            let now = distance_matrix.deep_view();
            assert forall|r: int, c: int| 0 <= r < n && 0 <= c < n implies #[trigger] now[r][c]
                == held[r][c] || now[r][c] == weight by {
                assert(held[r].len() == n);
            }
            assert forall|r: int, c: int|
                0 <= r < n && 0 <= c < n implies #[trigger] distance_matrix[r][c] == before[r][c]
                || is_weight(distance_matrix[r][c]) by {
                assert(now[r][c] == held[r][c] || now[r][c] == weight);
                assert(held[r].len() == n);
                assert(before[r].len() == n);
            }
            assert forall|r: int|
                0 <= r < n && !allow_loops implies #[trigger] distance_matrix[r][r]
                == before[r][r] by {
                assert(now[r][r] == held[r][r]);
            }
            assert(same_shape(before, now)) by {
                assert forall|i: int| 0 <= i < now.len() implies (#[trigger] now[i]).len()
                    == before[i].len() by {
                    assert(now[i].len() == n);
                    assert(before[i].len() == n);
                }
            }
        }
    }
    proof {
        assert(is_filling(before, drawn, allow_loops, is_directed, asked as int, max_draws as int));
    }
    edges
}

/// One draw of the filling edge by edge: a cell, and the weight that is
/// drawn for it.
pub struct CellDraw {
    pub row: int,
    pub col: int,
    pub weight: i32,
}

/// Every draw names a cell of a matrix of `n` rows and columns, and a
/// weight.
pub open spec fn are_cell_draws(draws: Seq<CellDraw>, n: int) -> bool {
    forall|k: int|
        0 <= k < draws.len() ==> {
            &&& 0 <= (#[trigger] draws[k]).row < n
            &&& 0 <= draws[k].col < n
            &&& is_weight(draws[k].weight)
        }
}

/// The matrix after the draws, one after the other. Unless
/// `is_directed`, a cell off the diagonal that takes a weight gives it to
/// the cell across the diagonal too.
pub open spec fn matrix_after(
    m: Seq<Seq<i32>>,
    draws: Seq<CellDraw>,
    allow_loops: bool,
    is_directed: bool,
) -> Seq<Seq<i32>>
    decreases draws.len(),
{
    if draws.len() == 0 {
        m
    } else {
        let last = draws.last();
        with_edge(
            matrix_after(m, draws.drop_last(), allow_loops, is_directed),
            last.row,
            last.col,
            last.weight,
            allow_loops,
            !is_directed,
        )
    }
}

/// The number of edges that are still to place after the draws, of
/// `edges` before them.
pub open spec fn left_after(
    m: Seq<Seq<i32>>,
    draws: Seq<CellDraw>,
    allow_loops: bool,
    is_directed: bool,
    edges: int,
) -> int
    decreases draws.len(),
{
    if draws.len() == 0 {
        edges
    } else {
        let last = draws.last();
        edges_after(
            matrix_after(m, draws.drop_last(), allow_loops, is_directed),
            last.row,
            last.col,
            allow_loops,
            !is_directed,
            left_after(m, draws.drop_last(), allow_loops, is_directed, edges),
        )
    }
}

/// The draws are a run of the filling edge by edge from the matrix `m`
/// with `edges` edges to place: before each draw an edge is still to
/// place, and the run ends only when none is or when `max_draws` cells
/// have been drawn.
pub open spec fn is_filling(
    m: Seq<Seq<i32>>,
    draws: Seq<CellDraw>,
    allow_loops: bool,
    is_directed: bool,
    edges: int,
    max_draws: int,
) -> bool {
    &&& are_cell_draws(draws, m.len() as int)
    &&& draws.len() <= max_draws
    &&& forall|k: int|
        0 <= k < draws.len() ==> left_after(
            m,
            #[trigger] draws.take(k),
            allow_loops,
            is_directed,
            edges,
        ) > 0
    &&& left_after(m, draws, allow_loops, is_directed, edges) <= 0 || draws.len() == max_draws
}

/// Fills a matrix with random weights from 1 to 99: in full, or with a
/// number of edges. With a seed the weights are those that the seed
/// determines. Returns the number of edges that are still to place.
pub fn fill_graph(
    distance_matrix: &mut Vec<Vec<i32>>,
    fill: Fill,
    seed: Option<u64>,
    allow_loops: bool,
    is_directed: bool,
    max_draws: u64,
) -> (left: i32)
    requires
        is_square(old(distance_matrix).deep_view()),
        old(distance_matrix).len() > 0 || fill == Fill::Full || fill->Edges_0 <= 0,
    ensures
        same_shape(old(distance_matrix).deep_view(), final(distance_matrix).deep_view()),
        forall|r: int, c: int|
            0 <= r < final(distance_matrix).len() && 0 <= c < final(distance_matrix).len()
                ==> #[trigger] final(distance_matrix)[r][c] == old(distance_matrix)[r][c]
                || is_weight(final(distance_matrix)[r][c]),
        forall|r: int|
            0 <= r < final(distance_matrix).len() && !allow_loops
                ==> #[trigger] final(distance_matrix)[r][r] == old(distance_matrix)[r][r],
        fill == Fill::Full ==> {
            &&& left == 0
            &&& forall|r: int, c: int|
                0 <= r < final(distance_matrix).len() && 0 <= c < final(distance_matrix).len()
                    && (r != c || allow_loops) ==> is_weight(
                    #[trigger] final(distance_matrix)[r][c],
                )
            &&& is_directed ==> forall|r: int, c: int|
                0 <= r < final(distance_matrix).len() && 0 <= c < final(distance_matrix).len()
                    ==> #[trigger] final(distance_matrix)[r][c] == final(distance_matrix)[c][r]
        },
        fill == Fill::Full && seed is Some ==> forall|r: int, c: int|
            0 <= r < final(distance_matrix).len() && 0 <= c < final(distance_matrix).len()
                ==> #[trigger] final(distance_matrix)[r][c] == full_cell(
                seed->0,
                no_draws(),
                old(distance_matrix).len() as int,
                r,
                c,
                allow_loops,
                is_directed,
                old(distance_matrix)[r][c],
            ),
        fill is Edges ==> left <= fill->Edges_0,
        fill is Edges ==> exists|drawn: Seq<CellDraw>|
            {
                &&& #[trigger] is_filling(
                    old(distance_matrix).deep_view(),
                    drawn,
                    allow_loops,
                    is_directed,
                    fill->Edges_0 as int,
                    max_draws as int,
                )
                &&& final(distance_matrix).deep_view() == matrix_after(
                    old(distance_matrix).deep_view(),
                    drawn,
                    allow_loops,
                    is_directed,
                )
                &&& left == left_after(
                    old(distance_matrix).deep_view(),
                    drawn,
                    allow_loops,
                    is_directed,
                    fill->Edges_0 as int,
                )
            },
{
    let mut rng = Generator::new(seed);
    let ghost before = distance_matrix.deep_view();
    assert forall|r: int, c: int|
        0 <= r < distance_matrix.len() && 0 <= c
            < distance_matrix.len() implies #[trigger] distance_matrix[r][c] == before[r][c] by {
        assert(before[r].len() == distance_matrix.len());
    }
    match fill {
        Fill::Full => {
            fill_full(distance_matrix, &mut rng, allow_loops, is_directed);
            0
        },
        Fill::Edges(edges) => fill_edges(
            distance_matrix,
            &mut rng,
            edges,
            allow_loops,
            is_directed,
            max_draws,
        ),
    }
}

} // verus!
