//! The table of the local optima that searches have found: for each, its
//! length and the number of searches that ended in it.

use vstd::prelude::*;
use crate::collections::{
    empty_optima_map, lookup_optimum, no_optima, optima_held, store_optimum, take_optima,
    OptimaMap, OptimumRow,
};
use crate::model::is_tour;
use crate::permutation::{lemma_tour_is_one_to_one, lemma_tour_is_onto};

verus! {

/// The number of searches that a table accounts for: the sum of the
/// counts of its entries.
pub open spec fn total_occurrences(table: Map<Seq<usize>, (i32, i32)>) -> int
    decreases table.dom().len(),
    when table.dom().finite()
{
    if table.dom().len() == 0 {
        0
    } else {
        let tour = table.dom().choose();
        table[tour].1 + total_occurrences(table.remove(tour))
    }
}

/// The table after one more search has ended in `tour`: its count is one
/// more, or it is entered with its length and the count 1.
pub open spec fn recorded_in(table: Map<Seq<usize>, (i32, i32)>, tour: Seq<usize>, len: i32) -> Map<
    Seq<usize>,
    (i32, i32),
> {
    if table.contains_key(tour) {
        table.insert(tour, (table[tour].0, (table[tour].1 + 1) as i32))
    } else {
        table.insert(tour, (len, 1i32))
    }
}

/// The sum of the counts can be taken with any entry first.
pub proof fn lemma_total_from(table: Map<Seq<usize>, (i32, i32)>, tour: Seq<usize>)
    requires
        table.dom().finite(),
        table.contains_key(tour),
    ensures
        total_occurrences(table) == table[tour].1 + total_occurrences(table.remove(tour)),
    decreases table.dom().len(),
{
    let first = table.dom().choose();
    if first != tour {
        let rest = table.remove(first);
        lemma_total_from(rest, tour);
        let others = table.remove(tour);
        assert(others.contains_key(first));
        lemma_total_from(others, first);
        assert(rest.remove(tour) =~= others.remove(first));
    }
}

/// The table with no entry accounts for no search.
pub proof fn lemma_total_of_none()
    ensures
        total_occurrences(no_optima()) == 0,
{
    assert(no_optima().dom() =~= Set::<Seq<usize>>::empty());
}

/// Storing a tally with a tour changes the sum of the counts by the count
/// stored, less the count that the tour had.
pub proof fn lemma_total_after_insert(
    table: Map<Seq<usize>, (i32, i32)>,
    tour: Seq<usize>,
    tally: (i32, i32),
)
    requires
        table.dom().finite(),
    ensures
        total_occurrences(table.insert(tour, tally)) == total_occurrences(table) + tally.1 - (
        if table.contains_key(tour) {
            table[tour].1 as int
        } else {
            0
        }),
{
    let after = table.insert(tour, tally);
    lemma_total_from(after, tour);
    if table.contains_key(tour) {
        lemma_total_from(table, tour);
        assert(after.remove(tour) =~= table.remove(tour));
    } else {
        assert(after.remove(tour) =~= table);
    }
}

/// One more search adds one to the number that the table accounts for.
pub proof fn lemma_record_adds_one(table: Map<Seq<usize>, (i32, i32)>, tour: Seq<usize>, len: i32)
    requires
        table.dom().finite(),
        table.contains_key(tour) ==> table[tour].1 < i32::MAX,
    ensures
        total_occurrences(recorded_in(table, tour, len)) == total_occurrences(table) + 1,
{
    if table.contains_key(tour) {
        lemma_total_after_insert(table, tour, (table[tour].0, (table[tour].1 + 1) as i32));
    } else {
        lemma_total_after_insert(table, tour, (len, 1i32));
    }
}

/// In a table whose counts are all positive, no count is above the sum.
pub proof fn lemma_count_le_total(table: Map<Seq<usize>, (i32, i32)>, tour: Seq<usize>)
    requires
        table.dom().finite(),
        forall|t: Seq<usize>| table.contains_key(t) ==> (#[trigger] table[t]).1 >= 1,
        table.contains_key(tour),
    ensures
        table[tour].1 <= total_occurrences(table),
{
    lemma_total_from(table, tour);
    lemma_total_nonnegative(table.remove(tour));
}

/// In a table whose counts are all positive, the sum is not negative.
pub proof fn lemma_total_nonnegative(table: Map<Seq<usize>, (i32, i32)>)
    requires
        table.dom().finite(),
        forall|t: Seq<usize>| table.contains_key(t) ==> (#[trigger] table[t]).1 >= 1,
    ensures
        total_occurrences(table) >= 0,
    decreases table.dom().len(),
{
    if table.dom().len() > 0 {
        lemma_total_nonnegative(table.remove(table.dom().choose()));
    }
}

/// Two searches leave the same table in whichever order they are
/// recorded, where the same tour comes with the same length.
pub proof fn lemma_record_commutes(
    table: Map<Seq<usize>, (i32, i32)>,
    tour1: Seq<usize>,
    len1: i32,
    tour2: Seq<usize>,
    len2: i32,
)
    requires
        tour1 == tour2 ==> len1 == len2,
        forall|t: Seq<usize>| table.contains_key(t) ==> (#[trigger] table[t]).1 < i32::MAX - 1,
    ensures
        recorded_in(recorded_in(table, tour1, len1), tour2, len2) == recorded_in(
            recorded_in(table, tour2, len2),
            tour1,
            len1,
        ),
{
    let one_then_two = recorded_in(recorded_in(table, tour1, len1), tour2, len2);
    let two_then_one = recorded_in(recorded_in(table, tour2, len2), tour1, len1);
    assert(one_then_two =~= two_then_one);
}

/// The rows stand in the order of their lengths, the shortest first.
pub open spec fn is_sorted_by_length(rows: Seq<OptimumRow>) -> bool {
    forall|i: int, j: int| 0 <= i < j < rows.len() ==> rows[i].1 <= rows[j].1
}

/// `after` holds the rows of `before`, each once: at position `i` the row
/// that stood at position `order[i]`.
pub open spec fn is_reordering(
    before: Seq<OptimumRow>,
    after: Seq<OptimumRow>,
    order: Seq<usize>,
) -> bool {
    &&& after.len() == before.len()
    &&& is_tour(order, before.len())
    &&& forall|i: int| 0 <= i < after.len() ==> #[trigger] after[i] == before[order[i] as int]
}

/// Rows of the same length stand as they stood before.
pub open spec fn keeps_ties(after: Seq<OptimumRow>, order: Seq<usize>) -> bool {
    forall|i: int, j: int|
        0 <= i < j < after.len() && after[i].1 == after[j].1 ==> order[i] < order[j]
}

/// The rows list the table: each row is an entry of it, no tour has two
/// rows, and every entry has its row.
pub open spec fn lists_table(rows: Seq<OptimumRow>, table: Map<Seq<usize>, (i32, i32)>) -> bool {
    &&& forall|i: int|
        0 <= i < rows.len() ==> table.contains_key((#[trigger] rows[i]).0@) && table[rows[i].0@]
            == (rows[i].1, rows[i].2)
    &&& forall|i: int, j: int| 0 <= i < j < rows.len() ==> rows[i].0@ != rows[j].0@
    &&& forall|t: Seq<usize>|
        table.contains_key(t) ==> exists|i: int| 0 <= i < rows.len() && (#[trigger] rows[i]).0@ == t
}

/// Rows that list a table still list it in another order.
pub proof fn lemma_reordering_lists_table(
    before: Seq<OptimumRow>,
    after: Seq<OptimumRow>,
    order: Seq<usize>,
    table: Map<Seq<usize>, (i32, i32)>,
)
    requires
        is_reordering(before, after, order),
        lists_table(before, table),
    ensures
        lists_table(after, table),
{
    let n = before.len();
    assert forall|i: int| 0 <= i < after.len() implies table.contains_key((#[trigger] after[i]).0@)
        && table[after[i].0@] == (after[i].1, after[i].2) by {
        assert(order[i] < n);
        assert(after[i] == before[order[i] as int]);
    }
    assert forall|i: int, j: int| 0 <= i < j < after.len() implies after[i].0@ != after[j].0@ by {
        assert(order[i] < n && order[j] < n);
        assert(after[i] == before[order[i] as int]);
        assert(after[j] == before[order[j] as int]);
        if order[i] < order[j] {
            assert(before[order[i] as int].0@ != before[order[j] as int].0@);
        } else {
            assert(order[i] != order[j]);
            assert(before[order[j] as int].0@ != before[order[i] as int].0@);
        }
    }
    assert forall|t: Seq<usize>| table.contains_key(t) implies exists|i: int|
        0 <= i < after.len() && (#[trigger] after[i]).0@ == t by {
        let b = choose|b: int| 0 <= b < before.len() && (#[trigger] before[b]).0@ == t;
        let i = lemma_tour_is_onto(order, n, b);
        assert(after[i] == before[order[i] as int]);
    }
}

/// Sorts the rows by length, the shortest first. Rows of the same length
/// stay in the order in which they stood.
pub fn sort_by_length(rows: &mut Vec<OptimumRow>)
    ensures
        is_sorted_by_length(final(rows)@),
        exists|order: Seq<usize>|
            is_reordering(old(rows)@, final(rows)@, order) && keeps_ties(final(rows)@, order),
{
    let ghost before = rows@;
    let n: usize = rows.len();
    let ghost mut order: Seq<usize> = Seq::new(n as nat, |k: int| k as usize);
    let mut i: usize = 0;
    while i < n
        invariant
            i <= n,
            n == rows.len(),
            n == before.len(),
            is_reordering(before, rows@, order),
            forall|a: int, b: int| 0 <= a < b < i ==> rows[a].1 <= rows[b].1,
            forall|a: int, b: int| 0 <= a < b < i && rows[a].1 == rows[b].1 ==> order[a] < order[b],
            forall|k: int| i <= k < n ==> order[k] == k,
            forall|k: int| 0 <= k < i ==> order[k] < i,
        decreases n - i,
    {
        let len: i32 = rows[i].1;
        let mut j: usize = i;
        while j > 0 && rows[j - 1].1 > len
            invariant
                j <= i < n,
                n == rows.len(),
                len == rows[i as int].1,
                forall|k: int| j <= k < i ==> rows[k].1 > len,
            decreases j,
        {
            j -= 1;
        }
        let ghost rows_before = rows@;
        let ghost order_before = order;
        let row: OptimumRow = rows.remove(i);
        rows.insert(j, row);
        proof {
            // Position `k` now holds what stood at `came_from(k)`.
            let came_from = |k: int|
                if k < j {
                    k
                } else if k == j {
                    i as int
                } else if k <= i {
                    k - 1
                } else {
                    k
                };
            order = Seq::new(n as nat, |k: int| order_before[came_from(k)]);
            assert forall|k: int| 0 <= k < n implies #[trigger] rows@[k] == rows_before[came_from(
                k,
            )] by {}
            assert forall|k: int| 0 <= k < n implies #[trigger] rows@[k]
                == before[order[k] as int] by {
                assert(rows@[k] == rows_before[came_from(k)]);
            }
            assert forall|k: int| 0 <= k < n implies #[trigger] order[k] < n by {
                assert(order_before[came_from(k)] < n);
            }
            assert forall|x: int, y: int| 0 <= x < y < n implies order[x] != order[y] by {
                if order[x] == order[y] {
                    lemma_tour_is_one_to_one(order_before, n as nat, came_from(x), came_from(y));
                }
            }
            assert forall|a: int, b: int| 0 <= a < b < i + 1 implies rows[a].1 <= rows[b].1 by {
                assert(rows@[a] == rows_before[came_from(a)]);
                assert(rows@[b] == rows_before[came_from(b)]);
            }
            assert forall|a: int, b: int|
                0 <= a < b < i + 1 && rows[a].1 == rows[b].1 implies order[a] < order[b] by {
                assert(rows@[a] == rows_before[came_from(a)]);
                assert(rows@[b] == rows_before[came_from(b)]);
                assert(order_before[i as int] == i);
            }
        }
        i += 1;
    }
    assert(is_reordering(before, rows@, order) && keeps_ties(rows@, order));
}

/// The local optima found so far, each with its length and the number of
/// searches that ended in it, and the number of searches recorded in all.
pub struct LocalOptima {
    entries: OptimaMap,
    recorded: i32,
}

impl View for LocalOptima {
    type V = Map<Seq<usize>, (i32, i32)>;

    closed spec fn view(&self) -> Map<Seq<usize>, (i32, i32)> {
        optima_held(self.entries)
    }
}

impl LocalOptima {
    /// The table is finite, every count is at least 1, and the counts
    /// add up to the number of searches recorded.
    pub closed spec fn wf(&self) -> bool {
        &&& self@.dom().finite()
        &&& forall|t: Seq<usize>| self@.contains_key(t) ==> (#[trigger] self@[t]).1 >= 1
        &&& total_occurrences(self@) == self.recorded
    }

    /// The number of searches recorded.
    pub closed spec fn restarts(&self) -> int {
        self.recorded as int
    }

    /// A table with no entry.
    pub fn new() -> (optima: Self)
        ensures
            optima.wf(),
            optima@ == no_optima(),
            optima.restarts() == 0,
    {
        proof {
            lemma_total_of_none();
        }
        LocalOptima { entries: empty_optima_map(), recorded: 0 }
    }

    /// The number of searches recorded, which is what the counts of the
    /// entries add up to.
    pub fn recorded(&self) -> (n: i32)
        requires
            self.wf(),
        ensures
            n == self.restarts(),
            n == total_occurrences(self@),
            n >= 0,
            self@.dom().finite(),
            forall|t: Seq<usize>| self@.contains_key(t) ==> 1 <= (#[trigger] self@[t]).1 <= n,
    {
        proof {
            lemma_total_nonnegative(self@);
            assert forall|t: Seq<usize>| self@.contains_key(t) implies 1 <= (#[trigger] self@[t]).1
                <= self.recorded by {
                lemma_count_le_total(self@, t);
            }
        }
        self.recorded
    }

    /// The length and the count entered with `tour`, if it is in the
    /// table.
    pub fn get(&self, tour: &Vec<usize>) -> (found: Option<(i32, i32)>)
        ensures
            found is Some <==> self@.contains_key(tour@),
            found is Some ==> found->0 == self@[tour@],
    {
        lookup_optimum(&self.entries, tour)
    }

    /// Records that a search has ended in `tour`, of length `len`: the
    /// count of the tour goes up by one, or the tour is entered with its
    /// length and the count 1.
    pub fn record(&mut self, tour: Vec<usize>, len: i32)
        requires
            old(self).wf(),
            old(self).restarts() < i32::MAX,
        ensures
            final(self).wf(),
            final(self)@ == recorded_in(old(self)@, tour@, len),
            final(self).restarts() == old(self).restarts() + 1,
            forall|t: Seq<usize>| #[trigger]
                old(self)@.contains_key(t) ==> {
                    &&& final(self)@.contains_key(t)
                    &&& final(self)@[t].0 == old(self)@[t].0
                    &&& final(self)@[t].1 >= old(self)@[t].1
                },
    {
        let ghost before = self@;
        let ghost key = tour@;
        proof {
            if before.contains_key(key) {
                lemma_count_le_total(before, key);
            }
            lemma_record_adds_one(before, key, len);
        }
        match lookup_optimum(&self.entries, &tour) {
            Some(v) => {
                store_optimum(&mut self.entries, tour, (v.0, v.1 + 1));
            },
            None => {
                store_optimum(&mut self.entries, tour, (len, 1));
            },
        }
        self.recorded = self.recorded + 1;
    }

    /// The table as rows, sorted by length with the shortest first: one
    /// row for each local optimum, with its length and its count.
    pub fn into_sorted_rows(self) -> (rows: Vec<OptimumRow>)
        ensures
            lists_table(rows@, self@),
            is_sorted_by_length(rows@),
    {
        let mut rows: Vec<OptimumRow> = take_optima(self.entries);
        let ghost unsorted = rows@;
        sort_by_length(&mut rows);
        proof {
            let order = choose|order: Seq<usize>|
                is_reordering(unsorted, rows@, order) && keeps_ties(rows@, order);
            lemma_reordering_lists_table(unsorted, rows@, order, self@);
        }
        rows
    }
}

} // verus!
