//! The hash set and hash map of `rustc_hash` that the sampling keeps its
//! state in. What is stated of them here is believed, not proved.

use vstd::prelude::*;
use rustc_hash::{FxHashMap, FxHashSet, FxHasher};
use std::hash::BuildHasherDefault;

verus! {

/// The hasher of `rustc_hash`, an opaque value.
#[verifier::external_type_specification]
#[verifier::external_body]
pub struct ExFxHasher(FxHasher);

/// The builder of default hashers of std, an opaque value.
#[verifier::external_type_specification]
#[verifier::external_body]
#[verifier::reject_recursive_types(H)]
pub struct ExBuildHasherDefault<H>(BuildHasherDefault<H>);

/// The set of the tours that searches have started from.
pub type TourSet = FxHashSet<Vec<usize>>;

/// What is kept of a local optimum: its length, and how many searches
/// have ended in it.
pub type Tally = (i32, i32);

/// The map from each local optimum to its tally.
pub type OptimaMap = FxHashMap<Vec<usize>, (i32, i32)>;

/// A row of the table of local optima: the tour, its length, and how many
/// searches have ended in it.
pub type OptimumRow = (Vec<usize>, i32, i32);

/// The tours that a set holds, each as the sequence of its entries.
pub uninterp spec fn tours_held(set: TourSet) -> Set<Seq<usize>>;

/// The entries that a map holds: for each tour, as the sequence of its
/// entries, the pair stored with it.
pub uninterp spec fn optima_held(map: OptimaMap) -> Map<Seq<usize>, (i32, i32)>;

/// The map that holds no optimum.
pub open spec fn no_optima() -> Map<Seq<usize>, (i32, i32)> {
    Map::empty()
}

/// `FxHashSet::default`: a set that holds nothing.
#[verifier::external_body]
pub(crate) fn empty_tour_set() -> (set: TourSet)
    ensures
        tours_held(set) == Set::<Seq<usize>>::empty(),
{
    FxHashSet::default()
}

/// `HashSet::contains`: whether the set holds a tour with these entries.
#[verifier::external_body]
pub(crate) fn holds_tour(set: &TourSet, tour: &Vec<usize>) -> (held: bool)
    ensures
        held == tours_held(*set).contains(tour@),
{
    set.contains(tour)
}

/// `HashSet::insert`: the set then holds the tour too, and is finite as
/// every set in memory is; the result tells whether the tour is new.
#[verifier::external_body]
pub(crate) fn insert_tour(set: &mut TourSet, tour: Vec<usize>) -> (fresh: bool)
    ensures
        tours_held(*final(set)) == tours_held(*old(set)).insert(tour@),
        tours_held(*final(set)).finite(),
        fresh == !tours_held(*old(set)).contains(tour@),
{
    set.insert(tour)
}

/// `HashSet::into_iter` and `collect`: the tours of the set in a list,
/// each once, in no stated order.
#[verifier::external_body]
pub(crate) fn take_tours(set: TourSet) -> (tours: Vec<Vec<usize>>)
    ensures
        forall|i: int| 0 <= i < tours.len() ==> tours_held(set).contains(#[trigger] tours[i]@),
        forall|i: int, j: int| 0 <= i < j < tours.len() ==> tours[i]@ != tours[j]@,
        forall|t: Seq<usize>|
            tours_held(set).contains(t) ==> exists|i: int|
                0 <= i < tours.len() && #[trigger] tours[i]@ == t,
{
    set.into_iter().collect()
}

/// `FxHashMap::default`: a map that holds nothing.
#[verifier::external_body]
pub(crate) fn empty_optima_map() -> (table: OptimaMap)
    ensures
        optima_held(table) == no_optima(),
{
    FxHashMap::default()
}

/// `HashMap::get`: the pair stored with a tour of these entries, if the
/// map holds one.
#[verifier::external_body]
pub(crate) fn lookup_optimum(map: &OptimaMap, tour: &Vec<usize>) -> (found: Option<Tally>)
    ensures
        found is Some <==> optima_held(*map).contains_key(tour@),
        found is Some ==> found->0 == optima_held(*map)[tour@],
{
    map.get(tour).copied()
}

/// `HashMap::insert`: the map then holds `entry` with the tour, in place
/// of what it held with it before, and is finite as every map in memory
/// is.
#[verifier::external_body]
pub(crate) fn store_optimum(
    map: &mut OptimaMap,
    tour: Vec<usize>,
    entry: Tally,
)
    ensures
        optima_held(*final(map)) == optima_held(*old(map)).insert(tour@, entry),
        optima_held(*final(map)).dom().finite(),
{
    map.insert(tour, entry);
}

/// `HashMap::into_iter` and `collect`: the entries of the map in a list,
/// each tour once with its pair, in no stated order.
#[verifier::external_body]
pub(crate) fn take_optima(map: OptimaMap) -> (rows: Vec<OptimumRow>)
    ensures
        forall|i: int|
            0 <= i < rows.len() ==> optima_held(map).contains_key((#[trigger] rows[i]).0@)
                && optima_held(map)[rows[i].0@] == (rows[i].1, rows[i].2),
        forall|i: int, j: int| 0 <= i < j < rows.len() ==> rows[i].0@ != rows[j].0@,
        forall|t: Seq<usize>|
            optima_held(map).contains_key(t) ==> exists|i: int|
                0 <= i < rows.len() && (#[trigger] rows[i]).0@ == t,
{
    map.into_iter().map(|(tour, entry)| (tour, entry.0, entry.1)).collect()
}

} // verus!
