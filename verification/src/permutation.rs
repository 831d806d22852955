//! Permutations of `0..n` as sequences, their cycles, and the Cayley
//! distance between two of them.

use vstd::prelude::*;
use crate::model::is_tour;

verus! {

/// The permutation that leaves every position in place.
pub open spec fn identity(n: nat) -> Seq<usize> {
    Seq::new(n, |i: int| i as usize)
}

/// A position at which `p` holds `v`.
pub open spec fn position_of(p: Seq<usize>, v: int) -> int {
    choose|i: int| 0 <= i < p.len() && p[i] == v
}

/// The inverse of `p`: it holds at `v` the position at which `p` holds `v`.
pub open spec fn inverse(p: Seq<usize>) -> Seq<usize> {
    Seq::new(p.len(), |v: int| position_of(p, v) as usize)
}

/// The permutation that turns `p1` into `p2`: what stands at some position
/// of `p1` is sent to what stands there in `p2`.
pub open spec fn relabeling(p1: Seq<usize>, p2: Seq<usize>) -> Seq<usize> {
    Seq::new(p1.len(), |v: int| p2[position_of(p1, v)])
}

/// `p` with its last position taken out of its cycle: the position that
/// led to the last one now leads where the last one led.
pub open spec fn without_last(p: Seq<usize>) -> Seq<usize> {
    Seq::new(
        (p.len() - 1) as nat,
        |i: int| if p[i] == p.len() - 1 { p[p.len() - 1] } else { p[i] },
    )
}

/// The number of cycles of `p`, fixed points included.
///
/// The last position is a cycle of its own where `p` leaves it in place.
/// Taking it out of its cycle otherwise leaves the number of cycles as it
/// was, so the count goes on with the shorter permutation.
pub open spec fn cycle_count(p: Seq<usize>) -> nat
    decreases p.len(),
{
    if p.len() == 0 {
        0
    } else if p[p.len() - 1] == p.len() - 1 {
        1 + cycle_count(without_last(p))
    } else {
        cycle_count(without_last(p))
    }
}

/// The Cayley distance from `p1` to `p2`: the least number of exchanges of
/// two entries that turn `p1` into `p2`, which is the length less the
/// number of cycles of the permutation that turns one into the other.
pub open spec fn cayley_distance(p1: Seq<usize>, p2: Seq<usize>) -> int {
    p1.len() - cycle_count(relabeling(p1, p2))
}

/// `p` after the position that `b` leads to is made a fixed point: `b`
/// then leads where that position led.
pub open spec fn resolved_at(p: Seq<usize>, b: int) -> Seq<usize> {
    let a = p[b] as int;
    Seq::new(
        p.len(),
        |i: int|
            if i == a {
                a as usize
            } else if i == b {
                p[a]
            } else {
                p[i]
            },
    )
}

/// `p` without its last position, the nodes above the one that stood there
/// moved down by one.
spec fn closed_up(p: Seq<usize>) -> Seq<usize> {
    let w = p[p.len() - 1];
    Seq::new(
        (p.len() - 1) as nat,
        |i: int| if p[i] > w { (p[i] - 1) as usize } else { p[i] },
    )
}

/// A tour visits every node: each `v` below `n` stands at some position.
pub proof fn lemma_tour_is_onto(p: Seq<usize>, n: nat, v: int) -> (i: int)
    requires
        is_tour(p, n),
        0 <= v < n,
    ensures
        0 <= i < n,
        p[i] == v,
    decreases n,
{
    let w = p[n - 1] as int;
    if v == w {
        n - 1
    } else {
        let q = closed_up(p);
        assert forall|x: int, y: int| 0 <= x < y < q.len() implies q[x] != q[y] by {
            assert(p[x] != p[y]);
            assert(p[x] != p[n - 1]);
            assert(p[y] != p[n - 1]);
        }
        assert forall|k: int| 0 <= k < q.len() implies #[trigger] q[k] < (n - 1) as nat by {
            assert(p[k] != p[n - 1]);
            assert(p[k] < n);
        }
        let u = if v > w { v - 1 } else { v };
        let i = lemma_tour_is_onto(q, (n - 1) as nat, u);
        assert(p[i] != p[n - 1]);
        i
    }
}

/// In a tour, the position of a node is the one position that holds it.
pub proof fn lemma_position_of(p: Seq<usize>, n: nat, v: int)
    requires
        is_tour(p, n),
        0 <= v < n,
    ensures
        0 <= position_of(p, v) < n,
        p[position_of(p, v)] == v,
        forall|i: int| 0 <= i < n && p[i] == v ==> i == position_of(p, v),
{
    let i = lemma_tour_is_onto(p, n, v);
    let j = position_of(p, v);
    assert forall|k: int| 0 <= k < n && p[k] == v implies k == j by {
        if k < j {
            assert(p[k] != p[j]);
        } else if j < k {
            assert(p[j] != p[k]);
        }
    }
}

/// Taking the last position of a tour out of its cycle leaves a tour of
/// one node less.
pub proof fn lemma_without_last_is_tour(p: Seq<usize>, n: nat)
    requires
        is_tour(p, n),
        n > 0,
    ensures
        is_tour(without_last(p), (n - 1) as nat),
{
    let q = without_last(p);
    let last = n - 1;
    assert forall|k: int| 0 <= k < q.len() implies #[trigger] q[k] < (n - 1) as nat by {
        assert(p[k] != p[last]);
        assert(p[k] < n);
        assert(p[last] < n);
    }
    assert forall|x: int, y: int| 0 <= x < y < q.len() implies q[x] != q[y] by {
        assert(p[x] != p[y]);
        assert(p[x] != p[last]);
        assert(p[y] != p[last]);
    }
}

/// A permutation has no more cycles than positions.
pub proof fn lemma_cycle_count_le(p: Seq<usize>)
    ensures
        cycle_count(p) <= p.len(),
    decreases p.len(),
{
    if p.len() > 0 {
        lemma_cycle_count_le(without_last(p));
    }
}

/// The identity has as many cycles as positions.
pub proof fn lemma_identity_cycles(n: nat)
    requires
        n <= usize::MAX + 1,
    ensures
        cycle_count(identity(n)) == n,
    decreases n,
{
    if n > 0 {
        lemma_identity_cycles((n - 1) as nat);
        assert(without_last(identity(n)) =~= identity((n - 1) as nat));
    }
}

/// A tour that leaves every position in place is the identity.
pub proof fn lemma_all_fixed_is_identity(p: Seq<usize>)
    requires
        forall|i: int| 0 <= i < p.len() ==> p[i] == i,
    ensures
        p == identity(p.len()),
{
    assert(p =~= identity(p.len()));
}

/// A tour holds a node at one position only.
pub proof fn lemma_tour_is_one_to_one(p: Seq<usize>, n: nat, x: int, y: int)
    requires
        is_tour(p, n),
        0 <= x < n,
        0 <= y < n,
        p[x] == p[y],
    ensures
        x == y,
{
    if x < y {
        assert(p[x] != p[y]);
    } else if y < x {
        assert(p[y] != p[x]);
    }
}

/// Making the position that `b` leads to a fixed point leaves a tour.
pub proof fn lemma_resolved_is_tour(p: Seq<usize>, n: nat, b: int)
    requires
        is_tour(p, n),
        0 <= b < n,
    ensures
        is_tour(resolved_at(p, b), n),
{
    let a = p[b] as int;
    let q = resolved_at(p, b);
    assert(p[b] < n);
    assert(p[a] < n);
    assert forall|k: int| 0 <= k < q.len() implies #[trigger] q[k] < n by {
        assert(p[k] < n);
    }
    assert forall|x: int, y: int| 0 <= x < y < q.len() implies q[x] != q[y] by {
        if q[x] == q[y] {
            // Each entry of `q` is an entry of `p`, at a position of its own.
            let from_x = if x == a { b } else if x == b { a } else { x };
            let from_y = if y == a { b } else if y == b { a } else { y };
            assert(q[x] == p[from_x]);
            assert(q[y] == p[from_y]);
            lemma_tour_is_one_to_one(p, n, from_x, from_y);
        }
    }
}

/// Making the position that `b` leads to a fixed point, where `b` is none
/// itself, adds one cycle.
pub proof fn lemma_resolved_adds_cycle(p: Seq<usize>, n: nat, b: int)
    requires
        is_tour(p, n),
        0 <= b < n,
        p[b] != b,
    ensures
        cycle_count(resolved_at(p, b)) == cycle_count(p) + 1,
    decreases n,
{
    let last = n - 1;
    let a = p[b] as int;
    let q = resolved_at(p, b);
    let r = without_last(p);
    let s = without_last(q);
    assert(p[b] < n);
    assert(p[a] < n);
    assert(p[last] < n);
    assert(p[a] != a) by {
        if p[a] == a {
            lemma_tour_is_one_to_one(p, n, a, b);
        }
    }
    lemma_without_last_is_tour(p, n);
    if a == last {
        assert(s =~= r) by {
            assert forall|i: int| 0 <= i < last implies s[i] == r[i] by {
                if p[i] == last {
                    lemma_tour_is_one_to_one(p, n, i, b);
                }
            }
        }
    } else if b == last {
        if p[a] == last {
            assert(s =~= r) by {
                assert forall|i: int| 0 <= i < last implies s[i] == r[i] by {
                    if p[i] == last {
                        lemma_tour_is_one_to_one(p, n, i, a);
                    }
                }
            }
        } else {
            lemma_position_of(p, n, last);
            let j = position_of(p, last);
            assert(j != last);
            assert(j != a);
            assert(r[j] == a);
            assert(s =~= resolved_at(r, j)) by {
                assert forall|i: int| 0 <= i < last implies s[i] == resolved_at(r, j)[i] by {
                    if p[i] == last {
                        lemma_tour_is_one_to_one(p, n, i, j);
                    }
                }
            }
            lemma_resolved_adds_cycle(r, (n - 1) as nat, j);
        }
    } else {
        lemma_position_of(p, n, last);
        let j = position_of(p, last);
        assert(j != b);
        assert(r[b] == a);
        assert(s =~= resolved_at(r, b)) by {
            assert forall|i: int| 0 <= i < last implies s[i] == resolved_at(r, b)[i] by {
                if p[i] == last {
                    lemma_tour_is_one_to_one(p, n, i, j);
                }
                if p[a] == last {
                    lemma_tour_is_one_to_one(p, n, a, j);
                }
            }
        }
        lemma_resolved_adds_cycle(r, (n - 1) as nat, b);
    }
}

/// Every position of a tour fits in a `usize`, since the last node does.
pub proof fn lemma_tour_positions_fit(p: Seq<usize>, n: nat)
    requires
        is_tour(p, n),
    ensures
        n <= usize::MAX + 1,
{
    if n > 0 {
        let i = lemma_tour_is_onto(p, n, n - 1);
        assert(p[i] <= usize::MAX);
    }
}

/// The inverse of a tour is a tour, and each undoes the other.
pub proof fn lemma_inverse_is_tour(p: Seq<usize>, n: nat)
    requires
        is_tour(p, n),
    ensures
        is_tour(inverse(p), n),
        forall|i: int| 0 <= i < n ==> inverse(p)[#[trigger] p[i] as int] == i,
        forall|v: int| 0 <= v < n ==> p[#[trigger] inverse(p)[v] as int] == v,
{
    let q = inverse(p);
    lemma_tour_positions_fit(p, n);
    assert forall|v: int| 0 <= v < n implies #[trigger] q[v] == position_of(p, v) && 0 <= q[v] < n
        && p[q[v] as int] == v by {
        lemma_position_of(p, n, v);
    }
    assert forall|i: int| 0 <= i < n implies q[#[trigger] p[i] as int] == i by {
        assert(p[i] < n);
        lemma_position_of(p, n, p[i] as int);
    }
    assert forall|x: int, y: int| 0 <= x < y < q.len() implies q[x] != q[y] by {
        assert(p[q[x] as int] == x);
        assert(p[q[y] as int] == y);
    }
}

/// The inverse of a tour has as many cycles as the tour.
pub proof fn lemma_inverse_cycles(p: Seq<usize>, n: nat)
    requires
        is_tour(p, n),
    ensures
        cycle_count(inverse(p)) == cycle_count(p),
    decreases n,
{
    if n > 0 {
        let last = n - 1;
        let q = inverse(p);
        let r = without_last(p);
        lemma_inverse_is_tour(p, n);
        lemma_without_last_is_tour(p, n);
        lemma_position_of(p, n, last);
        assert(p[last] < n);
        assert(q[last] == last <==> p[last] == last) by {
            assert(q[last] == position_of(p, last));
            if p[last] == last {
                lemma_tour_is_one_to_one(p, n, last, position_of(p, last));
            }
        }
        assert(without_last(q) =~= inverse(r)) by {
            assert forall|v: int| 0 <= v < last implies without_last(q)[v] == inverse(r)[v] by {
                lemma_position_of(r, (n - 1) as nat, v);
                lemma_position_of(p, n, v);
                let i = position_of(p, v);
                assert(q[v] == i);
                if i == last {
                    let j = position_of(p, last);
                    assert(q[last] == j);
                    assert(r[j] == v);
                } else {
                    assert(r[i] == v);
                }
            }
        }
        lemma_inverse_cycles(r, (n - 1) as nat);
    }
}

/// The permutation that turns one tour into another is a tour.
pub proof fn lemma_relabeling_is_tour(p1: Seq<usize>, p2: Seq<usize>, n: nat)
    requires
        is_tour(p1, n),
        is_tour(p2, n),
    ensures
        is_tour(relabeling(p1, p2), n),
        forall|i: int| 0 <= i < n ==> relabeling(p1, p2)[#[trigger] p1[i] as int] == p2[i],
{
    let q = relabeling(p1, p2);
    assert forall|v: int| 0 <= v < n implies #[trigger] q[v] < n by {
        lemma_position_of(p1, n, v);
        assert(p2[position_of(p1, v)] < n);
    }
    assert forall|x: int, y: int| 0 <= x < y < q.len() implies q[x] != q[y] by {
        lemma_position_of(p1, n, x);
        lemma_position_of(p1, n, y);
        if q[x] == q[y] {
            lemma_tour_is_one_to_one(p2, n, position_of(p1, x), position_of(p1, y));
        }
    }
    assert forall|i: int| 0 <= i < n implies q[#[trigger] p1[i] as int] == p2[i] by {
        assert(p1[i] < n);
        lemma_position_of(p1, n, p1[i] as int);
    }
}

/// The permutation that turns `p2` into `p1` is the inverse of the one
/// that turns `p1` into `p2`.
pub proof fn lemma_relabeling_inverse(p1: Seq<usize>, p2: Seq<usize>, n: nat)
    requires
        is_tour(p1, n),
        is_tour(p2, n),
    ensures
        inverse(relabeling(p1, p2)) == relabeling(p2, p1),
{
    let q = relabeling(p1, p2);
    let back = relabeling(p2, p1);
    lemma_relabeling_is_tour(p1, p2, n);
    assert forall|w: int| 0 <= w < n implies inverse(q)[w] == back[w] by {
        lemma_position_of(p2, n, w);
        let i = position_of(p2, w);
        let v = p1[i] as int;
        assert(p1[i] < n);
        assert(back[w] == v);
        assert(q[p1[i] as int] == p2[i]);
        lemma_position_of(q, n, w);
    }
    assert(inverse(q) =~= back);
}

/// A tour is at distance 0 from itself.
pub proof fn lemma_distance_to_self(p: Seq<usize>, n: nat)
    requires
        is_tour(p, n),
    ensures
        cayley_distance(p, p) == 0,
{
    lemma_tour_positions_fit(p, n);
    assert(relabeling(p, p) =~= identity(n)) by {
        assert forall|v: int| 0 <= v < n implies relabeling(p, p)[v] == identity(n)[v] by {
            lemma_position_of(p, n, v);
        }
    }
    lemma_identity_cycles(n);
}

/// The distance from one tour to another is the distance back.
pub proof fn lemma_distance_symmetric(p1: Seq<usize>, p2: Seq<usize>, n: nat)
    requires
        is_tour(p1, n),
        is_tour(p2, n),
    ensures
        cayley_distance(p1, p2) == cayley_distance(p2, p1),
{
    lemma_relabeling_is_tour(p1, p2, n);
    lemma_relabeling_inverse(p1, p2, n);
    lemma_inverse_cycles(relabeling(p1, p2), n);
}

/// The distance between two tours of `n` nodes is at least 0 and less
/// than `n`, or 0 where there is no node.
pub proof fn lemma_distance_bounds(p1: Seq<usize>, p2: Seq<usize>, n: nat)
    requires
        is_tour(p1, n),
        is_tour(p2, n),
    ensures
        0 <= cayley_distance(p1, p2) <= n,
        n > 0 ==> cayley_distance(p1, p2) < n,
{
    let q = relabeling(p1, p2);
    lemma_cycle_count_le(q);
    if n > 0 {
        lemma_relabeling_is_tour(p1, p2, n);
        lemma_tour_has_cycle(q, n);
    }
}

/// A tour of at least one node has at least one cycle.
pub proof fn lemma_tour_has_cycle(p: Seq<usize>, n: nat)
    requires
        is_tour(p, n),
        n > 0,
    ensures
        cycle_count(p) >= 1,
    decreases n,
{
    if n == 1 {
        assert(p[0] < 1);
    } else {
        lemma_without_last_is_tour(p, n);
        lemma_tour_has_cycle(without_last(p), (n - 1) as nat);
    }
}

/// The inverse of the permutation `perm`.
pub fn invert(perm: &[usize]) -> (inv: Vec<usize>)
    requires
        is_tour(perm@, perm@.len()),
    ensures
        inv@ == inverse(perm@),
{
    let n: usize = perm.len();
    let ghost size = perm@.len();
    let mut inv: Vec<usize> = vstd::slice::slice_to_vec(perm);
    let mut i: usize = 0;
    while i < n
        invariant
            i <= n,
            n == perm@.len(),
            n == inv.len(),
            is_tour(perm@, n as nat),
            forall|k: int| 0 <= k < i ==> inv[#[trigger] perm@[k] as int] == k,
        decreases n - i,
    {
        let node: usize = perm[i];
        assert(perm@[i as int] < n);
        inv[node] = i;
        proof {
            assert forall|k: int| 0 <= k < i + 1 implies inv[#[trigger] perm@[k] as int] == k by {
                assert(perm@[k] < n);
                if perm@[k] == node {
                    lemma_tour_is_one_to_one(perm@, n as nat, k, i as int);
                }
            }
        }
        i += 1;
    }
    proof {
        lemma_inverse_is_tour(perm@, size);
        assert(inv@ =~= inverse(perm@)) by {
            assert forall|v: int| 0 <= v < n implies inv@[v] == inverse(perm@)[v] by {
                lemma_position_of(perm@, size, v);
                assert(inv[perm@[position_of(perm@, v)] as int] == position_of(perm@, v));
            }
        }
    }
    inv
}

/// The permutation that turns `perm1` into `perm2`: `perm2` after the
/// inverse of `perm1`.
pub fn relabel(perm1: &[usize], perm2: &[usize]) -> (p: Vec<usize>)
    requires
        is_tour(perm1@, perm1@.len()),
        is_tour(perm2@, perm1@.len()),
    ensures
        p@ == relabeling(perm1@, perm2@),
{
    let n: usize = perm1.len();
    let ghost size = perm1@.len();
    //invert first permutation
    let perm_1_inv: Vec<usize> = invert(perm1);
    proof {
        lemma_inverse_is_tour(perm1@, size);
    }

    //Compose the two permutations
    let mut p: Vec<usize> = vec![0; n];
    let mut i: usize = 0;
    while i < n
        invariant
            i <= n,
            n == size,
            n == perm2@.len(),
            n == p.len(),
            perm_1_inv@ == inverse(perm1@),
            is_tour(perm_1_inv@, size),
            forall|k: int| 0 <= k < i ==> p[k] == perm2@[perm_1_inv[k] as int],
        decreases n - i,
    {
        assert(perm_1_inv@[i as int] < n);
        p[i] = perm2[perm_1_inv[i]];
        i += 1;
    }
    assert(p@ =~= relabeling(perm1@, perm2@));
    p
}

/// Turns the permutation `p` into the identity by exchanges of two
/// entries, each of which puts one node in its place, and counts them:
/// the length of `p` less the number of its cycles.
pub fn resolve_cycles(p: Vec<usize>) -> (count: u32)
    requires
        is_tour(p@, p@.len()),
        p@.len() <= u32::MAX,
    ensures
        count == p@.len() - cycle_count(p@),
{
    let mut p = p;
    let n: usize = p.len();
    let ghost size = p@.len();
    let ghost cycles_at_start = cycle_count(p@);
    proof {
        lemma_cycle_count_le(p@);
    }
    let mut count: u32 = 0;
    let mut i: usize = 0;
    while i < n
        invariant
            i <= n,
            n == size,
            n == p.len(),
            n <= u32::MAX,
            is_tour(p@, size),
            cycles_at_start + count == cycle_count(p@) <= n,
            forall|k: int| 0 <= k < i ==> p[k] == k,
        decreases n - i,
    {
        while p[i] != i
            invariant
                i < n,
                n == size,
                n == p.len(),
                n <= u32::MAX,
                is_tour(p@, size),
                cycles_at_start + count == cycle_count(p@) <= n,
                forall|k: int| 0 <= k < i ==> p[k] == k,
            decreases n - cycle_count(p@),
        {
            let b: usize = p[i];
            assert(p@[i as int] < n);
            let a: usize = p[b];
            assert(p@[b as int] < n);
            let at_a: usize = p[a];
            proof {
                if a == b {
                    lemma_tour_is_one_to_one(p@, size, i as int, b as int);
                }
                lemma_resolved_is_tour(p@, size, b as int);
                lemma_resolved_adds_cycle(p@, size, b as int);
                lemma_cycle_count_le(resolved_at(p@, b as int));
            }
            let ghost before = p@;
            p[a] = a;
            p[b] = at_a;
            proof {
                assert(p@ =~= resolved_at(before, b as int));
                assert forall|k: int| 0 <= k < i implies p[k] == k by {
                    assert(before[k] == k);
                }
            }
            count += 1;
        }
        i += 1;
    }
    proof {
        lemma_all_fixed_is_identity(p@);
        lemma_identity_cycles(size);
    }
    count
}

} // verus!
