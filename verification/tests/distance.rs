use tsptools::helpers::cmp_permutations;
use tsptools::permutation::{invert, relabel, resolve_cycles};

#[test]
fn perm_cmp_test() {
    let perm_1 = [0, 1, 2, 3, 4, 5];
    let perm_2 = [5, 4, 3, 2, 1, 0];

    let result = cmp_permutations(&perm_1, &perm_2);
    assert_eq!(result, 3);

    let perm_1 = [5, 4, 3, 2, 1, 0];
    let perm_2 = [5, 4, 3, 2, 1, 0];

    let result = cmp_permutations(&perm_1, &perm_2);
    assert_eq!(result, 0);

    let perm_1 = [5, 4, 1, 2, 3, 0];
    let perm_2 = [5, 4, 3, 2, 1, 0];

    let result = cmp_permutations(&perm_1, &perm_2);
    assert_eq!(result, 1);

    let perm_1 = [0, 2, 4, 1, 3, 5];
    let perm_2 = [0, 1, 2, 3, 4, 5];

    let result = cmp_permutations(&perm_1, &perm_2);
    assert_eq!(result, 3);
}

fn tours_from(prefix: &mut Vec<usize>, left: &mut Vec<usize>, out: &mut Vec<Vec<usize>>) {
    if left.is_empty() {
        out.push(prefix.clone());
        return;
    }
    for k in 0..left.len() {
        let node = left.remove(k);
        prefix.push(node);
        tours_from(prefix, left, out);
        prefix.pop();
        left.insert(k, node);
    }
}

fn permutations(n: usize) -> Vec<Vec<usize>> {
    let mut out = vec![];
    tours_from(&mut vec![], &mut (0..n).collect(), &mut out);
    out
}

#[test]
fn distance_to_itself_is_zero() {
    for p in permutations(5) {
        assert_eq!(cmp_permutations(&p, &p), 0);
    }
    assert_eq!(cmp_permutations(&[], &[]), 0);
    assert_eq!(cmp_permutations(&[0], &[0]), 0);
}

#[test]
fn distance_is_the_same_both_ways() {
    let all = permutations(4);
    for p in &all {
        for q in &all {
            assert_eq!(cmp_permutations(p, q), cmp_permutations(q, p));
        }
    }
    assert_eq!(cmp_permutations(&[2, 0, 1, 3], &[0, 3, 1, 2]), 2);
    assert_eq!(cmp_permutations(&[0, 3, 1, 2], &[2, 0, 1, 3]), 2);
}

#[test]
fn distance_counts_the_exchanges() {
    // one exchange
    assert_eq!(cmp_permutations(&[0, 1, 2, 3], &[0, 3, 2, 1]), 1);
    // two exchanges that do not meet
    assert_eq!(cmp_permutations(&[0, 1, 2, 3], &[1, 0, 3, 2]), 2);
    // one cycle through all four nodes
    assert_eq!(cmp_permutations(&[0, 1, 2, 3], &[1, 2, 3, 0]), 3);
    assert_eq!(cmp_permutations(&[1, 2, 3, 0], &[0, 1, 2, 3]), 3);
}

#[test]
fn distance_is_below_the_number_of_nodes_and_zero_only_to_itself() {
    let all = permutations(4);
    for p in &all {
        for q in &all {
            let d = cmp_permutations(p, q);
            assert!(d < 4);
            assert_eq!(d == 0, p == q);
        }
    }
}

#[test]
fn the_stages_of_the_distance() {
    assert_eq!(invert(&[2, 0, 3, 1]), vec![1, 3, 0, 2]);
    // what stands where 2, 0, 3, 1 stand is sent to 0, 1, 2, 3
    assert_eq!(relabel(&[2, 0, 3, 1], &[0, 1, 2, 3]), vec![1, 3, 0, 2]);
    assert_eq!(relabel(&[0, 1, 2, 3], &[2, 0, 3, 1]), vec![2, 0, 3, 1]);
    // one cycle of four
    assert_eq!(resolve_cycles(vec![1, 3, 0, 2]), 3);
    // two cycles of two
    assert_eq!(resolve_cycles(vec![1, 0, 3, 2]), 2);
    assert_eq!(resolve_cycles(vec![0, 1, 2, 3]), 0);
}

#[test]
fn one_exchange_moves_a_permutation_by_one() {
    let all = permutations(4);
    for p in &all {
        for q in &all {
            let d = cmp_permutations(p, q);
            for x in 0..4 {
                for y in x + 1..4 {
                    let mut moved = q.clone();
                    moved.swap(x, y);
                    let after = cmp_permutations(p, &moved);
                    assert!(after == d + 1 || after + 1 == d);
                }
            }
        }
    }
}
