use np_reactor::cnf::{Clause, formula_satisfied};
use np_reactor::encode::{
    push_and_gate, push_lock, push_parity_clauses, push_parity_clauses_sorted, push_xor3_clauses,
    push_xor_gate, selection_parity, sort_switches,
};
use np_reactor::planted::{sort3, xor_ring_clauses};
use np_reactor::count::count_solutions;

fn assignments(n: usize) -> Vec<Vec<bool>> {
    (0..(1usize << n)).map(|m| (0..n).map(|i| (m >> i) & 1 == 1).collect()).collect()
}

#[test]
fn xor3_clauses_hold_exactly_on_matching_parity() {
    for r in [false, true] {
        let mut f: Vec<Clause> = Vec::new();
        push_xor3_clauses(&mut f, 0, 2, 3, r);
        assert_eq!(f.len(), 4);
        for a in assignments(4) {
            assert_eq!(formula_satisfied(&f, &a), (a[0] ^ a[2] ^ a[3]) == r);
        }
    }
}

#[test]
fn xor3_first_clause_is_all_positive_for_odd_parity() {
    let mut f: Vec<Clause> = Vec::new();
    push_xor3_clauses(&mut f, 1, 2, 3, true);
    assert_eq!(f[0].literals, vec![(1, true), (2, true), (3, true)]);
    assert_eq!(f[3].literals, vec![(1, false), (2, false), (3, true)]);
}

#[test]
fn gates_tie_the_output() {
    let mut x: Vec<Clause> = Vec::new();
    push_xor_gate(&mut x, 0, 1, 2);
    let mut y: Vec<Clause> = Vec::new();
    push_and_gate(&mut y, 0, 1, 2);
    for a in assignments(3) {
        assert_eq!(formula_satisfied(&x, &a), a[2] == (a[0] ^ a[1]));
        assert_eq!(formula_satisfied(&y, &a), a[2] == (a[0] && a[1]));
    }
    let mut l: Vec<Clause> = Vec::new();
    push_lock(&mut l, 1, false);
    assert_eq!(l[0].literals, vec![(1, false)]);
}

#[test]
fn parity_clauses_hold_exactly_on_matching_parity() {
    for target in [false, true] {
        let sel = vec![0, 2, 3, 4];
        let mut f: Vec<Clause> = Vec::new();
        push_parity_clauses(&mut f, &sel, target);
        assert_eq!(f.len(), 8);
        for a in assignments(5) {
            let p = a[0] ^ a[2] ^ a[3] ^ a[4];
            assert_eq!(formula_satisfied(&f, &a), p == target);
        }
    }
}

#[test]
fn parity_clauses_come_in_mask_order() {
    let mut f: Vec<Clause> = Vec::new();
    push_parity_clauses(&mut f, &vec![4, 7], false);
    // masks 1 and 2 have odd parity
    assert_eq!(f.len(), 2);
    assert_eq!(f[0].literals, vec![(4, false), (7, true)]);
    assert_eq!(f[1].literals, vec![(4, true), (7, false)]);
}

#[test]
fn sorted_parity_clauses_say_the_same() {
    let sel = vec![3, 0, 2];
    let mut f: Vec<Clause> = Vec::new();
    push_parity_clauses_sorted(&mut f, &sel, true);
    assert_eq!(f.len(), 4);
    for c in &f {
        let vs: Vec<usize> = c.literals.iter().map(|l| l.0).collect();
        assert_eq!(vs, vec![0, 2, 3]);
    }
    for a in assignments(4) {
        assert_eq!(formula_satisfied(&f, &a), (a[0] ^ a[2] ^ a[3]) == true);
    }
}

#[test]
fn selection_parity_is_exclusive_or() {
    assert!(selection_parity(&vec![true, false, true, true], &vec![0, 1, 2, 3]));
    assert!(!selection_parity(&vec![true, false, true, true], &vec![0, 2]));
    assert!(!selection_parity(&vec![true], &vec![]));
}

#[test]
fn sorting_helpers() {
    assert_eq!(sort_switches(&vec![9, 2, 5]), vec![2, 5, 9]);
    assert_eq!(sort3(3, 1, 2), (1, 2, 3));
    assert_eq!(sort3(1, 1, 0), (0, 1, 1));
    assert_eq!(sort3(0, 5, 4), (0, 4, 5));
}

#[test]
fn ring_of_the_hidden_solution_is_satisfied_by_it() {
    let secret = vec![true, false, false, true, true, false, true, false];
    let f = xor_ring_clauses(&secret);
    // 8 ring triplets and 4 cross triplets, four clauses each
    assert_eq!(f.len(), 48);
    assert!(formula_satisfied(&f, &secret));
    assert!(count_solutions(8, &f) >= 1);
    // its first equation ties switches 0, 1, 2 to parity true ^ false ^ false
    assert_eq!(f[0].literals, vec![(0, true), (1, true), (2, true)]);
}

#[test]
fn ring_of_three() {
    let secret = vec![false, true, true];
    let f = xor_ring_clauses(&secret);
    assert_eq!(f.len(), 16);
    assert!(formula_satisfied(&f, &secret));
    assert!(!formula_satisfied(&f, &vec![true, true, true]));
}

#[test]
fn a_parity_on_k_switches_takes_half_the_patterns() {
    for k in 1..=5usize {
        for target in [false, true] {
            let sel: Vec<usize> = (0..k).collect();
            let mut f: Vec<Clause> = Vec::new();
            push_parity_clauses(&mut f, &sel, target);
            assert_eq!(f.len(), 1 << (k - 1));
        }
    }
}
