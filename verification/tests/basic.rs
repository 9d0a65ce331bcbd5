use np_reactor::cnf::{
    Clause, clause_satisfied, contains_clause, count_unsatisfied, formula_satisfied,
    mark_unsatisfied, same_literals, sort_literals, unsatisfied_positions,
};
use np_reactor::count::{backtrack_count, count_solutions, count_solutions_checked, has_solution};

fn cl(lits: &[(usize, bool)]) -> Clause {
    Clause { literals: lits.to_vec() }
}

fn all_assignments(n: usize) -> Vec<Vec<bool>> {
    (0..(1usize << n)).map(|m| (0..n).map(|i| (m >> i) & 1 == 1).collect()).collect()
}

fn brute_count(n: usize, clauses: &Vec<Clause>) -> usize {
    all_assignments(n).iter().filter(|a| formula_satisfied(clauses, a)).count()
}

#[test]
fn clause_with_a_true_literal_holds() {
    let c = cl(&[(0, true), (1, false)]);
    assert!(clause_satisfied(&c, &vec![false, false]));
    assert!(clause_satisfied(&c, &vec![true, true]));
    assert!(!clause_satisfied(&c, &vec![false, true]));
}

#[test]
fn empty_clause_never_holds() {
    let c = cl(&[]);
    assert!(!clause_satisfied(&c, &vec![true, false]));
}

#[test]
fn formula_needs_every_clause() {
    let f = vec![cl(&[(0, true)]), cl(&[(1, true)])];
    assert!(formula_satisfied(&f, &vec![true, true]));
    assert!(!formula_satisfied(&f, &vec![true, false]));
    assert!(formula_satisfied(&Vec::new(), &vec![false]));
}

#[test]
fn unsatisfied_count_and_positions() {
    let f = vec![cl(&[(0, true)]), cl(&[(1, true)]), cl(&[(0, false), (1, false)]), cl(&[(2, true)])];
    let a = vec![false, true, false];
    assert_eq!(count_unsatisfied(&f, &a), 2);
    assert_eq!(unsatisfied_positions(&f, &a), vec![0, 3]);
    let b = vec![true, false, true];
    assert_eq!(count_unsatisfied(&f, &b), 1);
    assert_eq!(unsatisfied_positions(&f, &b), vec![1]);
}

#[test]
fn marks_only_grow() {
    let f = vec![cl(&[(0, true)]), cl(&[(1, true)])];
    let mut marks = vec![true, false];
    let all = mark_unsatisfied(&f, &vec![true, false], &mut marks);
    assert!(!all);
    assert_eq!(marks, vec![true, true]);
    let mut marks2 = vec![false, false];
    assert!(mark_unsatisfied(&f, &vec![true, true], &mut marks2));
    assert_eq!(marks2, vec![false, false]);
}

#[test]
fn sorting_literals_orders_by_switch_and_keeps_ties_in_order() {
    assert_eq!(sort_literals(&vec![(5, true), (1, false), (3, true)]), vec![(1, false), (3, true), (5, true)]);
    assert_eq!(sort_literals(&vec![(2, true), (0, true), (2, false), (0, false)]), vec![(0, true), (0, false), (2, true), (2, false)]);
    assert_eq!(sort_literals(&vec![]), vec![]);
}

#[test]
fn clause_lookup_is_exact() {
    let f = vec![cl(&[(0, true), (1, false)]), cl(&[(2, true)])];
    assert!(contains_clause(&f, &vec![(2, true)]));
    assert!(!contains_clause(&f, &vec![(1, false), (0, true)]));
    assert!(same_literals(&vec![(1, true)], &vec![(1, true)]));
    assert!(!same_literals(&vec![(1, true)], &vec![(1, true), (1, true)]));
}

#[test]
fn counts_free_switches() {
    assert_eq!(count_solutions(0, &Vec::new()), 1);
    assert_eq!(count_solutions(3, &Vec::new()), 8);
    assert_eq!(count_solutions(4, &vec![cl(&[(0, true)])]), 8);
}

#[test]
fn counts_small_formulas_exactly() {
    // x0 xor x1 as two clauses: two models per value of the free x2
    let xor = vec![cl(&[(0, true), (1, true)]), cl(&[(0, false), (1, false)])];
    assert_eq!(count_solutions(3, &xor), 4);
    // contradiction
    let bad = vec![cl(&[(0, true)]), cl(&[(0, false)])];
    assert_eq!(count_solutions(2, &bad), 0);
    // at least one of three
    let or3 = vec![cl(&[(0, true), (1, true), (2, true)])];
    assert_eq!(count_solutions(3, &or3), 7);
    // the empty clause kills everything
    assert_eq!(count_solutions(2, &vec![cl(&[])]), 0);
}

#[test]
fn count_agrees_with_brute_force() {
    let f = vec![
        cl(&[(0, true), (2, false), (3, true)]),
        cl(&[(1, false), (2, true)]),
        cl(&[(0, false), (1, true), (4, false)]),
        cl(&[(3, false), (4, true)]),
    ];
    assert_eq!(count_solutions(5, &f), brute_count(5, &f));
    assert_eq!(count_solutions(5, &f), 10);
}

#[test]
fn backtracking_resumes_from_a_partial_assignment() {
    let f = vec![cl(&[(0, true), (1, true)]), cl(&[(1, false), (2, true)])];
    let mut asg = vec![Some(false), None, None];
    assert_eq!(backtrack_count(1, 3, &mut asg, &f), 1);
    assert_eq!(asg, vec![Some(false), None, None]);
    let mut asg2 = vec![Some(true), None, None];
    assert_eq!(backtrack_count(1, 3, &mut asg2, &f), 3);
    let mut full = vec![Some(false), Some(false), Some(true)];
    assert_eq!(backtrack_count(3, 3, &mut full, &f), 0);
}

#[test]
fn mask_search_finds_models() {
    let sat = vec![cl(&[(0, true)]), cl(&[(1, false)])];
    assert!(has_solution(2, &sat));
    let unsat = vec![cl(&[(0, true)]), cl(&[(0, false)])];
    assert!(!has_solution(2, &unsat));
    assert!(has_solution(23, &unsat));
    assert!(has_solution(0, &Vec::new()));
    assert!(!has_solution(0, &vec![cl(&[])]));
}

#[test]
fn mask_search_agrees_with_count() {
    let f = vec![
        cl(&[(0, true), (1, true)]),
        cl(&[(0, false), (1, true)]),
        cl(&[(0, true), (1, false)]),
        cl(&[(0, false), (1, false), (2, true)]),
    ];
    assert_eq!(has_solution(3, &f), count_solutions(3, &f) > 0);
    let g = vec![cl(&[(0, true), (1, true)]), cl(&[(0, false), (1, true)]), cl(&[(0, true), (1, false)]), cl(&[(0, false), (1, false)])];
    assert_eq!(count_solutions(2, &g), 0);
    assert!(!has_solution(2, &g));
}

#[test]
fn counts_ignore_order_and_repeats_and_shrink_with_more_clauses() {
    let cs = vec![cl(&[(0, true), (1, false)]), cl(&[(2, true)]), cl(&[(1, true), (3, false)])];
    let ds = vec![cl(&[(3, true), (0, false)])];
    let base = count_solutions(4, &cs);
    let mut more = cs.clone();
    more.extend(ds.iter().cloned());
    assert!(count_solutions(4, &more) <= base);
    let permuted = vec![cs[2].clone(), cs[0].clone(), cs[1].clone()];
    assert_eq!(count_solutions(4, &permuted), base);
    let mut doubled = cs.clone();
    doubled.extend(cs.iter().cloned());
    assert_eq!(count_solutions(4, &doubled), base);
    assert_eq!(count_solutions_checked(4, &cs), Some(base));
    assert_eq!(count_solutions_checked(3, &vec![]), Some(8));
}
