use np_reactor::cnf::{clause_satisfied, Clause};
use np_reactor::coop::{ServerMessage, ServerState};

fn cl(lits: &[(usize, bool)]) -> Clause {
    Clause { literals: lits.to_vec() }
}

#[test]
fn server_puzzle_is_aes_sized_and_solvable_shape() {
    let s = ServerState::generate_aes_256();
    assert_eq!(s.n, 256);
    assert_eq!(s.vars.len(), 256);
    assert_eq!(s.var_names[0], "1");
    assert_eq!(s.var_names[255], "256");
    assert!(s.clauses.len() >= 512 * 4 && s.clauses.len() <= 512 * 16);
    for (i, c) in s.clauses.iter().enumerate() {
        assert!(c.literals.len() >= 3 && c.literals.len() <= 5);
        for w in c.literals.windows(2) {
            assert!(w[0].0 < w[1].0);
        }
        assert_eq!(s.ever_unsat[i], !clause_satisfied(c, &s.vars));
    }
}

#[test]
fn broadcast_deals_every_false_clause_once() {
    let mut s = ServerState::generate_aes_256();
    let b = s.broadcast(3);
    assert_eq!(b.assignments.len(), 3);
    let falses: Vec<usize> = (0..s.clauses.len()).filter(|&i| !clause_satisfied(&s.clauses[i], &s.vars)).collect();
    assert_eq!(b.global_unsat_count, falses.len());
    assert_eq!(b.is_won, falses.is_empty());
    let chunk = (falses.len() + 2) / 3;
    let mut dealt: Vec<usize> = Vec::new();
    for (c, a) in b.assignments.iter().enumerate() {
        assert!(a.len() <= chunk);
        let lo = (c * chunk).min(falses.len());
        let hi = ((c + 1) * chunk).min(falses.len());
        assert_eq!(a.len(), hi - lo);
        dealt.extend(a.iter().copied());
    }
    dealt.sort();
    assert_eq!(dealt, falses);
    let none = s.broadcast(0);
    assert!(none.assignments.is_empty());
    assert_eq!(none.global_unsat_count, falses.len());
}

#[test]
fn flips_count_steps() {
    let mut s = ServerState::generate_aes_256();
    let v = s.vars[10];
    s.apply_flip(10);
    assert_eq!(s.vars[10], !v);
    assert_eq!(s.steps, 1);
}

fn message(clauses: Vec<Clause>, vars: Vec<bool>, assigned: Vec<usize>) -> ServerMessage {
    ServerMessage {
        n: vars.len(),
        var_names: (1..=vars.len()).map(|i| i.to_string()).collect(),
        ever_unsat: vec![false; clauses.len()],
        vars,
        clauses,
        assigned_unsat: assigned,
        global_unsat_count: 0,
        steps: 0,
        is_won: false,
    }
}

#[test]
fn active_variables_are_sorted_and_distinct() {
    let m = message(
        vec![cl(&[(4, true), (1, false)]), cl(&[(2, true)]), cl(&[(1, true), (3, true), (4, false)])],
        vec![false; 5],
        vec![2, 0],
    );
    assert_eq!(m.active_variables(), vec![1, 3, 4]);
    let empty = message(vec![cl(&[(0, true)])], vec![false], vec![]);
    assert_eq!(empty.active_variables(), Vec::<usize>::new());
}

#[test]
fn radar_counts_makes_and_breaks() {
    // vars: x0 = false, x1 = true, x2 = false
    let m = message(
        vec![
            cl(&[(0, true), (2, true)]),   // false; flipping 0 mends it
            cl(&[(0, true), (0, true)]),   // false; two literals of 0
            cl(&[(0, false), (1, false)]), // true only through 0
            cl(&[(0, false), (1, true)]),  // true through 0 and 1
            cl(&[(1, false), (2, true)]),  // false; no literal of 0
        ],
        vec![false, true, false],
        vec![],
    );
    assert_eq!(m.flip_radar(0), (3, 1));
    assert_eq!(m.flip_radar(1), (1, 0));
    assert_eq!(m.flip_radar(2), (2, 0));
}

#[test]
fn messages_are_checked_before_use() {
    let good = message(vec![cl(&[(0, true), (2, false)])], vec![false, true, false], vec![0]);
    assert!(good.is_consistent());
    let bad_switch = message(vec![cl(&[(0, true), (3, false)])], vec![false, true, false], vec![]);
    assert!(!bad_switch.is_consistent());
    let bad_share = message(vec![cl(&[(0, true)])], vec![false], vec![1]);
    assert!(!bad_share.is_consistent());
    let empty = message(vec![], vec![], vec![]);
    assert!(empty.is_consistent());
}

#[test]
fn a_flip_then_a_broadcast_marks_what_became_false() {
    let mut s = ServerState::generate_aes_256();
    let _ = s.broadcast(1);
    s.apply_flip(7);
    s.apply_flip(200);
    let b = s.broadcast(2);
    let mut falses = 0;
    for (i, c) in s.clauses.iter().enumerate() {
        if !clause_satisfied(c, &s.vars) {
            assert!(s.ever_unsat[i]);
            falses += 1;
        }
    }
    assert_eq!(b.global_unsat_count, falses);
    assert_eq!(s.steps, 2);
}
