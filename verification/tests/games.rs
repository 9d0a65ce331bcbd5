use np_reactor::cnf::{count_unsatisfied, formula_satisfied};
use np_reactor::count::count_solutions;
use np_reactor::labels::{generate_var_name, get_hex_label, var_names, var_symbol};
use np_reactor::visits::{same_assignment, VisitCounter};
use np_reactor::{aes, grid, lights_out, reactor};

#[test]
fn labels_are_exact() {
    assert_eq!(generate_var_name(0), "1");
    assert_eq!(generate_var_name(9), "10");
    assert_eq!(generate_var_name(255), "256");
    assert_eq!(get_hex_label(0), "00");
    assert_eq!(get_hex_label(10), "0A");
    assert_eq!(get_hex_label(31), "1F");
    assert_eq!(get_hex_label(255), "FF");
    assert_eq!(get_hex_label(256), "100");
    assert_eq!(var_symbol(0), "0");
    assert_eq!(var_symbol(10), "A");
    assert_eq!(var_symbol(35), "Z");
    assert_eq!(var_symbol(36), "0");
    assert_eq!(var_names(3), vec!["1".to_string(), "2".to_string(), "3".to_string()]);
}

#[test]
fn mode_captions_and_cycles() {
    let m = reactor::GameMode::Random;
    assert_eq!(m.to_string(), "Mode: Random");
    assert_eq!(m.next(), reactor::GameMode::XorRandom);
    assert_eq!(m.next().next().next().next(), m);
    assert_eq!(reactor::GameMode::Avalanche.to_string(), "Mode: Avalanche");
    assert_eq!(aes::GameMode::XorRing.next(), aes::GameMode::AESAvalanche);
    assert_eq!(aes::GameMode::AESAvalanche.to_string(), "Mode: AES Avalanche");
    assert_eq!(grid::GameMode::Hard3SAT.next(), grid::GameMode::XorRing);
    assert_eq!(grid::GameMode::XorRing.to_string(), "Mode: XOR Ring");
}

#[test]
fn visit_counter_tallies() {
    let mut v = VisitCounter::new_with(vec![true, false]);
    assert_eq!(v.get(&vec![true, false]), Some(1));
    assert_eq!(v.get(&vec![false, false]), None);
    v.record(vec![false, false]);
    v.record(vec![true, false]);
    assert_eq!(v.get(&vec![true, false]), Some(2));
    assert_eq!(v.get(&vec![false, false]), Some(1));
    assert_eq!(v.count_after_flip(&vec![true, true], 1), 2);
    assert_eq!(v.count_after_flip(&vec![true, true], 0), 0);
    assert!(same_assignment(&vec![true], &vec![true]));
    assert!(!same_assignment(&vec![true], &vec![true, true]));
}

fn check_reactor(g: &reactor::GameState, n: usize) {
    assert_eq!(g.n, n);
    assert_eq!(g.vars.len(), n);
    assert_eq!(g.steps, 0);
    assert_eq!(g.last_flipped, None);
    assert_eq!(g.is_won, formula_satisfied(&g.clauses, &g.vars));
    assert_eq!(g.actual_sols, count_solutions(n, &g.clauses));
    assert_eq!(g.current_state_count(), 1);
    for c in &g.clauses {
        for l in &c.literals {
            assert!(l.0 < n);
        }
    }
}

#[test]
fn random_terrain_respects_the_threshold() {
    let n = 6;
    let m = 25;
    let g = reactor::GameState::generate(n, m, 4, reactor::GameMode::Random).unwrap();
    check_reactor(&g, n);
    assert_eq!(g.clauses.len(), m);
    assert!(g.actual_sols >= 1 && g.actual_sols <= 4);
    for (i, c) in g.clauses.iter().enumerate() {
        assert_eq!(c.literals.len(), 3);
        assert!(c.literals[0].0 < c.literals[1].0 && c.literals[1].0 < c.literals[2].0);
        for d in &g.clauses[..i] {
            assert_ne!(d.literals, c.literals);
        }
    }
}

#[test]
fn planted_terrains_are_solvable() {
    for mode in [reactor::GameMode::XorRandom, reactor::GameMode::XorRing, reactor::GameMode::Avalanche] {
        let g = reactor::GameState::generate(7, 0, 0, mode).unwrap();
        check_reactor(&g, 7);
        assert!(g.actual_sols >= 1);
    }
}

#[test]
fn xor_random_uses_different_triplets() {
    let g = reactor::GameState::generate(6, 0, 0, reactor::GameMode::XorRandom).unwrap();
    // min(6 + 3, 20) equations, four clauses each
    assert_eq!(g.clauses.len(), 36);
    let mut triplets: Vec<Vec<usize>> = g.clauses.chunks(4).map(|ch| ch[0].literals.iter().map(|l| l.0).collect()).collect();
    let before = triplets.len();
    triplets.sort();
    triplets.dedup();
    assert_eq!(triplets.len(), before);
}

#[test]
fn avalanche_locks_the_outputs() {
    let g = reactor::GameState::generate(9, 0, 0, reactor::GameMode::Avalanche).unwrap();
    // the last n / 3 clauses are one-literal locks on switches 6, 7, 8
    let k = g.clauses.len();
    for (j, c) in g.clauses[k - 3..].iter().enumerate() {
        assert_eq!(c.literals.len(), 1);
        assert_eq!(c.literals[0].0, 6 + j);
    }
}

#[test]
fn flipping_counts_steps_and_visits() {
    let mut g = reactor::GameState::generate(5, 0, 0, reactor::GameMode::XorRing).unwrap();
    if g.is_won {
        let before = g.vars.clone();
        g.flip(0);
        assert_eq!(g.vars, before);
        assert_eq!(g.steps, 0);
        return;
    }
    let start = g.vars.clone();
    let radar = g.projected_count(2);
    assert_eq!(radar, 0);
    g.flip(2);
    assert_eq!(g.steps, 1);
    assert_eq!(g.last_flipped, Some(2));
    assert_ne!(g.vars[2], start[2]);
    assert_eq!(g.is_won, formula_satisfied(&g.clauses, &g.vars));
    assert_eq!(g.is_won, count_unsatisfied(&g.clauses, &g.vars) == 0);
    assert_eq!(g.current_state_count(), 1);
    assert_eq!(g.projected_count(2), 1);
    if !g.is_won {
        g.flip(2);
        assert_eq!(g.vars, start);
        assert_eq!(g.current_state_count(), 2);
    }
}

#[test]
fn aes_terrains() {
    for mode in [aes::GameMode::Random, aes::GameMode::XorRandom, aes::GameMode::XorRing, aes::GameMode::AESAvalanche] {
        let g = aes::GameState::generate(8, 34, mode).unwrap();
        assert_eq!(g.vars.len(), 8);
        assert_eq!(g.var_names[7], "8");
        assert_eq!(g.actual_sols, 1);
        assert_eq!(g.ever_unsat.len(), g.clauses.len());
        for (i, c) in g.clauses.iter().enumerate() {
            assert_eq!(g.ever_unsat[i], !np_reactor::cnf::clause_satisfied(c, &g.vars));
        }
        assert!(count_solutions(8, &g.clauses) >= 1);
        if mode == aes::GameMode::AESAvalanche {
            assert!(g.clauses.len() >= 16 * 4 && g.clauses.len() <= 16 * 16);
        }
    }
}

#[test]
fn aes_flip_marks_false_clauses() {
    let mut g = aes::GameState::generate(6, 0, aes::GameMode::XorRing).unwrap();
    if g.is_won {
        return;
    }
    let old_marks = g.ever_unsat.clone();
    g.flip(1);
    for (i, c) in g.clauses.iter().enumerate() {
        assert_eq!(g.ever_unsat[i], old_marks[i] || !np_reactor::cnf::clause_satisfied(c, &g.vars));
    }
    assert_eq!(g.steps, 1);
}

#[test]
fn lights_out_board() {
    let mut g = lights_out::GameState::generate();
    // corner cells have 3 cells in reach, edges 4, inner 5: 4*4 + 12*8 + 9*16 clauses
    assert_eq!(g.clauses.len(), 4 * 4 + 12 * 8 + 9 * 16);
    assert!(formula_satisfied(&g.clauses, &g.target_solution));
    for i in 0..25 {
        assert_eq!(g.bulb_on(i), g.initial_map[i]);
    }
    assert!(!g.is_won);
    let target = g.target_solution.clone();
    for i in 0..25 {
        if target[i] {
            g.press(i);
        }
    }
    for i in 0..25 {
        assert!(!g.bulb_on(i));
    }
    assert!(g.is_won || target.iter().all(|b| !b));
    assert_eq!(lights_out::neighbors(0), vec![0, 1, 5]);
    assert_eq!(lights_out::neighbors(12), vec![7, 11, 12, 13, 17]);
    assert_eq!(lights_out::neighbors(24), vec![19, 23, 24]);
}

#[test]
fn grid_paging() {
    let mut g = grid::GameState::generate(40, 0, grid::GameMode::XorRing).unwrap();
    assert_eq!(g.clauses.len(), 160);
    assert_eq!(g.per_page, 144);
    assert_eq!(g.total_pages(), 2);
    assert_eq!(g.page_range(), (0, 144));
    g.next_page();
    assert_eq!(g.page, 1);
    assert_eq!(g.page_range(), (144, 160));
    g.next_page();
    assert_eq!(g.page, 1);
    g.prev_page();
    g.prev_page();
    assert_eq!(g.page, 0);
    assert!(g.actual_sols >= 1);
    for c in &g.clauses {
        assert!(c.literals[0].0 <= c.literals[1].0 && c.literals[1].0 <= c.literals[2].0);
    }
}

#[test]
fn grid_hard_terrain() {
    let mut g = grid::GameState::generate(5, 12, grid::GameMode::Hard3SAT).unwrap();
    assert_eq!(g.clauses.len(), 12);
    assert!(g.actual_sols >= 1);
    assert_eq!(g.actual_sols, count_solutions(5, &g.clauses));
    assert!(!g.is_won);
    g.flip(0);
    assert_eq!(g.steps, 1);
    assert_eq!(g.is_won, formula_satisfied(&g.clauses, &g.vars));
}

#[test]
fn xor_random_is_capped_by_the_number_of_triplets() {
    // four switches have only four triplets, fewer than 4 + 2
    let g = reactor::GameState::generate(4, 0, 0, reactor::GameMode::XorRandom).unwrap();
    assert_eq!(g.clauses.len(), 16);
    let a = aes::GameState::generate(4, 0, aes::GameMode::XorRandom).unwrap();
    assert_eq!(a.clauses.len(), 16);
    // three switches: a single triplet
    let one = reactor::GameState::generate(3, 0, 0, reactor::GameMode::XorRandom).unwrap();
    assert_eq!(one.clauses.len(), 4);
    assert_eq!(one.actual_sols, 4);
}

#[test]
fn terrains_that_need_no_luck_always_succeed() {
    // no clause asked for: every assignment is a model
    let g = reactor::GameState::generate(5, 0, 32, reactor::GameMode::Random).unwrap();
    assert!(g.clauses.is_empty());
    assert_eq!(g.actual_sols, 32);
    assert!(g.is_won);
    let a = aes::GameState::generate(5, 0, aes::GameMode::Random).unwrap();
    assert!(a.clauses.is_empty());
    let h = grid::GameState::generate(5, 0, grid::GameMode::Hard3SAT).unwrap();
    assert!(h.clauses.is_empty());
    assert_eq!(h.actual_sols, 32);
    // fewer than three switches: no triplet to draw
    let x = reactor::GameState::generate(2, 0, 0, reactor::GameMode::XorRandom).unwrap();
    assert!(x.clauses.is_empty());
    assert_eq!(x.actual_sols, 4);
    let y = aes::GameState::generate(2, 0, aes::GameMode::XorRandom).unwrap();
    assert!(y.clauses.is_empty());
    assert!(reactor::GameState::generate(4, 0, 0, reactor::GameMode::XorRing).is_some());
    assert!(reactor::GameState::generate(4, 0, 0, reactor::GameMode::Avalanche).is_some());
    assert!(aes::GameState::generate(4, 0, aes::GameMode::AESAvalanche).is_some());
    assert!(grid::GameState::generate(4, 0, grid::GameMode::XorRing).is_some());
}

#[test]
fn avalanche_gates_read_two_different_switches() {
    for _ in 0..20 {
        let g = reactor::GameState::generate(9, 0, 0, reactor::GameMode::Avalanche).unwrap();
        for c in &g.clauses {
            let mut vs: Vec<usize> = c.literals.iter().map(|l| l.0).collect();
            let before = vs.len();
            vs.sort();
            vs.dedup();
            assert_eq!(vs.len(), before);
        }
    }
}

#[test]
fn planted_rings_beyond_a_word_of_switches() {
    let g = reactor::GameState::generate(70, 0, 0, reactor::GameMode::XorRing).unwrap();
    assert_eq!(g.n, 70);
    assert_eq!(g.clauses.len(), 4 * 70 + 4 * 35);
    assert!(g.actual_sols >= 1);
    assert_eq!(g.is_won, formula_satisfied(&g.clauses, &g.vars));
    let h = grid::GameState::generate(70, 0, grid::GameMode::XorRing).unwrap();
    assert_eq!(h.clauses.len(), 4 * 70);
    assert!(h.actual_sols >= 1);
}

#[test]
fn labels_read_back() {
    for idx in [0usize, 5, 15, 16, 200, 255, 256, 4095, 65536] {
        let h = get_hex_label(idx);
        assert_eq!(usize::from_str_radix(&h, 16), Ok(idx));
        assert!(h.len() >= 2);
        assert!(h.chars().all(|c| c.is_ascii_digit() || ('A'..='F').contains(&c)));
        let name = generate_var_name(idx);
        assert_eq!(name.parse::<usize>(), Ok(idx + 1));
        assert!(!name.starts_with('0'));
    }
    assert_eq!(get_hex_label(4095).len(), 3);
}
