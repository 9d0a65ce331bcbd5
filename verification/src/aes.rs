//! The avalanche reactor: puzzles of up to hundreds of switches, named by number,
//! where the AES terrain chains random parity equations and every clause that was ever
//! false is remembered.

use vstd::prelude::*;
use rand::rngs::ThreadRng;
use crate::cnf::{
    Clause, clause_holds, formula_holds, cnf_view, clause_vars_below, vars_below, mark_unsatisfied,
};
use crate::count::{has_solution, mask_satisfiable, satisfiable, lemma_mask_search_agrees_with_count};
use crate::encode::{parity_system, selections_below, increasing, lemma_parity_system_len_bounds};
use crate::labels::{decimal_name, var_names};
use crate::planted::{
    xor_system, ring_triplets, triplets_below, strictly_sorted, xor_puzzle, xor_equation_count, aes_parity_puzzle,
};
use crate::random::{thread_rng, random_bits};
use crate::reactor::{three_sat_clause, random_three_sat};
use crate::visits::{VisitCounter, copy_assignment};

verus! {

/// The four terrains of the avalanche reactor.
#[derive(Clone, Copy, PartialEq, Eq, Structural, Debug)]
pub enum GameMode {
    Random,
    XorRandom,
    XorRing,
    AESAvalanche,
}

/// The terrain after `m` in the cycle Random, XOR random, XOR ring, AES avalanche.
pub open spec fn next_mode(m: GameMode) -> GameMode {
    match m {
        GameMode::Random => GameMode::XorRandom,
        GameMode::XorRandom => GameMode::XorRing,
        GameMode::XorRing => GameMode::AESAvalanche,
        GameMode::AESAvalanche => GameMode::Random,
    }
}

/// The button caption of terrain `m`.
pub open spec fn mode_label(m: GameMode) -> Seq<char> {
    match m {
        GameMode::Random => "Mode: Random"@,
        GameMode::XorRandom => "Mode: XOR Rnd"@,
        GameMode::XorRing => "Mode: XOR Ring"@,
        GameMode::AESAvalanche => "Mode: AES Avalanche"@,
    }
}

impl GameMode {
    /// The next terrain in the cycle.
    pub fn next(&self) -> (m: Self)
        ensures
            m == next_mode(*self),
    {
        match self {
            GameMode::Random => GameMode::XorRandom,
            GameMode::XorRandom => GameMode::XorRing,
            GameMode::XorRing => GameMode::AESAvalanche,
            GameMode::AESAvalanche => GameMode::Random,
        }
    }

    /// The caption of the terrain.
    pub fn to_string(&self) -> (s: &'static str)
        ensures
            s@ == mode_label(*self),
    {
        match self {
            GameMode::Random => "Mode: Random",
            GameMode::XorRandom => "Mode: XOR Rnd",
            GameMode::XorRing => "Mode: XOR Ring",
            GameMode::AESAvalanche => "Mode: AES Avalanche",
        }
    }
}

/// Law: four steps of the terrain cycle come back to the start.
pub proof fn lemma_mode_cycle(m: GameMode)
    ensures
        next_mode(next_mode(next_mode(next_mode(m)))) == m,
        next_mode(m) != m,
{
}

/// A game in progress on the avalanche reactor.
pub struct GameState {
    pub n: usize,
    pub vars: Vec<bool>,
    pub var_names: Vec<String>,
    pub clauses: Vec<Clause>,
    pub is_won: bool,
    pub steps: u32,
    pub actual_sols: usize,
    pub last_flipped: Option<usize>,
    pub visited_counts: VisitCounter,
    pub ever_unsat: Vec<bool>,
    pub mode: GameMode,
}

impl GameState {
    /// The clauses as literal lists.
    pub open spec fn formula(&self) -> Seq<Seq<(usize, bool)>> {
        cnf_view(self.clauses@)
    }

    /// What every state keeps: one value and one decimal name per switch, literals over
    /// the switches, a truthful win flag, a mark on every clause that is false now, and a
    /// tally of visits holding the current assignment with one visit per step plus the
    /// start.
    pub open spec fn wf(&self) -> bool {
        &&& self.vars@.len() == self.n
        &&& self.var_names@.len() == self.n
        &&& (forall|i: int| 0 <= i < self.n ==> (#[trigger] self.var_names@[i])@ == decimal_name(i as nat))
        &&& vars_below(self.formula(), self.n as nat)
        &&& self.is_won == formula_holds(self.formula(), self.vars@)
        &&& self.ever_unsat@.len() == self.clauses@.len()
        &&& (forall|i: int| 0 <= i < self.clauses@.len() && !clause_holds(#[trigger] self.formula()[i], self.vars@) ==> self.ever_unsat@[i])
        &&& self.actual_sols == 1
        &&& self.visited_counts.wf()
        &&& self.visited_counts.total() == self.steps + 1
        &&& self.visited_counts.count(self.vars@) >= 1
        &&& (self.last_flipped matches Some(i) ==> i < self.n)
    }

    /// A fresh game on `clauses`: random starting switches, each clause false under them
    /// marked, no steps, one visit of the start.
    fn start(rng: &mut ThreadRng, n: usize, clauses: Vec<Clause>, mode: GameMode) -> (g: Self)
        requires
            vars_below(cnf_view(clauses@), n as nat),
        ensures
            g.wf(),
            g.n == n,
            g.clauses@ == clauses@,
            g.mode == mode,
            g.steps == 0,
            g.last_flipped is None,
            forall|i: int| 0 <= i < clauses@.len() ==> g.ever_unsat@[i] == !clause_holds(#[trigger] g.formula()[i], g.vars@),
            forall|k: Seq<bool>| #[trigger] g.visited_counts.count(k) == if k == g.vars@ { 1nat } else { 0nat },
    {
        let names = var_names(n);
        let initial_vars = random_bits(rng, n);
        let mut ever_unsat: Vec<bool> = Vec::new();
        let mut i: usize = 0;
        while i < clauses.len()
            invariant
                i <= clauses@.len(),
                ever_unsat@.len() == i,
                forall|j: int| 0 <= j < i ==> !ever_unsat@[j],
            decreases clauses@.len() - i,
        {
            ever_unsat.push(false);
            i = i + 1;
        }
        let initial_win = mark_unsatisfied(&clauses, &initial_vars, &mut ever_unsat);
        let initial_counts = VisitCounter::new_with(copy_assignment(&initial_vars));
        GameState {
            n,
            vars: initial_vars,
            var_names: names,
            clauses,
            is_won: initial_win,
            steps: 0,
            actual_sols: 1,
            last_flipped: None,
            visited_counts: initial_counts,
            ever_unsat,
            mode,
        }
    }

    /// Draws a new puzzle over `n` switches in terrain `mode`.
    ///
    /// Random: `m` different random three-switch clauses, drawn again until the mask
    /// search finds a solution (above 22 switches it does not search). XOR random and XOR
    /// ring: as on the reactor. AES avalanche: `2n` random parity equations of 3 to 5
    /// switches each, true of a hidden random solution. The game starts from random
    /// switches. `None` only when the draws (one short of `2^64`) run out first: never for
    /// XOR ring and AES avalanche, nor for XOR random below three switches, nor for the
    /// random terrain when no clause is asked for.
    pub fn generate(n: usize, m: usize, mode: GameMode) -> (g: Option<Self>)
        requires
            n <= usize::MAX / 2,
            mode == GameMode::XorRandom ==> n * (n - 1) * (n - 2) <= usize::MAX,
            mode == GameMode::Random || mode == GameMode::AESAvalanche ==> n >= 3,
            mode == GameMode::Random ==> m <= 8 * (n * (n - 1) * (n - 2) / 6),
        ensures
            g matches Some(g) ==> {
                &&& g.wf()
                &&& g.n == n
                &&& g.mode == mode
                &&& g.steps == 0
                &&& g.last_flipped is None
                &&& forall|i: int| 0 <= i < g.clauses@.len() ==> g.ever_unsat@[i] == !clause_holds(#[trigger] g.formula()[i], g.vars@)
                &&& forall|k: Seq<bool>| #[trigger] g.visited_counts.count(k) == if k == g.vars@ { 1nat } else { 0nat }
                &&& mode == GameMode::Random ==> {
                    &&& g.formula().len() == m
                    &&& g.formula().no_duplicates()
                    &&& (forall|i: int| 0 <= i < m ==> three_sat_clause(#[trigger] g.formula()[i], n as nat))
                    &&& (n <= 22 ==> satisfiable(n as nat, g.formula()))
                }
                &&& mode == GameMode::XorRandom ==> exists|secret: Seq<bool>, ts: Seq<(usize, usize, usize)>| {
                    &&& secret.len() == n
                    &&& triplets_below(ts, n as nat)
                    &&& ts.no_duplicates()
                    &&& (forall|k: int| 0 <= k < ts.len() ==> strictly_sorted(#[trigger] ts[k]))
                    &&& ts.len() == xor_equation_count(n as nat)
                    &&& #[trigger] g.formula() == xor_system(ts, secret)
                }
                &&& mode == GameMode::XorRing ==> exists|secret: Seq<bool>|
                    secret.len() == n && #[trigger] g.formula() == xor_system(ring_triplets(n), secret)
                &&& mode == GameMode::AESAvalanche ==> exists|secret: Seq<bool>, sels: Seq<Seq<usize>>| {
                    &&& secret.len() == n
                    &&& sels.len() == 2 * n
                    &&& selections_below(sels, n as nat)
                    &&& (forall|e: int| 0 <= e < sels.len() ==> 3 <= (#[trigger] sels[e]).len() <= 5 && increasing(sels[e]))
                    &&& #[trigger] g.formula() == parity_system(sels, secret)
                }
                &&& mode == GameMode::AESAvalanche ==> 8 * n <= g.formula().len() <= 32 * n
                &&& mode != GameMode::Random ==> satisfiable(n as nat, g.formula())
            },
            mode == GameMode::XorRing || mode == GameMode::AESAvalanche ==> g is Some,
            mode == GameMode::XorRandom && n < 3 ==> g is Some,
            mode == GameMode::Random && m == 0 ==> g is Some,
    {
        let mut rng = thread_rng();
        let mut draws: u64 = u64::MAX;
        match mode {
            GameMode::Random => {
                while draws > 0
                    invariant
                        3 <= n <= usize::MAX / 2,
                        mode == GameMode::Random,
                        m == 0 ==> draws == u64::MAX,
                    decreases draws,
                {
                    draws = draws - 1;
                    let clauses = random_three_sat(&mut rng, n, m, &mut draws);
                    if clauses.len() < m {
                        return None;
                    }
                    proof {
                        if m == 0 && n <= 22 {
                            let f = cnf_view(clauses@);
                            assert(f =~= Seq::<Seq<(usize, bool)>>::empty());
                            let w = Seq::new(n as nat, |i: int| false);
                            assert(formula_holds(f, w));
                            assert(satisfiable(n as nat, f));
                            lemma_mask_search_agrees_with_count(n as nat, f);
                        }
                        assert forall|i: int| 0 <= i < cnf_view(clauses@).len() implies clause_vars_below(
                            #[trigger] cnf_view(clauses@)[i],
                            n as nat,
                        ) by {
                            assert(three_sat_clause(cnf_view(clauses@)[i], n as nat));
                        }
                        if n <= 22 {
                            assert forall|i: int| 0 <= i < cnf_view(clauses@).len() implies clause_vars_below(
                                #[trigger] cnf_view(clauses@)[i],
                                usize::BITS as nat,
                            ) by {
                                assert(clause_vars_below(cnf_view(clauses@)[i], n as nat));
                            }
                        }
                    }
                    if has_solution(n, &clauses) {
                        proof {
                            if n <= 22 {
                                lemma_mask_search_agrees_with_count(n as nat, cnf_view(clauses@));
                            }
                        }
                        let ghost f = cnf_view(clauses@);
                        let g = Self::start(&mut rng, n, clauses, mode);
                        assert(g.formula() == f);
                        assert forall|i: int| 0 <= i < m implies three_sat_clause(#[trigger] g.formula()[i], n as nat) by {
                            assert(three_sat_clause(f[i], n as nat));
                        }
                        return Some(g);
                    }
                }
                None
            },
            GameMode::XorRandom | GameMode::XorRing => {
                let (clauses, Ghost(secret), Ghost(ts)) = xor_puzzle(
                    &mut rng,
                    n,
                    mode == GameMode::XorRandom,
                    &mut draws,
                );
                if mode == GameMode::XorRandom && draws == 0 {
                    return None;
                }
                let ghost f = cnf_view(clauses@);
                let g = Self::start(&mut rng, n, clauses, mode);
                proof {
                    assert(g.formula() == f);
                    assert(g.formula() == xor_system(ts, secret));
                }
                Some(g)
            },
            GameMode::AESAvalanche => {
                let (clauses, Ghost(secret), Ghost(sels)) = aes_parity_puzzle(&mut rng, n);
                let ghost f = cnf_view(clauses@);
                let g = Self::start(&mut rng, n, clauses, mode);
                proof {
                    assert(g.formula() == f);
                    assert(g.formula() == parity_system(sels, secret));
                    lemma_parity_system_len_bounds(sels, secret);
                }
                Some(g)
            },
        }
    }

    /// Brings the win flag up to date and marks every clause that is false now.
    pub fn check_win_condition(&mut self)
        requires
            vars_below(old(self).formula(), old(self).vars@.len()),
            old(self).ever_unsat@.len() == old(self).clauses@.len(),
        ensures
            final(self).is_won == formula_holds(old(self).formula(), old(self).vars@),
            final(self).ever_unsat@.len() == old(self).ever_unsat@.len(),
            forall|i: int| #![trigger final(self).ever_unsat@[i]] 0 <= i < old(self).clauses@.len() ==> final(self).ever_unsat@[i] == (old(self).ever_unsat@[i]
                || !clause_holds(old(self).formula()[i], old(self).vars@)),
            final(self).vars == old(self).vars,
            final(self).var_names == old(self).var_names,
            final(self).clauses == old(self).clauses,
            final(self).n == old(self).n,
            final(self).steps == old(self).steps,
            final(self).actual_sols == old(self).actual_sols,
            final(self).last_flipped == old(self).last_flipped,
            final(self).visited_counts == old(self).visited_counts,
            final(self).mode == old(self).mode,
    {
        self.is_won = mark_unsatisfied(&self.clauses, &self.vars, &mut self.ever_unsat);
    }

    /// A click on switch `i` while the game is not won: the switch flips, the step count
    /// grows by one, the switch is marked as the last flipped, the win flag and the marks
    /// are brought up to date and the new assignment gets one more visit. A won game stays
    /// as it is.
    pub fn flip(&mut self, i: usize)
        requires
            old(self).wf(),
            i < old(self).n,
            old(self).steps < u32::MAX,
        ensures
            final(self).wf(),
            old(self).is_won ==> *final(self) == *old(self),
            !old(self).is_won ==> {
                &&& final(self).vars@ == old(self).vars@.update(i as int, !old(self).vars@[i as int])
                &&& final(self).steps == old(self).steps + 1
                &&& final(self).last_flipped == Some(i)
                &&& (forall|j: int| #![trigger final(self).ever_unsat@[j]] 0 <= j < old(self).clauses@.len() ==> final(self).ever_unsat@[j] == (old(self).ever_unsat@[j]
                    || !clause_holds(old(self).formula()[j], final(self).vars@)))
                &&& forall|k: Seq<bool>| #[trigger] final(self).visited_counts.count(k) == if k == final(self).vars@ {
                    old(self).visited_counts.count(k) + 1
                } else {
                    old(self).visited_counts.count(k)
                }
            },
            final(self).n == old(self).n,
            final(self).clauses == old(self).clauses,
            final(self).mode == old(self).mode,
    {
        if self.is_won {
            return;
        }
        let ghost before = self.vars@;
        let flipped = !self.vars[i];
        self.vars.set(i, flipped);
        self.steps = self.steps + 1;
        self.last_flipped = Some(i);
        self.check_win_condition();
        proof {
            assert(self.vars@ != before) by {
                assert(self.vars@[i as int] != before[i as int]);
            }
            old(self).visited_counts.lemma_two_counts_within_total(before, self.vars@);
        }
        let key = copy_assignment(&self.vars);
        self.visited_counts.record(key);
    }
}

} // verus!
