//! The multi-mode reactor: a puzzle over `n` switches drawn in one of four
//! terrains, with its exact model count, and the flipping game played on it.

use vstd::prelude::*;
use vstd::arithmetic::power2::{pow2, lemma_pow2_pos};
use rand::rngs::ThreadRng;
use crate::cnf::{
    Clause, formula_holds, cnf_view, clause_vars_below, vars_below, vars_increasing, distinct_vars,
    formula_satisfied, sort_literals, contains_clause,
};
use crate::count::{model_count, count_solutions, count_solutions_checked, lemma_count_no_clauses, lemma_model_count_fits, lemma_model_count_positive_iff_satisfiable};
use crate::planted::{
    xor_system, ring_triplets, triplets_below, strictly_sorted, circuit_clauses, gates_wf,
    xor_puzzle, xor_equation_count, output_count, avalanche_circuit, lemma_circuit_clauses,
};
use crate::random::{thread_rng, gen_ratio, gen_range_inclusive, random_bits, shuffled_indices};
use crate::count::satisfiable;
use crate::visits::{VisitCounter, copy_assignment};

verus! {

/// The four terrains a puzzle can be drawn from.
#[derive(Clone, Copy, PartialEq, Eq, Structural, Debug)]
pub enum GameMode {
    Random,
    XorRandom,
    XorRing,
    Avalanche,
}

/// The terrain after `m` in the cycle Random, XOR random, XOR ring, Avalanche.
pub open spec fn next_mode(m: GameMode) -> GameMode {
    match m {
        GameMode::Random => GameMode::XorRandom,
        GameMode::XorRandom => GameMode::XorRing,
        GameMode::XorRing => GameMode::Avalanche,
        GameMode::Avalanche => GameMode::Random,
    }
}

/// The button caption of terrain `m`.
pub open spec fn mode_label(m: GameMode) -> Seq<char> {
    match m {
        GameMode::Random => "Mode: Random"@,
        GameMode::XorRandom => "Mode: XOR Rnd"@,
        GameMode::XorRing => "Mode: XOR Ring"@,
        GameMode::Avalanche => "Mode: Avalanche"@,
    }
}

impl GameMode {
    /// The next terrain in the cycle.
    pub fn next(&self) -> (m: Self)
        ensures
            m == next_mode(*self),
    {
        match self {
            GameMode::Random => GameMode::XorRandom,
            GameMode::XorRandom => GameMode::XorRing,
            GameMode::XorRing => GameMode::Avalanche,
            GameMode::Avalanche => GameMode::Random,
        }
    }

    /// The caption of the terrain.
    pub fn to_string(&self) -> (s: &'static str)
        ensures
            s@ == mode_label(*self),
    {
        match self {
            GameMode::Random => "Mode: Random",
            GameMode::XorRandom => "Mode: XOR Rnd",
            GameMode::XorRing => "Mode: XOR Ring",
            GameMode::Avalanche => "Mode: Avalanche",
        }
    }
}

/// Law: four steps of the terrain cycle come back to the start.
pub proof fn lemma_mode_cycle(m: GameMode)
    ensures
        next_mode(next_mode(next_mode(next_mode(m)))) == m,
        next_mode(m) != m,
{
}

/// A clause of the random terrain: three literals over different switches below `n`,
/// in increasing switch order.
pub open spec fn three_sat_clause(c: Seq<(usize, bool)>, n: nat) -> bool {
    c.len() == 3 && vars_increasing(c) && clause_vars_below(c, n)
}

/// One random clause of the random terrain: `k` drawn from `3..=min(3, n)`, that many
/// different switches in shuffled order, each with a fair sign, then ordered by switch.
fn random_three_clause(rng: &mut ThreadRng, n: usize) -> (lits: Vec<(usize, bool)>)
    requires
        n >= 3,
    ensures
        three_sat_clause(lits@, n as nat),
{
    let k = gen_range_inclusive(rng, 3, if 3 < n { 3 } else { n });
    let available_vars = shuffled_indices(rng, n);
    let mut literals: Vec<(usize, bool)> = Vec::new();
    let mut i: usize = 0;
    while i < k
        invariant
            i <= k == 3,
            available_vars@.len() == n >= 3,
            available_vars@.no_duplicates(),
            forall|j: int| 0 <= j < n ==> (#[trigger] available_vars@[j]) < n,
            literals@.len() == i,
            forall|j: int| 0 <= j < i ==> (#[trigger] literals@[j]).0 == available_vars@[j],
        decreases k - i,
    {
        let v = available_vars[i];
        let sign = gen_ratio(rng, 1, 2);
        literals.push((v, sign));
        i = i + 1;
    }
    assert(distinct_vars(literals@));
    let sorted = sort_literals(&literals);
    proof {
        broadcast use vstd::seq_lib::group_to_multiset_ensures;
        assert forall|j: int| 0 <= j < sorted@.len() implies (#[trigger] sorted@[j]).0 < n by {
            sorted@.to_multiset_ensures();
            literals@.to_multiset_ensures();
            assert(sorted@.contains(sorted@[j]));
            assert(sorted@.to_multiset().count(sorted@[j]) > 0);
            assert(literals@.contains(sorted@[j]));
        }
    }
    sorted
}

/// Random clauses of the random terrain, each kept only if no equal clause is kept
/// already, until `m` are kept or the draws run out.
pub(crate) fn random_three_sat(rng: &mut ThreadRng, n: usize, m: usize, draws: &mut u64) -> (clauses: Vec<Clause>)
    requires
        n >= 3,
    ensures
        forall|i: int| 0 <= i < clauses@.len() ==> three_sat_clause(#[trigger] cnf_view(clauses@)[i], n as nat),
        cnf_view(clauses@).no_duplicates(),
        clauses@.len() <= m,
        *final(draws) > 0 ==> clauses@.len() == m,
        *final(draws) <= *old(draws),
{
    let mut clauses: Vec<Clause> = Vec::new();
    let ghost start = *draws;
    while clauses.len() < m && *draws > 0
        invariant
            n >= 3,
            *draws <= start,
            forall|i: int| 0 <= i < clauses@.len() ==> three_sat_clause(#[trigger] cnf_view(clauses@)[i], n as nat),
            cnf_view(clauses@).no_duplicates(),
            clauses@.len() <= m,
        decreases *draws,
    {
        *draws = *draws - 1;
        let literals = random_three_clause(rng, n);
        if !contains_clause(&clauses, &literals) {
            let ghost before = cnf_view(clauses@);
            let ghost lits = literals@;
            clauses.push(Clause { literals });
            proof {
                assert(cnf_view(clauses@) =~= before.push(lits));
                assert forall|a: int, b: int| 0 <= a < b < cnf_view(clauses@).len() implies cnf_view(clauses@)[a]
                    != cnf_view(clauses@)[b] by {
                    if b == before.len() {
                        assert(before.contains(before[a]));
                    } else {
                        assert(before[a] != before[b]);
                    }
                }
            }
        }
    }
    clauses
}

/// A game in progress on the reactor.
pub struct GameState {
    pub n: usize,
    pub vars: Vec<bool>,
    pub clauses: Vec<Clause>,
    pub is_won: bool,
    pub steps: u32,
    pub actual_sols: usize,
    pub last_flipped: Option<usize>,
    pub visited_counts: VisitCounter,
    pub mode: GameMode,
}

impl GameState {
    /// The clauses as literal lists.
    pub open spec fn formula(&self) -> Seq<Seq<(usize, bool)>> {
        cnf_view(self.clauses@)
    }

    /// What every state of the game keeps: one value per switch, literals over the
    /// switches, the win flag and the model count telling the truth, and a tally of
    /// visits that holds the current assignment and counts one visit per step plus the
    /// start.
    pub open spec fn wf(&self) -> bool {
        &&& self.vars@.len() == self.n
        &&& vars_below(self.formula(), self.n as nat)
        &&& self.is_won == formula_holds(self.formula(), self.vars@)
        &&& self.actual_sols == model_count(self.n as nat, self.formula())
        &&& self.visited_counts.wf()
        &&& self.visited_counts.total() == self.steps + 1
        &&& self.visited_counts.count(self.vars@) >= 1
        &&& (self.last_flipped matches Some(i) ==> i < self.n)
    }

    /// A fresh game on `clauses`, whose model count is `actual_sols`: random starting
    /// switches, no steps, one visit of the start.
    fn start(rng: &mut ThreadRng, n: usize, clauses: Vec<Clause>, actual_sols: usize, mode: GameMode) -> (g: Self)
        requires
            vars_below(cnf_view(clauses@), n as nat),
            actual_sols == model_count(n as nat, cnf_view(clauses@)),
        ensures
            g.wf(),
            g.n == n,
            g.clauses@ == clauses@,
            g.mode == mode,
            g.steps == 0,
            g.last_flipped is None,
            forall|k: Seq<bool>| #[trigger] g.visited_counts.count(k) == if k == g.vars@ { 1nat } else { 0nat },
    {
        let initial_vars = random_bits(rng, n);
        let initial_win = formula_satisfied(&clauses, &initial_vars);
        let initial_counts = VisitCounter::new_with(copy_assignment(&initial_vars));
        GameState {
            n,
            vars: initial_vars,
            clauses,
            is_won: initial_win,
            steps: 0,
            actual_sols,
            last_flipped: None,
            visited_counts: initial_counts,
            mode,
        }
    }

    /// Draws a new puzzle over `n` switches in terrain `mode`.
    ///
    /// Random: `m` different random three-switch clauses, drawn again and again until the
    /// model count is between 1 and `max_sols`. XOR random: a hidden random solution and
    /// `min(n + n/2, C(n, 3))` different random triplets given its parities. XOR ring: the
    /// ring triplets given the parities of a hidden random solution. Avalanche: a random
    /// gate circuit with its outputs locked. The game starts from random switches.
    /// `None` only when the draws (one short of `2^64`) run out first, or when the puzzle
    /// drawn has more models than a `usize` holds: never for XOR ring and avalanche below
    /// `usize::BITS` switches, nor for XOR random below three switches (no triplet to
    /// draw); always for the random terrain when `max_sols` is 0; and with no clauses asked
    /// for, exactly when all `2^n` assignments are more than `max_sols`.
    pub fn generate(n: usize, m: usize, max_sols: usize, mode: GameMode) -> (g: Option<Self>)
        requires
            mode == GameMode::Random ==> 3 <= n < usize::BITS,
            mode == GameMode::Random ==> m <= 8 * (n * (n - 1) * (n - 2) / 6),
            mode == GameMode::XorRandom || mode == GameMode::XorRing ==> n <= usize::MAX / 2,
            mode == GameMode::XorRandom ==> n * (n - 1) * (n - 2) <= usize::MAX,
            mode == GameMode::Avalanche ==> n >= 2,
        ensures
            g matches Some(g) ==> {
                &&& g.wf()
                &&& g.n == n
                &&& g.mode == mode
                &&& g.steps == 0
                &&& g.last_flipped is None
                &&& forall|k: Seq<bool>| #[trigger] g.visited_counts.count(k) == if k == g.vars@ { 1nat } else { 0nat }
                &&& mode == GameMode::Random ==> {
                    &&& g.formula().len() == m
                    &&& g.formula().no_duplicates()
                    &&& forall|i: int| 0 <= i < m ==> three_sat_clause(#[trigger] g.formula()[i], n as nat)
                    &&& 0 < g.actual_sols <= max_sols
                }
                &&& mode == GameMode::XorRandom ==> exists|secret: Seq<bool>, ts: Seq<(usize, usize, usize)>| {
                    &&& secret.len() == n
                    &&& triplets_below(ts, n as nat)
                    &&& ts.no_duplicates()
                    &&& (forall|k: int| 0 <= k < ts.len() ==> strictly_sorted(#[trigger] ts[k]))
                    &&& ts.len() == xor_equation_count(n as nat)
                    &&& #[trigger] g.formula() == xor_system(ts, secret)
                }
                &&& mode == GameMode::XorRing ==> exists|secret: Seq<bool>|
                    secret.len() == n && #[trigger] g.formula() == xor_system(ring_triplets(n), secret)
                &&& mode == GameMode::Avalanche ==> exists|inputs: Seq<bool>, gates: Seq<(usize, usize, bool)>| {
                    &&& inputs.len() == if n / 3 > 2 { n / 3 } else { 2 }
                    &&& inputs.len() + gates.len() == n
                    &&& gates_wf(inputs.len(), gates)
                    &&& #[trigger] g.formula() == circuit_clauses(inputs, gates, if n / 3 > 1 { (n / 3) as nat } else { 1 })
                }
                &&& mode != GameMode::Random ==> g.actual_sols >= 1
            },
            mode == GameMode::XorRing ==> g is Some || exists|secret: Seq<bool>|
                secret.len() == n && #[trigger] model_count(n as nat, xor_system(ring_triplets(n), secret)) > usize::MAX,
            mode == GameMode::Avalanche ==> g is Some || exists|inputs: Seq<bool>, gates: Seq<(usize, usize, bool)>| {
                &&& inputs.len() == if n / 3 > 2 { n / 3 } else { 2 }
                &&& inputs.len() + gates.len() == n
                &&& gates_wf(inputs.len(), gates)
                &&& #[trigger] model_count(n as nat, circuit_clauses(inputs, gates, output_count(n as nat))) > usize::MAX
            },
            (mode == GameMode::XorRing || mode == GameMode::Avalanche) && n < usize::BITS ==> g is Some,
            mode == GameMode::XorRandom && n < 3 ==> g is Some,
            mode == GameMode::Random && max_sols == 0 ==> g is None,
            mode == GameMode::Random && m == 0 ==> (g is Some <==> pow2(n as nat) <= max_sols),
    {
        let mut rng = thread_rng();
        let mut draws: u64 = u64::MAX;
        match mode {
            GameMode::Random => {
                while draws > 0
                    invariant
                        n >= 3,
                        n < usize::BITS,
                        mode == GameMode::Random,
                        m == 0 && pow2(n as nat) <= max_sols ==> draws == u64::MAX,
                    decreases draws,
                {
                    draws = draws - 1;
                    let clauses = random_three_sat(&mut rng, n, m, &mut draws);
                    if clauses.len() < m {
                        return None;
                    }
                    proof {
                        if m == 0 {
                            assert(cnf_view(clauses@) =~= Seq::<Seq<(usize, bool)>>::empty());
                            lemma_count_no_clauses(n as nat, Seq::empty());
                            lemma_pow2_pos(n as nat);
                        }
                        assert forall|i: int| 0 <= i < cnf_view(clauses@).len() implies clause_vars_below(
                            #[trigger] cnf_view(clauses@)[i],
                            n as nat,
                        ) by {
                            assert(three_sat_clause(cnf_view(clauses@)[i], n as nat));
                        }
                        lemma_model_count_fits(n, cnf_view(clauses@));
                    }
                    let actual_sols = count_solutions(n, &clauses);
                    if actual_sols > 0 && actual_sols <= max_sols {
                        let ghost f = cnf_view(clauses@);
                        let g = Self::start(&mut rng, n, clauses, actual_sols, mode);
                        assert(g.formula() == f);
                        assert(g.formula().len() == m);
                        assert(g.formula().no_duplicates());
                        assert(0 < g.actual_sols <= max_sols);
                        assert forall|i: int| 0 <= i < m implies three_sat_clause(#[trigger] g.formula()[i], n as nat) by {
                            assert(three_sat_clause(f[i], n as nat));
                        }
                        return Some(g);
                    }
                }
                None
            },
            GameMode::XorRandom | GameMode::XorRing => {
                let (clauses, Ghost(secret), Ghost(ts)) = xor_puzzle(
                    &mut rng,
                    n,
                    mode == GameMode::XorRandom,
                    &mut draws,
                );
                if mode == GameMode::XorRandom && draws == 0 {
                    return None;
                }
                proof {
                    lemma_model_count_positive_iff_satisfiable(n as nat, cnf_view(clauses@));
                    if n < usize::BITS {
                        lemma_model_count_fits(n, cnf_view(clauses@));
                    }
                }
                let ghost f = cnf_view(clauses@);
                let actual_sols = match count_solutions_checked(n, &clauses) {
                    Some(c) => c,
                    None => {
                        proof {
                            if mode == GameMode::XorRing {
                                assert(model_count(n as nat, xor_system(ring_triplets(n), secret)) > usize::MAX);
                            }
                        }
                        return None;
                    },
                };
                let g = Self::start(&mut rng, n, clauses, actual_sols, mode);
                proof {
                    assert(g.formula() == f);
                    assert(g.formula() == xor_system(ts, secret));
                }
                Some(g)
            },
            GameMode::Avalanche => {
                let (clauses, secret, Ghost(circuit)) = avalanche_circuit(&mut rng, n);
                proof {
                    let (inputs, gates) = circuit;
                    lemma_circuit_clauses(inputs, gates, if n / 3 > 1 { (n / 3) as nat } else { 1 });
                    lemma_model_count_positive_iff_satisfiable(n as nat, cnf_view(clauses@));
                    assert(formula_holds(cnf_view(clauses@), secret@));
                    assert(crate::count::satisfiable(n as nat, cnf_view(clauses@)));
                    if n < usize::BITS {
                        lemma_model_count_fits(n, cnf_view(clauses@));
                    }
                }
                let ghost f = cnf_view(clauses@);
                let actual_sols = match count_solutions_checked(n, &clauses) {
                    Some(c) => c,
                    None => {
                        proof {
                            let (inputs, gates) = circuit;
                            assert(output_count(n as nat) == if n / 3 > 1 { (n / 3) as nat } else { 1 });
                            assert(model_count(n as nat, circuit_clauses(inputs, gates, output_count(n as nat))) > usize::MAX);
                        }
                        return None;
                    },
                };
                let g = Self::start(&mut rng, n, clauses, actual_sols, mode);
                proof {
                    assert(g.formula() == f);
                }
                Some(g)
            },
        }
    }

    /// Sets the win flag to whether every clause holds under the current switches.
    pub fn check_win_condition(&mut self)
        requires
            vars_below(old(self).formula(), old(self).vars@.len()),
        ensures
            final(self).is_won == formula_holds(old(self).formula(), old(self).vars@),
            final(self).vars == old(self).vars,
            final(self).clauses == old(self).clauses,
            final(self).n == old(self).n,
            final(self).steps == old(self).steps,
            final(self).actual_sols == old(self).actual_sols,
            final(self).last_flipped == old(self).last_flipped,
            final(self).visited_counts == old(self).visited_counts,
            final(self).mode == old(self).mode,
    {
        self.is_won = formula_satisfied(&self.clauses, &self.vars);
    }

    /// A click on switch `i` while the game is not won: the switch flips, the step count
    /// grows by one, the switch is marked as the last flipped, the win flag is brought up
    /// to date and the new assignment gets one more visit. A won game stays as it is.
    pub fn flip(&mut self, i: usize)
        requires
            old(self).wf(),
            i < old(self).n,
            old(self).steps < u32::MAX,
        ensures
            final(self).wf(),
            old(self).is_won ==> *final(self) == *old(self),
            !old(self).is_won ==> {
                &&& final(self).vars@ == old(self).vars@.update(i as int, !old(self).vars@[i as int])
                &&& final(self).steps == old(self).steps + 1
                &&& final(self).last_flipped == Some(i)
                &&& forall|k: Seq<bool>| #[trigger] final(self).visited_counts.count(k) == if k == final(self).vars@ {
                    old(self).visited_counts.count(k) + 1
                } else {
                    old(self).visited_counts.count(k)
                }
            },
            final(self).n == old(self).n,
            final(self).clauses == old(self).clauses,
            final(self).actual_sols == old(self).actual_sols,
            final(self).mode == old(self).mode,
    {
        if self.is_won {
            return;
        }
        let ghost before = self.vars@;
        let flipped = !self.vars[i];
        self.vars.set(i, flipped);
        self.steps = self.steps + 1;
        self.last_flipped = Some(i);
        self.check_win_condition();
        proof {
            assert(self.vars@ != before) by {
                assert(self.vars@[i as int] != before[i as int]);
            }
            old(self).visited_counts.lemma_two_counts_within_total(before, self.vars@);
        }
        let key = copy_assignment(&self.vars);
        self.visited_counts.record(key);
    }

    /// How often the current assignment has been reached; a state never recorded counts
    /// as one visit.
    pub fn current_state_count(&self) -> (c: u32)
        requires
            self.visited_counts.wf(),
        ensures
            c == if self.visited_counts.count(self.vars@) == 0 { 1 } else { self.visited_counts.count(self.vars@) },
    {
        match self.visited_counts.get(&self.vars) {
            Some(c) => c,
            None => 1,
        }
    }

    /// How often the assignment reached by flipping switch `i` has been visited (the
    /// radar above each switch).
    pub fn projected_count(&self, i: usize) -> (c: u32)
        requires
            self.visited_counts.wf(),
            i < self.vars@.len(),
        ensures
            c == self.visited_counts.count(self.vars@.update(i as int, !self.vars@[i as int])),
    {
        self.visited_counts.count_after_flip(&self.vars, i)
    }
}

/// Law: flipping the same switch twice gives back the assignment it started from.
pub proof fn lemma_flip_twice(v: Seq<bool>, i: int)
    requires
        0 <= i < v.len(),
    ensures
        v.update(i, !v[i]).update(i, !v.update(i, !v[i])[i]) == v,
{
    assert(v.update(i, !v[i]).update(i, !v.update(i, !v[i])[i]) =~= v);
}

} // verus!
