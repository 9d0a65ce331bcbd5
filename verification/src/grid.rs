//! The twelve-column reactor: hard random 3-SAT or a ring of parity equations over
//! `n` switches, with its exact model count, and the clauses shown a page at a time.

use vstd::prelude::*;
use vstd::arithmetic::power2::lemma_pow2_pos;
use rand::rngs::ThreadRng;
use crate::cnf::{
    Clause, formula_holds, cnf_view, clause_vars_below, vars_below, vars_increasing,
    vars_nondecreasing, distinct_vars, formula_satisfied, sort_literals, contains_clause,
};
use crate::count::{model_count, count_solutions_checked, lemma_count_implied, lemma_count_no_clauses, satisfiable, lemma_model_count_fits, lemma_model_count_positive_iff_satisfiable};
use crate::encode::{xor3_clauses, reordered_clauses, lemma_reordered_clauses};
use crate::planted::{xor_system, triplet_parity, triplets_below, lemma_xor_system, lemma_xor_system_vars, lemma_mod_wrap};
use crate::random::{thread_rng, gen_ratio, random_bits, shuffled_indices};
use crate::reactor::three_sat_clause;
use crate::visits::{VisitCounter, copy_assignment};

verus! {

/// The two terrains of the twelve-column reactor.
#[derive(Clone, Copy, PartialEq, Eq, Structural, Debug)]
pub enum GameMode {
    Hard3SAT,
    XorRing,
}

/// The other terrain.
pub open spec fn next_mode(m: GameMode) -> GameMode {
    match m {
        GameMode::Hard3SAT => GameMode::XorRing,
        GameMode::XorRing => GameMode::Hard3SAT,
    }
}

/// The button caption of terrain `m`.
pub open spec fn mode_label(m: GameMode) -> Seq<char> {
    match m {
        GameMode::Hard3SAT => "Mode: Hard 3-SAT"@,
        GameMode::XorRing => "Mode: XOR Ring"@,
    }
}

impl GameMode {
    /// The other terrain.
    pub fn next(&self) -> (m: Self)
        ensures
            m == next_mode(*self),
    {
        match self {
            GameMode::Hard3SAT => GameMode::XorRing,
            GameMode::XorRing => GameMode::Hard3SAT,
        }
    }

    /// The caption of the terrain.
    pub fn to_string(&self) -> (s: &'static str)
        ensures
            s@ == mode_label(*self),
    {
        match self {
            GameMode::Hard3SAT => "Mode: Hard 3-SAT",
            GameMode::XorRing => "Mode: XOR Ring",
        }
    }
}

/// Law: switching terrain twice comes back to the start.
pub proof fn lemma_mode_cycle(m: GameMode)
    ensures
        next_mode(next_mode(m)) == m,
        next_mode(m) != m,
{
}

/// The unsorted ring triplets: each switch with its next two, going round.
pub open spec fn ring3(n: usize) -> Seq<(usize, usize, usize)> {
    Seq::new(n as nat, |i: int| (i as usize, ((i + 1) % (n as int)) as usize, ((i + 2) % (n as int)) as usize))
}

/// Law: the grid ring of `n >= 3` switches, spelled out: equation `k` is over switches
/// `k, k+1, k+2` going round, the last two wrapping to the start, and always over three
/// different switches.
pub proof fn lemma_ring3_explicit(n: usize)
    requires
        3 <= n,
    ensures
        ring3(n).len() == n,
        forall|k: int| 0 <= k && k + 2 < n ==> #[trigger] ring3(n)[k] == (k as usize, (k + 1) as usize, (k + 2) as usize),
        ring3(n)[n - 2] == ((n - 2) as usize, (n - 1) as usize, 0usize),
        ring3(n)[n - 1] == ((n - 1) as usize, 0usize, 1usize),
        forall|k: int| 0 <= k < n ==> (#[trigger] ring3(n)[k]).0 != ring3(n)[k].1 && ring3(n)[k].1 != ring3(n)[k].2
            && ring3(n)[k].0 != ring3(n)[k].2,
{
    let ts = ring3(n);
    let ni = n as int;
    assert forall|k: int| 0 <= k && k + 2 < n implies #[trigger] ts[k] == (k as usize, (k + 1) as usize, (k + 2) as usize) by {
        lemma_mod_wrap(k + 1, ni);
        lemma_mod_wrap(k + 2, ni);
    }
    lemma_mod_wrap(ni - 1, ni);
    lemma_mod_wrap(ni, ni);
    lemma_mod_wrap(ni + 1, ni);
    assert forall|k: int| 0 <= k < n implies (#[trigger] ts[k]).0 != ts[k].1 && ts[k].1 != ts[k].2 && ts[k].0 != ts[k].2 by {
        if k + 2 < n {
        } else if k == ni - 2 {
        } else {
        }
    }
}

/// One hard clause: three different switches in shuffled order, each with a fair sign,
/// then ordered by switch.
fn hard_clause(rng: &mut ThreadRng, n: usize) -> (lits: Vec<(usize, bool)>)
    requires
        n >= 3,
    ensures
        three_sat_clause(lits@, n as nat),
{
    let v_indices = shuffled_indices(rng, n);
    let s0 = gen_ratio(rng, 1, 2);
    let s1 = gen_ratio(rng, 1, 2);
    let s2 = gen_ratio(rng, 1, 2);
    let lits = vec![(v_indices[0], s0), (v_indices[1], s1), (v_indices[2], s2)];
    assert(distinct_vars(lits@)) by {
        assert(v_indices@[0] != v_indices@[1] && v_indices@[0] != v_indices@[2] && v_indices@[1] != v_indices@[2]);
    }
    let sorted = sort_literals(&lits);
    proof {
        assert forall|j: int| 0 <= j < sorted@.len() implies (#[trigger] sorted@[j]).0 < n by {
            sorted@.to_multiset_ensures();
            lits@.to_multiset_ensures();
            assert(sorted@.contains(sorted@[j]));
            assert(sorted@.to_multiset().count(sorted@[j]) > 0);
            assert(lits@.contains(sorted@[j]));
        }
    }
    sorted
}

/// Appends one ring equation: the four clauses forbidding every pattern of switches
/// `a`, `b`, `c` whose exclusive or differs from `res`, each ordered by switch.
fn push_ring_equation(clauses: &mut Vec<Clause>, a: usize, b: usize, c: usize, res: bool)
    ensures
        final(clauses)@.len() == old(clauses)@.len() + 4,
        cnf_view(final(clauses)@).take(old(clauses)@.len() as int) == cnf_view(old(clauses)@),
        reordered_clauses(xor3_clauses(a, b, c, res), cnf_view(final(clauses)@).skip(old(clauses)@.len() as int)),
        forall|q: int| old(clauses)@.len() <= q < final(clauses)@.len() ==> vars_nondecreasing(#[trigger] cnf_view(final(clauses)@)[q]),
{
    let ghost start = clauses@.len();
    let ghost before = cnf_view(clauses@);
    let configs: Vec<(bool, bool, bool)> = if res {
        vec![(true, true, true), (true, false, false), (false, true, false), (false, false, true)]
    } else {
        vec![(false, false, false), (false, true, true), (true, false, true), (true, true, false)]
    };
    let ghost x = xor3_clauses(a, b, c, res);
    let mut q: usize = 0;
    while q < 4
        invariant
            q <= 4,
            configs@.len() == 4,
            x == xor3_clauses(a, b, c, res),
            forall|k: int| 0 <= k < 4 ==> x[k] == seq![(a, (#[trigger] configs@[k]).0), (b, configs@[k].1), (c, configs@[k].2)],
            clauses@.len() == start + q,
            cnf_view(clauses@).take(start as int) == before,
            reordered_clauses(x.take(q as int), cnf_view(clauses@).skip(start as int)),
            forall|k: int| start <= k < clauses@.len() ==> vars_nondecreasing(#[trigger] cnf_view(clauses@)[k]),
        decreases 4 - q,
    {
        let (sa, sb, sc) = configs[q];
        let lits = vec![(a, sa), (b, sb), (c, sc)];
        assert(lits@ =~= x[q as int]);
        let sorted = sort_literals(&lits);
        let ghost mid = cnf_view(clauses@);
        let ghost sl = sorted@;
        clauses.push(Clause { literals: sorted });
        proof {
            assert(cnf_view(clauses@) =~= mid.push(sl));
            assert(cnf_view(clauses@).take(start as int) =~= mid.take(start as int));
            assert(cnf_view(clauses@).skip(start as int) =~= mid.skip(start as int).push(sl));
            let g = cnf_view(clauses@).skip(start as int);
            let f = x.take(q + 1);
            assert forall|k: int| 0 <= k < f.len() implies (#[trigger] g[k]).to_multiset() == f[k].to_multiset() by {
                if k < q {
                    assert(g[k] == mid.skip(start as int)[k]);
                    assert(f[k] == x.take(q as int)[k]);
                }
            }
        }
        q = q + 1;
    }
    assert(x.take(4) =~= x);
}

/// A game in progress on the twelve-column reactor.
pub struct GameState {
    pub n: usize,
    pub vars: Vec<bool>,
    pub clauses: Vec<Clause>,
    pub is_won: bool,
    pub steps: u32,
    pub actual_sols: usize,
    pub last_flipped: Option<usize>,
    pub visited_counts: VisitCounter,
    pub mode: GameMode,
    pub page: usize,
    pub per_page: usize,
}

impl GameState {
    /// The clauses as literal lists.
    pub open spec fn formula(&self) -> Seq<Seq<(usize, bool)>> {
        cnf_view(self.clauses@)
    }

    /// What every state keeps: one value per switch, literals over the switches, the
    /// true model count, a tally of visits holding the current assignment with one visit
    /// per step plus the start, and a page that starts within the clauses (or is the
    /// first).
    pub open spec fn wf(&self) -> bool {
        &&& self.vars@.len() == self.n
        &&& vars_below(self.formula(), self.n as nat)
        &&& self.actual_sols == model_count(self.n as nat, self.formula())
        &&& self.visited_counts.wf()
        &&& self.visited_counts.total() == self.steps + 1
        &&& self.visited_counts.count(self.vars@) >= 1
        &&& (self.last_flipped matches Some(i) ==> i < self.n)
        &&& self.per_page > 0
        &&& (self.page == 0 || self.page * self.per_page < self.clauses@.len())
    }

    /// Draws a new puzzle over `n` switches.
    ///
    /// Hard 3-SAT: `m` different random three-switch clauses, drawn again and again until
    /// the model count is positive. XOR ring: for every switch `i`, the parity that a
    /// hidden random solution gives `i, i+1, i+2` (round), as four clauses each ordered by
    /// switch. The game starts from random switches, not yet won, on the first page of 144
    /// clauses. `None` only when the draws (one short of `2^64`) run out first, or when the
    /// puzzle drawn has more models than a `usize` holds: never for XOR ring, nor for
    /// Hard 3-SAT when no clause is asked for, below `usize::BITS` switches.
    #[verifier::spinoff_prover]
    pub fn generate(n: usize, m: usize, mode: GameMode) -> (g: Option<Self>)
        requires
            mode == GameMode::Hard3SAT ==> n >= 3,
            mode == GameMode::Hard3SAT ==> m <= 8 * (n * (n - 1) * (n - 2) / 6),
            mode == GameMode::XorRing ==> n <= usize::MAX - 2,
        ensures
            g matches Some(g) ==> {
                &&& g.wf()
                &&& g.n == n
                &&& g.mode == mode
                &&& !g.is_won
                &&& g.steps == 0
                &&& g.last_flipped is None
                &&& g.page == 0
                &&& g.per_page == 144
                &&& forall|k: Seq<bool>| #[trigger] g.visited_counts.count(k) == if k == g.vars@ { 1nat } else { 0nat }
                &&& mode == GameMode::Hard3SAT ==> {
                    &&& g.formula().len() == m
                    &&& g.formula().no_duplicates()
                    &&& (forall|i: int| 0 <= i < m ==> three_sat_clause(#[trigger] g.formula()[i], n as nat))
                }
                &&& mode == GameMode::XorRing ==> exists|secret: Seq<bool>| {
                    &&& secret.len() == n
                    &&& #[trigger] reordered_clauses(xor_system(ring3(n), secret), g.formula())
                    &&& forall|q: int| 0 <= q < g.formula().len() ==> vars_nondecreasing(#[trigger] g.formula()[q])
                }
                &&& g.actual_sols > 0
            },
            mode == GameMode::XorRing ==> g is Some || exists|secret: Seq<bool>|
                secret.len() == n && #[trigger] model_count(n as nat, xor_system(ring3(n), secret)) > usize::MAX,
            mode == GameMode::XorRing && n < usize::BITS ==> g is Some,
            mode == GameMode::Hard3SAT && m == 0 && n < usize::BITS ==> g is Some,
    {
        let mut rng = thread_rng();
        let mut draws: u64 = u64::MAX;
        let clauses: Vec<Clause>;
        let actual_sols: usize;
        match mode {
            GameMode::Hard3SAT => {
                let mut found: Option<Vec<Clause>> = None;
                let mut found_count: usize = 0;
                while draws > 0
                    invariant
                        3 <= n,
                        mode == GameMode::Hard3SAT,
                        m == 0 && n < usize::BITS ==> (found is Some || draws == u64::MAX),
                        found matches Some(c) ==> {
                            &&& cnf_view(c@).len() == m
                            &&& cnf_view(c@).no_duplicates()
                            &&& (forall|i: int| 0 <= i < m ==> three_sat_clause(#[trigger] cnf_view(c@)[i], n as nat))
                            &&& model_count(n as nat, cnf_view(c@)) > 0
                            &&& found_count == model_count(n as nat, cnf_view(c@))
                        },
                    ensures
                        m == 0 && n < usize::BITS ==> found is Some,
                        found matches Some(c) ==> {
                            &&& cnf_view(c@).len() == m
                            &&& cnf_view(c@).no_duplicates()
                            &&& (forall|i: int| 0 <= i < m ==> three_sat_clause(#[trigger] cnf_view(c@)[i], n as nat))
                            &&& model_count(n as nat, cnf_view(c@)) > 0
                            &&& found_count == model_count(n as nat, cnf_view(c@))
                        },
                    decreases draws,
                {
                    draws = draws - 1;
                    let ghost outer = draws;
                    let mut cand: Vec<Clause> = Vec::new();
                    while cand.len() < m && draws > 0
                        invariant
                            n >= 3,
                            draws <= outer,
                            forall|i: int| 0 <= i < cand@.len() ==> three_sat_clause(#[trigger] cnf_view(cand@)[i], n as nat),
                            cnf_view(cand@).no_duplicates(),
                            cand@.len() <= m,
                        decreases draws,
                    {
                        draws = draws - 1;
                        let lits = hard_clause(&mut rng, n);
                        if !contains_clause(&cand, &lits) {
                            let ghost before = cnf_view(cand@);
                            let ghost l = lits@;
                            cand.push(Clause { literals: lits });
                            proof {
                                assert(cnf_view(cand@) =~= before.push(l));
                                assert forall|a: int, b: int| 0 <= a < b < cnf_view(cand@).len() implies cnf_view(cand@)[a]
                                    != cnf_view(cand@)[b] by {
                                    if b == before.len() {
                                        assert(before.contains(before[a]));
                                    } else {
                                        assert(before[a] != before[b]);
                                    }
                                }
                            }
                        }
                    }
                    if cand.len() < m {
                        return None;
                    }
                    proof {
                        assert forall|i: int| 0 <= i < cnf_view(cand@).len() implies clause_vars_below(
                            #[trigger] cnf_view(cand@)[i],
                            n as nat,
                        ) by {
                            assert(three_sat_clause(cnf_view(cand@)[i], n as nat));
                        }
                        if n < usize::BITS {
                            lemma_model_count_fits(n, cnf_view(cand@));
                        }
                        if m == 0 {
                            assert(cnf_view(cand@) =~= Seq::<Seq<(usize, bool)>>::empty());
                            lemma_count_no_clauses(n as nat, Seq::empty());
                            lemma_pow2_pos(n as nat);
                        }
                    }
                    match count_solutions_checked(n, &cand) {
                        None => {
                            return None;
                        },
                        Some(actual) => {
                            if actual > 0 {
                                found = Some(cand);
                                found_count = actual;
                                break;
                            }
                        },
                    }
                }
                match found {
                    Some(c) => {
                        clauses = c;
                        actual_sols = found_count;
                    },
                    None => {
                        return None;
                    },
                }
            },
            GameMode::XorRing => {
                let secret = random_bits(&mut rng, n);
                let mut cs: Vec<Clause> = Vec::new();
                let ghost ts = ring3(n);
                let mut i: usize = 0;
                while i < n
                    invariant
                        i <= n <= usize::MAX - 2,
                        secret@.len() == n,
                        ts == ring3(n),
                        reordered_clauses(xor_system(ts.take(i as int), secret@), cnf_view(cs@)),
                        forall|q: int| 0 <= q < cs@.len() ==> vars_nondecreasing(#[trigger] cnf_view(cs@)[q]),
                    decreases n - i,
                {
                    let a = i;
                    let b = (i + 1) % n;
                    let c = (i + 2) % n;
                    let res = secret[a] ^ secret[b] ^ secret[c];
                    let ghost before = cnf_view(cs@);
                    push_ring_equation(&mut cs, a, b, c, res);
                    proof {
                        let t = ts[i as int];
                        assert(t == (a, b, c));
                        assert(ts.take(i + 1).drop_last() =~= ts.take(i as int));
                        assert(res == triplet_parity(secret@, t));
                        let f0 = xor_system(ts.take(i as int), secret@);
                        let f1 = xor_system(ts.take(i + 1), secret@);
                        let x = xor3_clauses(a, b, c, res);
                        assert(f1 == f0 + x);
                        let g = cnf_view(cs@);
                        assert(g.take(before.len() as int) == before);
                        assert(g.skip(before.len() as int).len() == 4);
                        assert(g.len() == before.len() + 4);
                        assert(f0.len() == before.len());
                        assert(x.len() == 4);
                        assert forall|q: int| 0 <= q < cs@.len() implies vars_nondecreasing(#[trigger] cnf_view(cs@)[q]) by {
                            if q < before.len() {
                                assert(g[q] == g.take(before.len() as int)[q]);
                            }
                        }
                        assert forall|q: int| 0 <= q < f1.len() implies (#[trigger] g[q]).to_multiset() == f1[q].to_multiset() by {
                            if q < f0.len() {
                                assert(g[q] == before[q]);
                                assert(f1[q] == f0[q]);
                            } else {
                                assert(g[q] == g.skip(before.len() as int)[q - before.len()]);
                                assert(f1[q] == x[q - f0.len()]);
                            }
                        }
                    }
                    i = i + 1;
                }
                proof {
                    assert(ts.take(n as int) =~= ts);
                    assert(triplets_below(ts, n as nat)) by {
                        assert forall|k: int| 0 <= k < ts.len() implies (#[trigger] ts[k]).0 < n && ts[k].1 < n && ts[k].2 < n by {
                            assert(0 <= (k + 1) % (n as int) < n);
                            assert(0 <= (k + 2) % (n as int) < n);
                        }
                    }
                    lemma_xor_system_vars(ts, secret@, n as nat);
                    lemma_xor_system(ts, secret@, secret@);
                    lemma_reordered_clauses(xor_system(ts, secret@), cnf_view(cs@), secret@, n as nat);
                    lemma_model_count_positive_iff_satisfiable(n as nat, cnf_view(cs@));
                    assert(satisfiable(n as nat, cnf_view(cs@)));
                    if n < usize::BITS {
                        lemma_model_count_fits(n, cnf_view(cs@));
                    }
                }
                match count_solutions_checked(n, &cs) {
                    None => {
                        proof {
                            let f = xor_system(ts, secret@);
                            let g = cnf_view(cs@);
                            assert forall|a: Seq<bool>| a.len() == n && #[trigger] formula_holds(g, a) implies formula_holds(f, a) by {
                                lemma_reordered_clauses(f, g, a, n as nat);
                            }
                            lemma_count_implied(n as nat, g, f, Seq::empty());
                            assert(model_count(n as nat, xor_system(ring3(n), secret@)) > usize::MAX);
                        }
                        return None;
                    },
                    Some(c) => {
                        actual_sols = c;
                    },
                }
                clauses = cs;
            },
        }
        let initial_vars = random_bits(&mut rng, n);
        let initial_counts = VisitCounter::new_with(copy_assignment(&initial_vars));
        let g = GameState {
            n,
            vars: initial_vars,
            clauses,
            is_won: false,
            steps: 0,
            actual_sols,
            last_flipped: None,
            visited_counts: initial_counts,
            mode,
            page: 0,
            per_page: 144,
        };
        assert(g.wf());
        Some(g)
    }

    /// A click on switch `i` while the game is not won: the switch flips, the step count
    /// grows by one, the switch is marked as the last flipped, the win flag tells whether
    /// every clause holds and the new assignment gets one more visit.
    pub fn flip(&mut self, i: usize)
        requires
            old(self).wf(),
            i < old(self).n,
            old(self).steps < u32::MAX,
        ensures
            final(self).wf(),
            old(self).is_won ==> *final(self) == *old(self),
            !old(self).is_won ==> {
                &&& final(self).vars@ == old(self).vars@.update(i as int, !old(self).vars@[i as int])
                &&& final(self).steps == old(self).steps + 1
                &&& final(self).last_flipped == Some(i)
                &&& final(self).is_won == formula_holds(final(self).formula(), final(self).vars@)
                &&& forall|k: Seq<bool>| #[trigger] final(self).visited_counts.count(k) == if k == final(self).vars@ {
                    old(self).visited_counts.count(k) + 1
                } else {
                    old(self).visited_counts.count(k)
                }
            },
            final(self).n == old(self).n,
            final(self).clauses == old(self).clauses,
            final(self).mode == old(self).mode,
            final(self).page == old(self).page,
    {
        if self.is_won {
            return;
        }
        let ghost before = self.vars@;
        let flipped = !self.vars[i];
        self.vars.set(i, flipped);
        self.steps = self.steps + 1;
        self.last_flipped = Some(i);
        self.is_won = formula_satisfied(&self.clauses, &self.vars);
        proof {
            assert(self.vars@ != before) by {
                assert(self.vars@[i as int] != before[i as int]);
            }
            old(self).visited_counts.lemma_two_counts_within_total(before, self.vars@);
        }
        let key = copy_assignment(&self.vars);
        self.visited_counts.record(key);
    }

    /// How many pages the clauses fill.
    pub fn total_pages(&self) -> (pages: usize)
        requires
            self.per_page > 0,
            self.clauses@.len() + self.per_page <= usize::MAX + 1,
        ensures
            pages == (self.clauses@.len() + self.per_page - 1) / (self.per_page as int),
    {
        (self.clauses.len() + (self.per_page - 1)) / self.per_page
    }

    /// Goes back one page unless on the first.
    pub fn prev_page(&mut self)
        requires
            old(self).wf(),
        ensures
            final(self).wf(),
            final(self).page == if old(self).page > 0 { (old(self).page - 1) as usize } else { 0 },
            final(self).vars == old(self).vars,
            final(self).clauses == old(self).clauses,
            final(self).steps == old(self).steps,
    {
        if self.page > 0 {
            proof {
                assert((self.page - 1) * self.per_page <= self.page * self.per_page) by (nonlinear_arith)
                    requires
                        self.page > 0,
                        self.per_page > 0,
                ;
            }
            self.page = self.page - 1;
        }
    }

    /// Goes on one page when the next page would still start within the clauses.
    pub fn next_page(&mut self)
        requires
            old(self).wf(),
            (old(self).page + 1) * old(self).per_page <= usize::MAX,
        ensures
            final(self).wf(),
            final(self).page == if (old(self).page + 1) * old(self).per_page < old(self).clauses@.len() {
                (old(self).page + 1) as usize
            } else {
                old(self).page
            },
            final(self).vars == old(self).vars,
            final(self).clauses == old(self).clauses,
            final(self).steps == old(self).steps,
    {
        proof {
            assert(self.page + 1 <= (self.page + 1) * self.per_page) by (nonlinear_arith)
                requires
                    self.per_page > 0,
            ;
        }
        if (self.page + 1) * self.per_page < self.clauses.len() {
            self.page = self.page + 1;
        }
    }

    /// The positions of the clauses shown on the current page: from `page * per_page`
    /// up to the next page or the end.
    pub fn page_range(&self) -> (r: (usize, usize))
        requires
            self.wf(),
            self.page * self.per_page + self.per_page <= usize::MAX,
        ensures
            r.0 == self.page * self.per_page,
            r.1 == if r.0 + self.per_page < self.clauses@.len() { r.0 + self.per_page } else { self.clauses@.len() as int },
            r.0 <= r.1 <= self.clauses@.len(),
    {
        proof {
            assert(self.page * self.per_page <= self.page * self.per_page + self.per_page);
        }
        let start_idx = self.page * self.per_page;
        let end_idx = if start_idx + self.per_page < self.clauses.len() {
            start_idx + self.per_page
        } else {
            self.clauses.len()
        };
        (start_idx, end_idx)
    }
}

} // verus!
