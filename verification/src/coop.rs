//! The cooperative reactor: a server holds one AES-sized puzzle and deals the clauses
//! that are false out to its clients; each client sees its share, the switches those
//! clauses name, and for each switch how many clauses a flip would mend or break.

use vstd::prelude::*;
use rand::rngs::ThreadRng;
use crate::cnf::{
    Clause, lit_holds, clause_holds, formula_holds, cnf_view, clause_vars_below, vars_below,
    mark_unsatisfied, unsatisfied_positions, unsat_positions, lemma_unsat_count, vars_nondecreasing,
};
use crate::count::satisfiable;
use crate::encode::{
    parity_system, selections_below, selection_parity, push_parity_clauses_sorted, reordered_clauses,
    lemma_parity_system, lemma_parity_system_len_bounds, lemma_reordered_clauses, parity_clauses, lemma_formula_holds_append,
    lemma_vars_below_append, lemma_parity_clauses, lemma_parity_clauses_vars, seq_parity, pick,
};
use crate::labels::{decimal_name, var_names};
use crate::random::{thread_rng, gen_range_inclusive, random_bits, shuffled_indices, shuffle};

verus! {

/// The shared puzzle of the cooperative server.
pub struct ServerState {
    pub n: usize,
    pub vars: Vec<bool>,
    pub var_names: Vec<String>,
    pub clauses: Vec<Clause>,
    pub ever_unsat: Vec<bool>,
    pub steps: u32,
}

/// What one broadcast sends: each client's share of the false clauses, how many are
/// false in all, and whether none is.
pub struct Broadcast {
    pub assignments: Vec<Vec<usize>>,
    pub global_unsat_count: usize,
    pub is_won: bool,
}

/// The concatenation of the shares.
pub open spec fn flatten(shares: Seq<Seq<usize>>) -> Seq<usize>
    decreases shares.len(),
{
    if shares.len() == 0 {
        Seq::empty()
    } else {
        flatten(shares.drop_last()) + shares.last()
    }
}

/// Ceiling of `a / b`.
pub open spec fn ceil_div(a: nat, b: nat) -> nat {
    ((a + b - 1) / (b as int)) as nat
}

/// The size of share `c` when `g` items are dealt in order to `k` clients in shares of
/// `ceil(g / k)`: the part of `c * ceil(g / k) .. (c + 1) * ceil(g / k)` below `g`.
pub open spec fn share_len(g: nat, k: nat, c: nat) -> nat {
    let chunk = ceil_div(g, k);
    let lo = if c * chunk < g { c * chunk } else { g };
    let hi = if (c + 1) * chunk < g { (c + 1) * chunk } else { g };
    (hi - lo) as nat
}

impl ServerState {
    /// The clauses as literal lists.
    pub open spec fn formula(&self) -> Seq<Seq<(usize, bool)>> {
        cnf_view(self.clauses@)
    }

    /// The shape the server keeps: one value and one decimal name per switch, literals
    /// over the switches, and one mark per clause.
    pub open spec fn shape_ok(&self) -> bool {
        &&& self.vars@.len() == self.n
        &&& self.var_names@.len() == self.n
        &&& (forall|i: int| 0 <= i < self.n ==> (#[trigger] self.var_names@[i])@ == decimal_name(i as nat))
        &&& vars_below(self.formula(), self.n as nat)
        &&& self.ever_unsat@.len() == self.clauses@.len()
    }

    /// The shape, and a mark on every clause that is false now (what holds between a
    /// broadcast and the next flip).
    pub open spec fn wf(&self) -> bool {
        &&& self.shape_ok()
        &&& (forall|i: int| #![trigger self.ever_unsat@[i]] 0 <= i < self.clauses@.len() && !clause_holds(self.formula()[i], self.vars@) ==> self.ever_unsat@[i])
    }

    /// A new AES-sized puzzle of 256 switches: a hidden random solution, then 512 times a
    /// random count `k` in `3..=5` of different switches in shuffled order, given their
    /// parity under the hidden solution, each clause ordered by switch. The server starts
    /// from random switches with the clauses false under them marked.
    pub fn generate_aes_256() -> (s: Self)
        ensures
            s.wf(),
            s.n == 256,
            s.steps == 0,
            forall|i: int| #![trigger s.ever_unsat@[i]] 0 <= i < s.clauses@.len() ==> s.ever_unsat@[i] == !clause_holds(s.formula()[i], s.vars@),
            exists|secret: Seq<bool>, sels: Seq<Seq<usize>>| {
                &&& secret.len() == 256
                &&& sels.len() == 512
                &&& selections_below(sels, 256)
                &&& (forall|e: int| 0 <= e < sels.len() ==> 3 <= (#[trigger] sels[e]).len() <= 5 && sels[e].no_duplicates())
                &&& #[trigger] reordered_clauses(parity_system(sels, secret), s.formula())
            },
            forall|q: int| 0 <= q < s.formula().len() ==> vars_nondecreasing(#[trigger] s.formula()[q]),
            satisfiable(256, s.formula()),
            2048 <= s.clauses@.len() <= 8192,
    {
        let n: usize = 256;
        let mut rng = thread_rng();
        let names = var_names(n);
        let secret_solution = random_bits(&mut rng, n);
        let mut clauses: Vec<Clause> = Vec::new();
        let ghost mut sels: Seq<Seq<usize>> = Seq::empty();
        let num_equations = n * 2;
        let mut e: usize = 0;
        while e < num_equations
            invariant
                e <= num_equations == 512,
                n == 256,
                secret_solution@.len() == n,
                sels.len() == e,
                selections_below(sels, n as nat),
                forall|q: int| 0 <= q < sels.len() ==> 3 <= (#[trigger] sels[q]).len() <= 5 && sels[q].no_duplicates(),
                reordered_clauses(parity_system(sels, secret_solution@), cnf_view(clauses@)),
                forall|q: int| 0 <= q < clauses@.len() ==> vars_nondecreasing(#[trigger] cnf_view(clauses@)[q]),
            decreases num_equations - e,
        {
            let k = gen_range_inclusive(&mut rng, 3, if 5 < n { 5 } else { n });
            let available_vars = shuffled_indices(&mut rng, n);
            let mut selected_vars: Vec<usize> = Vec::new();
            let mut i: usize = 0;
            while i < k
                invariant
                    i <= k <= 5,
                    available_vars@.len() == n == 256,
                    selected_vars@ == available_vars@.take(i as int),
                decreases k - i,
            {
                selected_vars.push(available_vars[i]);
                assert(selected_vars@ =~= available_vars@.take(i + 1));
                i = i + 1;
            }
            proof {
                assert forall|a: int, b: int| 0 <= a < selected_vars@.len() && 0 <= b < selected_vars@.len() && a != b implies selected_vars@[a] != selected_vars@[b] by {
                    assert(selected_vars@[a] == available_vars@[a] && selected_vars@[b] == available_vars@[b]);
                }
                assert forall|j: int| 0 <= j < selected_vars@.len() implies (#[trigger] selected_vars@[j]) < n by {
                    assert(selected_vars@[j] == available_vars@[j]);
                }
            }
            let xor_sum = selection_parity(&secret_solution, &selected_vars);
            let ghost before = cnf_view(clauses@);
            let ghost before_sels = sels;
            push_parity_clauses_sorted(&mut clauses, &selected_vars, xor_sum);
            proof {
                sels = before_sels.push(selected_vars@);
                assert(sels.drop_last() =~= before_sels);
                assert(sels.last() == selected_vars@);
                let p = parity_clauses(selected_vars@, xor_sum);
                let f0 = parity_system(before_sels, secret_solution@);
                let f1 = parity_system(sels, secret_solution@);
                assert(f1 == f0 + p);
                let g = cnf_view(clauses@);
                assert(g.take(before.len() as int) == before);
                assert(g.skip(before.len() as int).len() == p.len());
                assert(before.len() <= g.len());
                assert forall|q: int| 0 <= q < f1.len() implies (#[trigger] g[q]).to_multiset() == f1[q].to_multiset() by {
                    if q < f0.len() {
                        assert(g[q] == g.take(before.len() as int)[q]);
                        assert(f1[q] == f0[q]);
                    } else {
                        assert(g[q] == g.skip(before.len() as int)[q - before.len()]);
                        assert(f1[q] == p[q - f0.len()]);
                    }
                }
                assert forall|q: int| 0 <= q < clauses@.len() implies vars_nondecreasing(#[trigger] cnf_view(clauses@)[q]) by {
                    if q < before.len() {
                        assert(g[q] == g.take(before.len() as int)[q]);
                    }
                }
                assert forall|q: int, j: int| 0 <= q < sels.len() && 0 <= j < sels[q].len() implies (#[trigger] sels[q][j]) < n by {
                    if q < before_sels.len() {
                        assert(sels[q] == before_sels[q]);
                    }
                }
                assert forall|q: int| 0 <= q < sels.len() implies 3 <= (#[trigger] sels[q]).len() <= 5 && sels[q].no_duplicates() by {
                    if q < before_sels.len() {
                        assert(sels[q] == before_sels[q]);
                    }
                }
            }
            e = e + 1;
        }
        proof {
            lemma_parity_system(sels, secret_solution@, secret_solution@);
            lemma_reordered_clauses(parity_system(sels, secret_solution@), cnf_view(clauses@), secret_solution@, n as nat);
            assert(formula_holds(cnf_view(clauses@), secret_solution@));
        }
        let initial_vars = random_bits(&mut rng, n);
        let mut ever_unsat: Vec<bool> = Vec::new();
        let mut i: usize = 0;
        while i < clauses.len()
            invariant
                i <= clauses@.len(),
                ever_unsat@.len() == i,
                forall|j: int| 0 <= j < i ==> !ever_unsat@[j],
            decreases clauses@.len() - i,
        {
            ever_unsat.push(false);
            i = i + 1;
        }
        let _ = mark_unsatisfied(&clauses, &initial_vars, &mut ever_unsat);
        let ghost f = cnf_view(clauses@);
        let s = ServerState { n, vars: initial_vars, var_names: names, clauses, ever_unsat, steps: 0 };
        assert(s.formula() == f);
        assert(reordered_clauses(parity_system(sels, secret_solution@), s.formula()));
        proof {
            lemma_parity_system_len_bounds(sels, secret_solution@);
        }
        s
    }

    /// A client asked to flip switch `idx`: it flips and the step count grows by one.
    pub fn apply_flip(&mut self, idx: usize)
        requires
            idx < old(self).vars@.len(),
            old(self).steps < u32::MAX,
        ensures
            old(self).shape_ok() ==> final(self).shape_ok(),
            final(self).vars@ == old(self).vars@.update(idx as int, !old(self).vars@[idx as int]),
            final(self).steps == old(self).steps + 1,
            final(self).n == old(self).n,
            final(self).var_names == old(self).var_names,
            final(self).clauses == old(self).clauses,
            final(self).ever_unsat == old(self).ever_unsat,
    {
        let flipped = !self.vars[idx];
        self.vars.set(idx, flipped);
        self.steps = self.steps + 1;
    }

    /// Prepares a broadcast to `num_clients` clients: every clause false now is marked,
    /// the false clauses are shuffled and dealt out in order in shares of
    /// `ceil(count / num_clients)`, the last shares shorter or empty. With no client no
    /// share is dealt.
    pub fn broadcast(&mut self, num_clients: usize) -> (b: Broadcast)
        requires
            old(self).shape_ok(),
            old(self).clauses@.len() + num_clients <= usize::MAX,
        ensures
            final(self).wf(),
            final(self).vars == old(self).vars,
            final(self).clauses == old(self).clauses,
            final(self).steps == old(self).steps,
            final(self).n == old(self).n,
            final(self).var_names == old(self).var_names,
            final(self).ever_unsat@.len() == old(self).ever_unsat@.len(),
            forall|i: int| #![trigger final(self).ever_unsat@[i]] 0 <= i < old(self).clauses@.len() ==> final(self).ever_unsat@[i] == (old(self).ever_unsat@[i]
                || !clause_holds(old(self).formula()[i], old(self).vars@)),
            b.global_unsat_count == unsat_positions(old(self).formula(), old(self).vars@).len(),
            b.is_won == formula_holds(old(self).formula(), old(self).vars@),
            num_clients == 0 ==> b.assignments@.len() == 0,
            num_clients > 0 ==> {
                &&& b.assignments@.len() == num_clients
                &&& flatten(Seq::new(num_clients as nat, |c: int| b.assignments@[c]@)).to_multiset()
                    == unsat_positions(old(self).formula(), old(self).vars@).to_multiset()
                &&& forall|c: int| 0 <= c < num_clients ==> (#[trigger] b.assignments@[c])@.len()
                    <= ceil_div(b.global_unsat_count as nat, num_clients as nat)
                &&& forall|c: int| 0 <= c < num_clients ==> (#[trigger] b.assignments@[c])@.len()
                    == share_len(b.global_unsat_count as nat, num_clients as nat, c as nat)
            },
    {
        proof {
            lemma_unsat_count(self.formula(), self.vars@);
        }
        let _ = mark_unsatisfied(&self.clauses, &self.vars, &mut self.ever_unsat);
        let mut unsat_indices = unsatisfied_positions(&self.clauses, &self.vars);
        let ghost positions = unsat_indices@;
        let global_unsat_count = unsat_indices.len();
        let is_won = global_unsat_count == 0;
        proof {
            crate::cnf::lemma_unsat_count(self.formula(), self.vars@);
        }
        let mut rng = thread_rng();
        shuffle(&mut rng, &mut unsat_indices);
        proof {
            positions.to_multiset_ensures();
            unsat_indices@.to_multiset_ensures();
            assert(unsat_indices@.len() == positions.len());
        }
        let mut assignments: Vec<Vec<usize>> = Vec::new();
        if num_clients == 0 {
            return Broadcast { assignments, global_unsat_count, is_won };
        }
        let g = global_unsat_count;
        proof {
            assert(g <= self.clauses@.len());
        }
        let chunk_size = (g + (num_clients - 1)) / num_clients;
        proof {
            vstd::arithmetic::div_mod::lemma_fundamental_div_mod((g + num_clients - 1) as int, num_clients as int);
            assert(num_clients * chunk_size >= g) by (nonlinear_arith)
                requires
                    g + num_clients - 1 == num_clients * chunk_size + (g + num_clients - 1) % (num_clients as int),
                    0 <= (g + num_clients - 1) % (num_clients as int) < num_clients,
            ;
            assert(num_clients * chunk_size <= g + num_clients - 1) by (nonlinear_arith)
                requires
                    g + num_clients - 1 == num_clients * chunk_size + (g + num_clients - 1) % (num_clients as int),
                    0 <= (g + num_clients - 1) % (num_clients as int),
            ;
        }
        let ghost shuffled = unsat_indices@;
        let mut c: usize = 0;
        while c < num_clients
            invariant
                c <= num_clients,
                num_clients > 0,
                g == shuffled.len(),
                shuffled == unsat_indices@,
                chunk_size == (g + (num_clients - 1)) / (num_clients as int),
                num_clients * chunk_size >= g,
                num_clients * chunk_size <= g + num_clients - 1,
                g + num_clients <= usize::MAX,
                assignments@.len() == c,
                flatten(Seq::new(c as nat, |k: int| assignments@[k]@)) == shuffled.take(if c * chunk_size < g { c * chunk_size } else { g as int }),
                forall|k: int| 0 <= k < c ==> (#[trigger] assignments@[k])@.len() <= chunk_size,
                chunk_size == ceil_div(g as nat, num_clients as nat),
                forall|k: int| 0 <= k < c ==> (#[trigger] assignments@[k])@.len() == share_len(g as nat, num_clients as nat, k as nat),
            decreases num_clients - c,
        {
            proof {
                assert((c + 1) * chunk_size <= num_clients * chunk_size) by (nonlinear_arith)
                    requires
                        c + 1 <= num_clients,
                ;
                assert(c * chunk_size <= (c + 1) * chunk_size) by (nonlinear_arith);
                assert((c + 1) * chunk_size == c * chunk_size + chunk_size) by (nonlinear_arith);
            }
            let lo = c * chunk_size;
            let hi = (c + 1) * chunk_size;
            let start = if lo < g { lo } else { g };
            let end = if hi < g { hi } else { g };
            let mut share: Vec<usize> = Vec::new();
            let mut j: usize = start;
            while j < end
                invariant
                    start <= j <= end,
                    end <= g == unsat_indices@.len(),
                    share@ == unsat_indices@.subrange(start as int, j as int),
                decreases end - j,
            {
                share.push(unsat_indices[j]);
                assert(share@ =~= unsat_indices@.subrange(start as int, j + 1));
                j = j + 1;
            }
            proof {
                let ghost old_shares = Seq::new(c as nat, |k: int| assignments@[k]@);
                assert(share@ == shuffled.subrange(start as int, end as int));
                assert(shuffled.take(start as int) + shuffled.subrange(start as int, end as int) =~= shuffled.take(end as int));
            }
            let ghost prev = assignments@;
            assignments.push(share);
            proof {
                let news = Seq::new((c + 1) as nat, |k: int| assignments@[k]@);
                let olds = Seq::new(c as nat, |k: int| prev[k]@);
                assert(news.drop_last() =~= olds);
                assert(olds =~= Seq::new(c as nat, |k: int| assignments@[k]@));
                assert(news.last() == assignments@[c as int]@);
                assert forall|k: int| 0 <= k < c + 1 implies (#[trigger] assignments@[k])@.len() <= chunk_size by {
                    if k < c {
                        assert(assignments@[k] == prev[k]);
                    }
                }
                assert(share_len(g as nat, num_clients as nat, c as nat) == end - start);
                assert forall|k: int| 0 <= k < c + 1 implies (#[trigger] assignments@[k])@.len() == share_len(g as nat, num_clients as nat, k as nat) by {
                    if k < c {
                        assert(assignments@[k] == prev[k]);
                    }
                }
            }
            c = c + 1;
        }
        proof {
            assert(shuffled.take(g as int) =~= shuffled);
            assert(Seq::new(num_clients as nat, |k: int| assignments@[k]@) == Seq::new(num_clients as nat, |k: int| assignments@[k]@));
        }
        Broadcast { assignments, global_unsat_count, is_won }
    }
}


/// What a client receives: the whole puzzle, its own share of false clauses, and the
/// totals.
pub struct ServerMessage {
    pub n: usize,
    pub vars: Vec<bool>,
    pub var_names: Vec<String>,
    pub clauses: Vec<Clause>,
    pub ever_unsat: Vec<bool>,
    pub assigned_unsat: Vec<usize>,
    pub global_unsat_count: usize,
    pub steps: u32,
    pub is_won: bool,
}

/// How many literals of `c` are exactly `(v, s)`.
pub open spec fn occurrences(c: Seq<(usize, bool)>, v: usize, s: bool) -> nat
    decreases c.len(),
{
    if c.len() == 0 {
        0
    } else {
        occurrences(c.drop_last(), v, s) + if c.last() == (v, s) { 1nat } else { 0nat }
    }
}

/// Some literal of `c` on a switch other than `v` holds under `a`.
pub open spec fn holds_without(c: Seq<(usize, bool)>, a: Seq<bool>, v: usize) -> bool {
    exists|j: int| 0 <= j < c.len() && (#[trigger] c[j]).0 != v && lit_holds(a, c[j])
}

/// Over the clauses false under `a`, the literals that flipping switch `v` would make
/// true.
pub open spec fn make_count(f: Seq<Seq<(usize, bool)>>, a: Seq<bool>, v: usize) -> nat
    decreases f.len(),
{
    if f.len() == 0 {
        0
    } else {
        make_count(f.drop_last(), a, v) + if clause_holds(f.last(), a) {
            0nat
        } else {
            occurrences(f.last(), v, !a[v as int])
        }
    }
}

/// The clauses true under `a` only through literals of switch `v`: flipping `v` would
/// make them false.
pub open spec fn break_count(f: Seq<Seq<(usize, bool)>>, a: Seq<bool>, v: usize) -> nat
    decreases f.len(),
{
    if f.len() == 0 {
        0
    } else {
        break_count(f.drop_last(), a, v) + if clause_holds(f.last(), a) && !holds_without(f.last(), a, v) {
            1nat
        } else {
            0nat
        }
    }
}

/// The number of literals in all of `f`.
pub open spec fn literal_total(f: Seq<Seq<(usize, bool)>>) -> nat
    decreases f.len(),
{
    if f.len() == 0 {
        0
    } else {
        literal_total(f.drop_last()) + f.last().len()
    }
}

/// The assignment `a` with switch `v` flipped.
pub open spec fn flipped(a: Seq<bool>, v: usize) -> Seq<bool> {
    a.update(v as int, !a[v as int])
}

/// Clause `c` names switch `v` with both signs.
pub open spec fn names_both_signs(c: Seq<(usize, bool)>, v: usize) -> bool {
    c.contains((v, true)) && c.contains((v, false))
}

/// How many clauses of `f` hold under `a` and fail once switch `v` is flipped.
pub open spec fn broken_by_flip(f: Seq<Seq<(usize, bool)>>, a: Seq<bool>, v: usize) -> nat
    decreases f.len(),
{
    if f.len() == 0 {
        0
    } else {
        broken_by_flip(f.drop_last(), a, v) + if clause_holds(f.last(), a) && !clause_holds(f.last(), flipped(a, v)) {
            1nat
        } else {
            0nat
        }
    }
}

/// `c` has the literal `(v, s)` exactly when that literal occurs in it.
proof fn lemma_occurrences_positive(c: Seq<(usize, bool)>, v: usize, s: bool)
    ensures
        occurrences(c, v, s) > 0 <==> c.contains((v, s)),
    decreases c.len(),
{
    if c.len() > 0 {
        lemma_occurrences_positive(c.drop_last(), v, s);
        if c.drop_last().contains((v, s)) {
            let j = choose|j: int| 0 <= j < c.drop_last().len() && c.drop_last()[j] == (v, s);
            assert(c[j] == (v, s));
        }
        if c.contains((v, s)) && c.last() != (v, s) {
            let j = choose|j: int| 0 <= j < c.len() && c[j] == (v, s);
            assert(j < c.len() - 1);
            assert(c.drop_last()[j] == (v, s));
        }
        if c.last() == (v, s) {
            assert(c[c.len() - 1] == (v, s));
        }
    }
}

/// Law: for one clause that holds under `a` and does not name `v` with both signs, it
/// still holds through a switch other than `v` exactly when flipping `v` keeps it true;
/// and a clause that fails under `a` holds after flipping `v` exactly when it has the
/// literal of `v` at the flipped value.
pub proof fn lemma_flip_one_clause(c: Seq<(usize, bool)>, a: Seq<bool>, v: usize)
    requires
        clause_vars_below(c, a.len()),
        v < a.len(),
    ensures
        clause_holds(c, a) && !names_both_signs(c, v) ==> (holds_without(c, a, v) <==> clause_holds(c, flipped(a, v))),
        !clause_holds(c, a) ==> (clause_holds(c, flipped(a, v)) <==> occurrences(c, v, !a[v as int]) > 0),
{
    let b = flipped(a, v);
    lemma_occurrences_positive(c, v, !a[v as int]);
    if holds_without(c, a, v) {
        let j = choose|j: int| 0 <= j < c.len() && (#[trigger] c[j]).0 != v && lit_holds(a, c[j]);
        assert(lit_holds(b, c[j]));
    }
    if clause_holds(c, b) {
        let j = choose|j: int| 0 <= j < c.len() && lit_holds(b, #[trigger] c[j]);
        if c[j].0 != v {
            assert(lit_holds(a, c[j]));
        } else {
            assert(c[j] == (v, !a[v as int]));
            if clause_holds(c, a) && !holds_without(c, a, v) {
                let i = choose|i: int| 0 <= i < c.len() && lit_holds(a, #[trigger] c[i]);
                assert(c[i].0 == v);
                assert(c[i] == (v, a[v as int]));
                assert(c.contains((v, true)) && c.contains((v, false))) by {
                    if a[v as int] {
                        assert(c[i] == (v, true));
                        assert(c[j] == (v, false));
                    } else {
                        assert(c[i] == (v, false));
                        assert(c[j] == (v, true));
                    }
                }
            }
            assert(c.contains((v, !a[v as int])));
        }
    }
    if !clause_holds(c, a) && c.contains((v, !a[v as int])) {
        let j = choose|j: int| 0 <= j < c.len() && c[j] == (v, !a[v as int]);
        assert(lit_holds(b, c[j]));
    }
}

/// Law: when no clause names `v` with both signs, the break count of switch `v` is the
/// number of clauses that hold now and would fail once `v` is flipped.
pub proof fn lemma_break_count_is_broken_by_flip(f: Seq<Seq<(usize, bool)>>, a: Seq<bool>, v: usize)
    requires
        vars_below(f, a.len()),
        v < a.len(),
        forall|i: int| 0 <= i < f.len() ==> !names_both_signs(#[trigger] f[i], v),
    ensures
        break_count(f, a, v) == broken_by_flip(f, a, v),
    decreases f.len(),
{
    if f.len() > 0 {
        let g = f.drop_last();
        assert(f[f.len() - 1] == f.last());
        assert forall|i: int| 0 <= i < g.len() implies clause_vars_below(#[trigger] g[i], a.len()) by {
            assert(g[i] == f[i]);
        }
        assert forall|i: int| 0 <= i < g.len() implies !names_both_signs(#[trigger] g[i], v) by {
            assert(g[i] == f[i]);
        }
        lemma_break_count_is_broken_by_flip(g, a, v);
        lemma_flip_one_clause(f.last(), a, v);
    }
}

proof fn lemma_occurrences_bound(c: Seq<(usize, bool)>, v: usize, s: bool)
    ensures
        occurrences(c, v, s) <= c.len(),
    decreases c.len(),
{
    if c.len() > 0 {
        lemma_occurrences_bound(c.drop_last(), v, s);
    }
}

/// The switches named by the clauses at `positions`, each once, in increasing order.
pub open spec fn named_switches(f: Seq<Seq<(usize, bool)>>, positions: Seq<usize>, x: usize) -> bool {
    exists|k: int, j: int|
        0 <= k < positions.len() && 0 <= j < f[positions[k] as int].len() && (#[trigger] f[positions[k] as int][j]).0 == x
}

/// Some of the first `j` literals of `c` is on switch `x`.
pub open spec fn among_first(c: Seq<(usize, bool)>, j: int, x: usize) -> bool {
    exists|q: int| 0 <= q < j && (#[trigger] c[q]).0 == x
}

/// Inserts `x` into an increasing list unless it is there already.
fn insert_sorted_unique(v: &mut Vec<usize>, x: usize)
    requires
        crate::encode::increasing(old(v)@),
    ensures
        crate::encode::increasing(final(v)@),
        forall|y: usize| final(v)@.contains(y) <==> (old(v)@.contains(y) || y == x),
{
    let mut pos: usize = 0;
    while pos < v.len() && v[pos] < x
        invariant
            pos <= v@.len(),
            v@ == old(v)@,
            forall|k: int| 0 <= k < pos ==> (#[trigger] v@[k]) < x,
        decreases v@.len() - pos,
    {
        pos = pos + 1;
    }
    if pos < v.len() && v[pos] == x {
        assert(v@[pos as int] == x);
        assert(v@.contains(x));
        return;
    }
    let ghost before = v@;
    v.insert(pos, x);
    proof {
        assert(v@ == before.insert(pos as int, x));
        assert(before == old(v)@);
        assert forall|a: int, b: int| 0 <= a < b < v@.len() implies (#[trigger] v@[a]) < (#[trigger] v@[b]) by {
            if b < pos {
                assert(v@[a] == before[a] && v@[b] == before[b]);
            } else if b == pos {
                assert(v@[a] == before[a]);
            } else if a < pos {
                assert(v@[a] == before[a] && v@[b] == before[b - 1]);
                assert(before[pos as int] > x);
            } else if a == pos {
                assert(v@[b] == before[b - 1]);
                assert(before[pos as int] > x);
                if b - 1 > pos {
                    assert(before[pos as int] < before[b - 1]);
                }
            } else {
                assert(v@[a] == before[a - 1] && v@[b] == before[b - 1]);
            }
        }
        assert forall|y: usize| v@.contains(y) <==> (before.contains(y) || y == x) by {
            if v@.contains(y) {
                let k = choose|k: int| 0 <= k < v@.len() && v@[k] == y;
                if k < pos {
                    assert(before[k] == y);
                } else if k > pos {
                    assert(before[k - 1] == y);
                }
            }
            if before.contains(y) {
                let k = choose|k: int| 0 <= k < before.len() && before[k] == y;
                if k < pos {
                    assert(v@[k] == y);
                } else {
                    assert(v@[k + 1] == y);
                }
            }
            if y == x {
                assert(v@[pos as int] == x);
            }
        }
        assert forall|y: usize| #[trigger] v@.contains(y) <==> (old(v)@.contains(y) || y == x) by {
            assert(v@.contains(y) <==> (before.contains(y) || y == x));
        }
    }
}

proof fn lemma_literal_total_prefix(f: Seq<Seq<(usize, bool)>>, k: int)
    requires
        0 <= k <= f.len(),
    ensures
        literal_total(f.take(k)) <= literal_total(f),
    decreases f.len(),
{
    if k < f.len() {
        assert(f.drop_last().take(k) =~= f.take(k));
        lemma_literal_total_prefix(f.drop_last(), k);
    } else {
        assert(f.take(k) =~= f);
    }
}

/// For one clause under `vars`: whether it holds, whether it holds through a switch other
/// than `v`, and how many of its literals are `v` at the value a flip would give it.
fn clause_radar(lits: &Vec<(usize, bool)>, vars: &Vec<bool>, v: usize) -> (r: (bool, bool, usize))
    requires
        clause_vars_below(lits@, vars@.len()),
        v < vars@.len(),
    ensures
        r.0 == clause_holds(lits@, vars@),
        r.1 == holds_without(lits@, vars@, v),
        r.2 == occurrences(lits@, v, !vars@[v as int]),
{
    let mut cur = false;
    let mut other = false;
    let mut occ: usize = 0;
    let mut j: usize = 0;
    while j < lits.len()
        invariant
            j <= lits@.len(),
            clause_vars_below(lits@, vars@.len()),
            v < vars@.len(),
            cur == exists|q: int| 0 <= q < j && lit_holds(vars@, #[trigger] lits@[q]),
            other == exists|q: int| 0 <= q < j && (#[trigger] lits@[q]).0 != v && lit_holds(vars@, lits@[q]),
            occ == occurrences(lits@.take(j as int), v, !vars@[v as int]),
            occ <= j,
        decreases lits@.len() - j,
    {
        let (lv, rs) = lits[j];
        assert(lits@.take(j + 1).drop_last() =~= lits@.take(j as int));
        assert(lits@.take(j + 1).last() == lits@[j as int]);
        if vars[lv] == rs {
            cur = true;
            if lv != v {
                other = true;
            }
        }
        if lv == v && !vars[v] == rs {
            occ = occ + 1;
        }
        j = j + 1;
    }
    assert(lits@.take(lits@.len() as int) =~= lits@);
    (cur, other, occ)
}

impl ServerMessage {
    /// The clauses as literal lists.
    pub open spec fn formula(&self) -> Seq<Seq<(usize, bool)>> {
        cnf_view(self.clauses@)
    }

    /// Every literal names one of the switches, every share entry names one of the
    /// clauses, and the literals can be counted in a `usize`: what a client needs before
    /// it reads a message.
    pub open spec fn consistent(&self) -> bool {
        &&& vars_below(self.formula(), self.vars@.len())
        &&& forall|k: int| 0 <= k < self.assigned_unsat@.len() ==> (#[trigger] self.assigned_unsat@[k]) < self.clauses@.len()
        &&& literal_total(self.formula()) <= usize::MAX
    }

    /// Whether a received message is consistent.
    pub fn is_consistent(&self) -> (ok: bool)
        ensures
            ok == self.consistent(),
    {
        let ghost f = self.formula();
        let n = self.vars.len();
        let mut total: usize = 0;
        let mut i: usize = 0;
        while i < self.clauses.len()
            invariant
                i <= self.clauses@.len(),
                f == self.formula(),
                n == self.vars@.len(),
                vars_below(f.take(i as int), n as nat),
                total == literal_total(f.take(i as int)),
            decreases self.clauses@.len() - i,
        {
            let lits = &self.clauses[i].literals;
            assert(lits@ == f[i as int]);
            let mut j: usize = 0;
            while j < lits.len()
                invariant
                    j <= lits@.len(),
                    i < self.clauses@.len(),
                    f == self.formula(),
                    lits@ == f[i as int],
                    n == self.vars@.len(),
                    forall|q: int| 0 <= q < j ==> (#[trigger] lits@[q]).0 < n,
                decreases lits@.len() - j,
            {
                if lits[j].0 >= n {
                    proof {
                        assert(f[i as int][j as int].0 >= n);
                        assert(!clause_vars_below(f[i as int], n as nat));
                        assert(!vars_below(f, n as nat));
                    }
                    return false;
                }
                j = j + 1;
            }
            assert(f.take(i + 1).drop_last() =~= f.take(i as int));
            assert(f.take(i + 1).last() == f[i as int]);
            assert forall|q: int| 0 <= q < i + 1 implies clause_vars_below(#[trigger] f.take(i + 1)[q], n as nat) by {
                if q < i {
                    assert(f.take(i + 1)[q] == f.take(i as int)[q]);
                }
            }
            if total > usize::MAX - lits.len() {
                proof {
                    lemma_literal_total_prefix(f, i + 1);
                }
                return false;
            }
            total = total + lits.len();
            i = i + 1;
        }
        assert(f.take(i as int) =~= f);
        let mut k: usize = 0;
        while k < self.assigned_unsat.len()
            invariant
                k <= self.assigned_unsat@.len(),
                forall|q: int| 0 <= q < k ==> (#[trigger] self.assigned_unsat@[q]) < self.clauses@.len(),
            decreases self.assigned_unsat@.len() - k,
        {
            if self.assigned_unsat[k] >= self.clauses.len() {
                return false;
            }
            k = k + 1;
        }
        true
    }

    /// The switches that the clauses of this client's share name, each once, in
    /// increasing order.
    pub fn active_variables(&self) -> (active: Vec<usize>)
        requires
            forall|k: int| 0 <= k < self.assigned_unsat@.len() ==> (#[trigger] self.assigned_unsat@[k]) < self.clauses@.len(),
        ensures
            crate::encode::increasing(active@),
            forall|x: usize| active@.contains(x) <==> named_switches(self.formula(), self.assigned_unsat@, x),
    {
        let ghost f = self.formula();
        let ghost pos = self.assigned_unsat@;
        let mut active: Vec<usize> = Vec::new();
        let mut k: usize = 0;
        while k < self.assigned_unsat.len()
            invariant
                k <= pos.len(),
                pos == self.assigned_unsat@,
                f == self.formula(),
                forall|q: int| 0 <= q < pos.len() ==> (#[trigger] pos[q]) < self.clauses@.len(),
                crate::encode::increasing(active@),
                forall|x: usize| active@.contains(x) <==> named_switches(f, pos.take(k as int), x),
            decreases pos.len() - k,
        {
            let c_idx = self.assigned_unsat[k];
            let lits = &self.clauses[c_idx].literals;
            assert(lits@ == f[c_idx as int]);
            let ghost before = active@;
            let mut j: usize = 0;
            while j < lits.len()
                invariant
                    j <= lits@.len(),
                    crate::encode::increasing(active@),
                    forall|x: usize| #![trigger active@.contains(x)] active@.contains(x) <==> (before.contains(x) || among_first(lits@, j as int, x)),
                decreases lits@.len() - j,
            {
                let ghost mid = active@;
                insert_sorted_unique(&mut active, lits[j].0);
                proof {
                    assert forall|x: usize| #![trigger active@.contains(x)] active@.contains(x) <==> (before.contains(x) || among_first(lits@, j + 1, x)) by {
                        let w = lits@[j as int];
                        assert(mid.contains(x) <==> (before.contains(x) || among_first(lits@, j as int, x)));
                        if x == w.0 {
                            assert(active@.contains(x));
                            assert(among_first(lits@, j + 1, x));
                        }
                        if among_first(lits@, j + 1, x) {
                            let q = choose|q: int| 0 <= q < j + 1 && (#[trigger] lits@[q]).0 == x;
                            if q < j {
                                assert(among_first(lits@, j as int, x));
                            }
                        }
                        if among_first(lits@, j as int, x) {
                            let q = choose|q: int| 0 <= q < j && (#[trigger] lits@[q]).0 == x;
                            assert(lits@[q].0 == x && 0 <= q < j + 1);
                        }
                    }
                }
                j = j + 1;
            }
            proof {
                assert(pos.take(k + 1) =~= pos.take(k as int).push(c_idx));
                assert forall|x: usize| active@.contains(x) <==> named_switches(f, pos.take(k + 1), x) by {
                    let p1 = pos.take(k + 1);
                    let p0 = pos.take(k as int);
                    if named_switches(f, p1, x) {
                        let (a, b) = choose|a: int, b: int|
                            0 <= a < p1.len() && 0 <= b < f[p1[a] as int].len() && (#[trigger] f[p1[a] as int][b]).0 == x;
                        if a < k {
                            assert(p0[a] == p1[a]);
                            assert(f[p0[a] as int][b].0 == x);
                        } else {
                            assert(lits@[b].0 == x);
                        }
                    }
                    if named_switches(f, p0, x) {
                        let (a, b) = choose|a: int, b: int|
                            0 <= a < p0.len() && 0 <= b < f[p0[a] as int].len() && (#[trigger] f[p0[a] as int][b]).0 == x;
                        assert(p1[a] == p0[a]);
                        assert(f[p1[a] as int][b].0 == x);
                    }
                    if among_first(lits@, lits@.len() as int, x) {
                        let q = choose|q: int| 0 <= q < lits@.len() && (#[trigger] lits@[q]).0 == x;
                        assert(p1[k as int] == c_idx);
                        assert(f[p1[k as int] as int][q].0 == x);
                    }
                }
            }
            k = k + 1;
        }
        assert(pos.take(pos.len() as int) =~= pos);
        active
    }

    /// The radar over switch `v_idx`: how many literals of false clauses a flip of it
    /// would make true, and how many true clauses rest on it alone and would turn false.
    pub fn flip_radar(&self, v_idx: usize) -> (counts: (usize, usize))
        requires
            v_idx < self.vars@.len(),
            vars_below(self.formula(), self.vars@.len()),
            literal_total(self.formula()) <= usize::MAX,
        ensures
            counts.0 == make_count(self.formula(), self.vars@, v_idx),
            counts.1 == break_count(self.formula(), self.vars@, v_idx),
            (forall|i: int| 0 <= i < self.formula().len() ==> !names_both_signs(#[trigger] self.formula()[i], v_idx))
                ==> counts.1 == broken_by_flip(self.formula(), self.vars@, v_idx),
    {
        let ghost f = self.formula();
        let ghost a = self.vars@;
        let mut fixes: usize = 0;
        let mut breaks: usize = 0;
        let mut i: usize = 0;
        while i < self.clauses.len()
            invariant
                i <= self.clauses@.len(),
                f == self.formula(),
                a == self.vars@,
                v_idx < a.len(),
                vars_below(f, a.len()),
                literal_total(f) <= usize::MAX,
                fixes == make_count(f.take(i as int), a, v_idx),
                breaks == break_count(f.take(i as int), a, v_idx),
                fixes <= literal_total(f.take(i as int)),
                breaks <= i,
            decreases self.clauses@.len() - i,
        {
            assert(f.take(i + 1).drop_last() =~= f.take(i as int));
            assert(f.take(i + 1).last() == f[i as int]);
            assert(self.clauses@[i as int].literals@ == f[i as int]);
            assert(clause_vars_below(f[i as int], a.len()));
            let (cur, other, occ) = clause_radar(&self.clauses[i].literals, &self.vars, v_idx);
            proof {
                lemma_occurrences_bound(f[i as int], v_idx, !a[v_idx as int]);
                lemma_literal_total_prefix(f, i + 1);
            }
            if !cur {
                fixes = fixes + occ;
            } else if !other {
                breaks = breaks + 1;
            }
            i = i + 1;
        }
        assert(f.take(f.len() as int) =~= f);
        proof {
            if forall|i: int| 0 <= i < f.len() ==> !names_both_signs(#[trigger] f[i], v_idx) {
                lemma_break_count_is_broken_by_flip(f, a, v_idx);
            }
        }
        (fixes, breaks)
    }
}

} // verus!
