//! Puzzles with a hidden solution: systems of three-switch parity equations and
//! random gate circuits whose outputs are locked.

use vstd::prelude::*;
use crate::cnf::{Clause, clause_holds, formula_holds, cnf_view, clause_vars_below, vars_below};
use crate::encode::{
    xor3_clauses, xor_gate_clauses, and_gate_clauses, lemma_xor3_clauses, lemma_xor_gate_clauses,
    lemma_and_gate_clauses, lemma_formula_holds_append, lemma_vars_below_append, push_xor3_clauses,
    push_xor_gate, push_and_gate, push_lock,
};
use crate::random::{gen_range, gen_range_inclusive, gen_ratio, random_bits, shuffled_indices};
use crate::encode::{parity_system, selections_below, increasing, sort_switches, selection_parity, push_parity_clauses, lemma_parity_system};
use crate::count::{satisfiable, model_count};
use rand::rngs::ThreadRng;

verus! {

/// The three numbers in non-decreasing order.
pub open spec fn sorted3(a: usize, b: usize, c: usize) -> (usize, usize, usize) {
    if a <= b {
        if b <= c {
            (a, b, c)
        } else if a <= c {
            (a, c, b)
        } else {
            (c, a, b)
        }
    } else {
        if a <= c {
            (b, a, c)
        } else if b <= c {
            (b, c, a)
        } else {
            (c, b, a)
        }
    }
}

/// Puts three switch numbers in non-decreasing order.
pub fn sort3(a: usize, b: usize, c: usize) -> (t: (usize, usize, usize))
    ensures
        t == sorted3(a, b, c),
        t.0 <= t.1 <= t.2,
        seq![t.0, t.1, t.2].to_multiset() == seq![a, b, c].to_multiset(),
{
    let t = if a <= b {
        if b <= c {
            (a, b, c)
        } else if a <= c {
            (a, c, b)
        } else {
            (c, a, b)
        }
    } else {
        if a <= c {
            (b, a, c)
        } else if b <= c {
            (b, c, a)
        } else {
            (c, b, a)
        }
    };
    proof {
        broadcast use vstd::seq_lib::group_to_multiset_ensures;
        assert(seq![t.0, t.1, t.2] =~= seq![t.0, t.1].push(t.2));
        assert(seq![t.0, t.1] =~= seq![t.0].push(t.1));
        assert(seq![t.0] =~= Seq::<usize>::empty().push(t.0));
        assert(seq![a, b, c] =~= seq![a, b].push(c));
        assert(seq![a, b] =~= seq![a].push(b));
        assert(seq![a] =~= Seq::<usize>::empty().push(a));
        assert(seq![t.0, t.1, t.2].to_multiset() =~= seq![a, b, c].to_multiset());
    }
    t
}

/// Exclusive or of the three switches of `t` under `s`.
pub open spec fn triplet_parity(s: Seq<bool>, t: (usize, usize, usize)) -> bool {
    s[t.0 as int] ^ s[t.1 as int] ^ s[t.2 as int]
}

/// Every switch of every triplet is below `n`.
pub open spec fn triplets_below(ts: Seq<(usize, usize, usize)>, n: nat) -> bool {
    forall|k: int| 0 <= k < ts.len() ==> (#[trigger] ts[k]).0 < n && ts[k].1 < n && ts[k].2 < n
}

/// For each triplet in turn, the four clauses that give it the parity it has under `s`.
pub open spec fn xor_system(ts: Seq<(usize, usize, usize)>, s: Seq<bool>) -> Seq<Seq<(usize, bool)>>
    decreases ts.len(),
{
    if ts.len() == 0 {
        Seq::empty()
    } else {
        let t = ts.last();
        xor_system(ts.drop_last(), s) + xor3_clauses(t.0, t.1, t.2, triplet_parity(s, t))
    }
}

/// Law: an assignment satisfies the parity system of `s` exactly when it gives every
/// triplet the parity that `s` gives it; in particular `s` itself satisfies it.
pub proof fn lemma_xor_system(ts: Seq<(usize, usize, usize)>, s: Seq<bool>, x: Seq<bool>)
    requires
        triplets_below(ts, x.len()),
        triplets_below(ts, s.len()),
    ensures
        formula_holds(xor_system(ts, s), x) == forall|k: int|
            0 <= k < ts.len() ==> triplet_parity(x, #[trigger] ts[k]) == triplet_parity(s, ts[k]),
        formula_holds(xor_system(ts, s), s),
    decreases ts.len(),
{
    if ts.len() > 0 {
        let t = ts.last();
        let init = ts.drop_last();
        assert(triplets_below(init, x.len()));
        assert(triplets_below(init, s.len()));
        assert(ts[ts.len() - 1] == t);
        lemma_xor_system(init, s, x);
        lemma_xor_system(init, s, s);
        lemma_formula_holds_append(xor_system(init, s), xor3_clauses(t.0, t.1, t.2, triplet_parity(s, t)), x);
        lemma_formula_holds_append(xor_system(init, s), xor3_clauses(t.0, t.1, t.2, triplet_parity(s, t)), s);
        lemma_xor3_clauses(t.0, t.1, t.2, triplet_parity(s, t), x);
        lemma_xor3_clauses(t.0, t.1, t.2, triplet_parity(s, t), s);
        if formula_holds(xor_system(ts, s), x) {
            assert forall|k: int| 0 <= k < ts.len() implies triplet_parity(x, #[trigger] ts[k])
                == triplet_parity(s, ts[k]) by {
                if k < init.len() {
                    assert(ts[k] == init[k]);
                }
            }
        }
        if forall|k: int|
            0 <= k < ts.len() ==> triplet_parity(x, #[trigger] ts[k]) == triplet_parity(s, ts[k]) {
            assert forall|k: int| 0 <= k < init.len() implies triplet_parity(x, #[trigger] init[k])
                == triplet_parity(s, init[k]) by {
                assert(ts[k] == init[k]);
            }
            assert(triplet_parity(x, ts[ts.len() - 1]) == triplet_parity(s, ts[ts.len() - 1]));
        }
    }
}

/// Every literal of the parity system names a switch of one of the triplets.
pub proof fn lemma_xor_system_vars(ts: Seq<(usize, usize, usize)>, s: Seq<bool>, n: nat)
    requires
        triplets_below(ts, n),
    ensures
        vars_below(xor_system(ts, s), n),
        xor_system(ts, s).len() == 4 * ts.len(),
    decreases ts.len(),
{
    if ts.len() > 0 {
        let t = ts.last();
        assert(ts[ts.len() - 1] == t);
        assert(triplets_below(ts.drop_last(), n));
        lemma_xor_system_vars(ts.drop_last(), s, n);
        let g = xor3_clauses(t.0, t.1, t.2, triplet_parity(s, t));
        assert forall|i: int| 0 <= i < g.len() implies clause_vars_below(#[trigger] g[i], n) by {
            assert forall|j: int| 0 <= j < g[i].len() implies (#[trigger] g[i][j]).0 < n by {}
        }
        lemma_vars_below_append(xor_system(ts.drop_last(), s), g, n);
    }
}

/// The triplets of the ring: each switch with its next two, then each switch of the first
/// half with the switches a half and a quarter of the way round, each sorted.
pub open spec fn ring_triplets(n: usize) -> Seq<(usize, usize, usize)> {
    Seq::new(n as nat, |i: int| sorted3(i as usize, ((i + 1) % (n as int)) as usize, ((i + 2) % (n as int)) as usize))
        + Seq::new((n / 2) as nat, |i: int| sorted3(i as usize, ((i + n / 2) % (n as int)) as usize, ((i + n / 4) % (n as int)) as usize))
}

/// Appends the four clauses giving triplet `t` the parity it has under `secret`.
fn push_equation(clauses: &mut Vec<Clause>, secret: &Vec<bool>, t: (usize, usize, usize))
    requires
        t.0 < secret@.len(),
        t.1 < secret@.len(),
        t.2 < secret@.len(),
    ensures
        cnf_view(final(clauses)@) == cnf_view(old(clauses)@) + xor3_clauses(t.0, t.1, t.2, triplet_parity(secret@, t)),
{
    let xor_result = secret[t.0] ^ secret[t.1] ^ secret[t.2];
    push_xor3_clauses(clauses, t.0, t.1, t.2, xor_result);
}

/// The parity equations of the ring of `n` switches, each with the parity the hidden
/// solution `secret` gives it.
pub fn xor_ring_clauses(secret: &Vec<bool>) -> (clauses: Vec<Clause>)
    requires
        secret@.len() <= usize::MAX / 2,
    ensures
        cnf_view(clauses@) == xor_system(ring_triplets(secret@.len() as usize), secret@),
{
    let n = secret.len();
    let ghost all = ring_triplets(n);
    let mut clauses: Vec<Clause> = Vec::new();
    let mut i: usize = 0;
    assert(all.take(0) =~= Seq::<(usize, usize, usize)>::empty());
    while i < n
        invariant
            i <= n,
            n == secret@.len(),
            n <= usize::MAX / 2,
            all == ring_triplets(n),
            cnf_view(clauses@) == xor_system(all.take(i as int), secret@),
        decreases n - i,
    {
        let t = sort3(i, (i + 1) % n, (i + 2) % n);
        assert(all[i as int] == t);
        assert(all.take(i + 1).drop_last() =~= all.take(i as int));
        push_equation(&mut clauses, secret, t);
        i = i + 1;
    }
    let half = n / 2;
    let mut i: usize = 0;
    while i < half
        invariant
            i <= half,
            half == n / 2,
            n == secret@.len(),
            n <= usize::MAX / 2,
            all == ring_triplets(n),
            cnf_view(clauses@) == xor_system(all.take(n + i), secret@),
        decreases half - i,
    {
        let t = sort3(i, (i + n / 2) % n, (i + n / 4) % n);
        assert(all[n + i] == t);
        assert(all.take(n + i + 1).drop_last() =~= all.take(n + i));
        push_equation(&mut clauses, secret, t);
        i = i + 1;
    }
    assert(all.take(n + half) =~= all);
    clauses
}


/// Every triplet of the ring names switches below `n`.
pub proof fn lemma_ring_triplets_below(n: usize)
    ensures
        triplets_below(ring_triplets(n), n as nat),
{
    let ts = ring_triplets(n);
    assert forall|k: int| 0 <= k < ts.len() implies (#[trigger] ts[k]).0 < n && ts[k].1 < n
        && ts[k].2 < n by {
        if k < n {
            assert(0 <= (k + 1) % (n as int) < n);
            assert(0 <= (k + 2) % (n as int) < n);
        } else {
            let i = k - n;
            assert(0 <= (i + n / 2) % (n as int) < n);
            assert(0 <= (i + n / 4) % (n as int) < n);
        }
    }
}

/// Below `2n`, taking the remainder by `n` subtracts `n` once if at all.
pub(crate) proof fn lemma_mod_wrap(x: int, n: int)
    requires
        n > 0,
        0 <= x < 2 * n,
    ensures
        x % n == if x < n { x } else { x - n },
{
    vstd::arithmetic::div_mod::lemma_fundamental_div_mod(x, n);
    let q = x / n;
    let r = x % n;
    assert(0 <= r < n);
    assert((x < n ==> r == x) && (x >= n ==> r == x - n)) by (nonlinear_arith)
        requires
            x == n * q + r,
            0 <= r < n,
            0 <= x < 2 * n,
            n > 0,
    ;
}

/// Law: the ring triplets of `n >= 3` switches, spelled out. Triplet `k` is the switches
/// `k, k+1, k+2` going round (the last two wrap to the start), and cross triplet `k` is
/// `k, k + n/4, k + n/2`. From four switches on, every triplet names three different
/// switches.
pub proof fn lemma_ring_triplets_explicit(n: usize)
    requires
        3 <= n <= usize::MAX / 2,
    ensures
        ring_triplets(n).len() == n + n / 2,
        forall|k: int| 0 <= k && k + 2 < n ==> #[trigger] ring_triplets(n)[k] == (k as usize, (k + 1) as usize, (k + 2) as usize),
        ring_triplets(n)[n - 2] == (0usize, (n - 2) as usize, (n - 1) as usize),
        ring_triplets(n)[n - 1] == (0usize, 1usize, (n - 1) as usize),
        forall|k: int| 0 <= k < n / 2 ==> #[trigger] ring_triplets(n)[n + k] == (k as usize, (k + n / 4) as usize, (k + n / 2) as usize),
        n >= 4 ==> forall|k: int| 0 <= k < ring_triplets(n).len() ==> strictly_sorted(#[trigger] ring_triplets(n)[k]),
{
    let ts = ring_triplets(n);
    let ni = n as int;
    assert forall|k: int| 0 <= k && k + 2 < n implies #[trigger] ts[k] == (k as usize, (k + 1) as usize, (k + 2) as usize) by {
        lemma_mod_wrap(k + 1, ni);
        lemma_mod_wrap(k + 2, ni);
    }
    lemma_mod_wrap(ni - 1, ni);
    lemma_mod_wrap(ni, ni);
    lemma_mod_wrap(ni + 1, ni);
    assert(ts[ni - 2] == sorted3((n - 2) as usize, ((ni - 1) % ni) as usize, (ni % ni) as usize));
    assert(ts[ni - 1] == sorted3((n - 1) as usize, (ni % ni) as usize, ((ni + 1) % ni) as usize));
    assert forall|k: int| 0 <= k < n / 2 implies #[trigger] ts[n + k] == (k as usize, (k + n / 4) as usize, (k + n / 2) as usize) by {
        lemma_mod_wrap(k + n / 2, ni);
        lemma_mod_wrap(k + n / 4, ni);
        assert(ts[n + k] == sorted3(k as usize, ((k + n / 2) % ni) as usize, ((k + n / 4) % ni) as usize));
    }
    if n >= 4 {
        assert forall|k: int| 0 <= k < ts.len() implies strictly_sorted(#[trigger] ts[k]) by {
            if k < ni - 2 {
            } else if k == ni - 2 {
            } else if k == ni - 1 {
            } else {
                assert(ts[n + (k - n)] == ts[k]);
            }
        }
    }
}

/// A triplet of three different switches in increasing order.
pub open spec fn strictly_sorted(t: (usize, usize, usize)) -> bool {
    t.0 < t.1 < t.2
}

/// Decides whether `t` is among `seen`.
fn contains_triplet(seen: &Vec<(usize, usize, usize)>, t: (usize, usize, usize)) -> (found: bool)
    ensures
        found == seen@.contains(t),
{
    let mut i: usize = 0;
    while i < seen.len()
        invariant
            i <= seen@.len(),
            forall|j: int| 0 <= j < i ==> seen@[j] != t,
        decreases seen@.len() - i,
    {
        let u = seen[i];
        if u.0 == t.0 && u.1 == t.1 && u.2 == t.2 {
            assert(seen@[i as int] == t);
            return true;
        }
        i = i + 1;
    }
    false
}

/// Draws random triplets of different switches until `num_equations` different ones
/// are in hand, or the draws run out, and gives each the parity it has under `secret`.
/// Returns the clauses and the triplets in the order they were kept.
pub(crate) fn xor_random_clauses(
    rng: &mut ThreadRng,
    secret: &Vec<bool>,
    num_equations: usize,
    draws: &mut u64,
) -> (res: (Vec<Clause>, Vec<(usize, usize, usize)>))
    requires
        num_equations > 0 ==> secret@.len() >= 3,
    ensures
        cnf_view(res.0@) == xor_system(res.1@, secret@),
        triplets_below(res.1@, secret@.len()),
        res.1@.no_duplicates(),
        forall|k: int| 0 <= k < res.1@.len() ==> strictly_sorted(#[trigger] res.1@[k]),
        res.1@.len() <= num_equations,
        *final(draws) > 0 ==> res.1@.len() == num_equations,
        *final(draws) <= *old(draws),
        num_equations == 0 ==> *final(draws) == *old(draws),
{
    let ghost start = *draws;
    let n = secret.len();
    let mut clauses: Vec<Clause> = Vec::new();
    let mut seen: Vec<(usize, usize, usize)> = Vec::new();
    while seen.len() < num_equations && *draws > 0
        invariant
            n == secret@.len(),
            num_equations > 0 ==> n >= 3,
            *draws <= start,
            num_equations == 0 ==> *draws == start,
            cnf_view(clauses@) == xor_system(seen@, secret@),
            triplets_below(seen@, n as nat),
            seen@.no_duplicates(),
            forall|k: int| 0 <= k < seen@.len() ==> strictly_sorted(#[trigger] seen@[k]),
            seen@.len() <= num_equations,
        decreases *draws,
    {
        *draws = *draws - 1;
        let available = shuffled_indices(rng, n);
        let t = sort3(available[0], available[1], available[2]);
        proof {
            vstd::seq_lib::lemma_multiset_commutative(seq![t.0, t.1], seq![t.2]);
            broadcast use vstd::seq_lib::group_to_multiset_ensures;
            let m = seq![available@[0], available@[1], available@[2]].to_multiset();
            assert(seq![t.0, t.1, t.2].contains(t.0));
            assert(m.count(t.0) > 0);
            assert(seq![available@[0], available@[1], available@[2]].contains(t.0));
            assert(seq![t.0, t.1, t.2].contains(t.1));
            assert(seq![available@[0], available@[1], available@[2]].contains(t.1));
            assert(seq![t.0, t.1, t.2].contains(t.2));
            assert(seq![available@[0], available@[1], available@[2]].contains(t.2));
            assert(t.0 < n && t.1 < n && t.2 < n);
            if t.0 == t.1 || t.1 == t.2 {
                assert(m.count(t.1) >= 2);
                assert(false);
            }
        }
        if !contains_triplet(&seen, t) {
            let ghost before = seen@;
            seen.push(t);
            proof {
                assert(seen@.drop_last() =~= before);
                assert(seen@.last() == t);
                assert forall|k: int| 0 <= k < seen@.len() implies (#[trigger] seen@[k]).0 < n
                    && seen@[k].1 < n && seen@[k].2 < n by {
                    if k < before.len() {
                        assert(seen@[k] == before[k]);
                    }
                }
                assert forall|k: int| 0 <= k < seen@.len() implies strictly_sorted(
                    #[trigger] seen@[k],
                ) by {
                    if k < before.len() {
                        assert(seen@[k] == before[k]);
                    }
                }
                assert forall|a: int, b: int|
                    0 <= a < seen@.len() && 0 <= b < seen@.len() && a != b implies seen@[a]
                    != seen@[b] by {
                    if a < before.len() && b < before.len() {
                        assert(seen@[a] == before[a] && seen@[b] == before[b]);
                    } else if a < before.len() {
                        assert(before.contains(seen@[a]));
                    } else {
                        assert(before.contains(seen@[b]));
                    }
                }
            }
            push_equation(&mut clauses, secret, t);
        }
    }
    (clauses, seen)
}


/// The values of a circuit: the inputs, then gate after gate the exclusive or (flag
/// set) or the conjunction (flag clear) of two earlier values.
pub open spec fn circuit_values(inputs: Seq<bool>, gates: Seq<(usize, usize, bool)>) -> Seq<bool>
    decreases gates.len(),
{
    if gates.len() == 0 {
        inputs
    } else {
        let v = circuit_values(inputs, gates.drop_last());
        let g = gates.last();
        v.push(
            if g.2 {
                v[g.0 as int] ^ v[g.1 as int]
            } else {
                v[g.0 as int] && v[g.1 as int]
            },
        )
    }
}

/// Gate `k` reads two different switches, both before its own switch `first + k`.
pub open spec fn gates_wf(first: nat, gates: Seq<(usize, usize, bool)>) -> bool {
    forall|k: int| 0 <= k < gates.len() ==> (#[trigger] gates[k]).0 < first + k && gates[k].1 < first + k
        && gates[k].0 != gates[k].1
}

/// The clauses of gate `k`, whose output is switch `first + k`.
pub open spec fn one_gate_clauses(first: nat, k: int, g: (usize, usize, bool)) -> Seq<Seq<(usize, bool)>> {
    if g.2 {
        xor_gate_clauses(g.0, g.1, (first + k) as usize)
    } else {
        and_gate_clauses(g.0, g.1, (first + k) as usize)
    }
}

/// The clauses of all gates in order.
pub open spec fn gate_clauses(first: nat, gates: Seq<(usize, usize, bool)>) -> Seq<Seq<(usize, bool)>>
    decreases gates.len(),
{
    if gates.len() == 0 {
        Seq::empty()
    } else {
        gate_clauses(first, gates.drop_last()) + one_gate_clauses(first, gates.len() - 1, gates.last())
    }
}

/// One-literal clauses pinning each switch from `from` on to its value in `values`.
pub open spec fn lock_clauses(values: Seq<bool>, from: nat) -> Seq<Seq<(usize, bool)>> {
    Seq::new((values.len() - from) as nat, |j: int| seq![((from + j) as usize, values[from + j])])
}

/// How many outputs the avalanche terrain locks over `n` switches: `n / 3`, at least one.
pub open spec fn output_count(n: nat) -> nat {
    if n / 3 > 1 { n / 3 } else { 1 }
}

/// The whole circuit puzzle: gate clauses, then locks on the last `num_outputs` values.
pub open spec fn circuit_clauses(inputs: Seq<bool>, gates: Seq<(usize, usize, bool)>, num_outputs: nat) -> Seq<Seq<(usize, bool)>> {
    let values = circuit_values(inputs, gates);
    gate_clauses(inputs.len(), gates) + lock_clauses(values, (values.len() - num_outputs) as nat)
}

proof fn lemma_circuit_values_len(inputs: Seq<bool>, gates: Seq<(usize, usize, bool)>)
    ensures
        circuit_values(inputs, gates).len() == inputs.len() + gates.len(),
        forall|i: int| 0 <= i < inputs.len() ==> circuit_values(inputs, gates)[i] == inputs[i],
    decreases gates.len(),
{
    if gates.len() > 0 {
        lemma_circuit_values_len(inputs, gates.drop_last());
    }
}

proof fn lemma_circuit_values_prefix(inputs: Seq<bool>, gates: Seq<(usize, usize, bool)>, k: int)
    requires
        0 <= k <= gates.len(),
    ensures
        circuit_values(inputs, gates.take(k)) == circuit_values(inputs, gates).take(inputs.len() + k),
    decreases gates.len(),
{
    lemma_circuit_values_len(inputs, gates);
    if k < gates.len() {
        let g = gates.drop_last();
        assert(gates.take(k) =~= g.take(k));
        lemma_circuit_values_prefix(inputs, g, k);
        lemma_circuit_values_len(inputs, g);
        assert(circuit_values(inputs, g).take(inputs.len() + k) =~= circuit_values(inputs, gates).take(inputs.len() + k));
    } else {
        assert(gates.take(k) =~= gates);
        assert(circuit_values(inputs, gates).take(inputs.len() + k) =~= circuit_values(inputs, gates));
    }
}

/// Law: the values of a circuit satisfy its gate clauses, whose literals all name
/// switches of the circuit.
pub proof fn lemma_gate_clauses(inputs: Seq<bool>, gates: Seq<(usize, usize, bool)>, x: Seq<bool>)
    requires
        gates_wf(inputs.len(), gates),
        x == circuit_values(inputs, gates),
        inputs.len() + gates.len() <= usize::MAX,
    ensures
        formula_holds(gate_clauses(inputs.len(), gates), x),
        vars_below(gate_clauses(inputs.len(), gates), x.len()),
    decreases gates.len(),
{
    lemma_circuit_values_len(inputs, gates);
    if gates.len() > 0 {
        let init = gates.drop_last();
        let v = circuit_values(inputs, init);
        lemma_circuit_values_len(inputs, init);
        assert(gates_wf(inputs.len(), init)) by {
            assert forall|k: int| 0 <= k < init.len() implies (#[trigger] init[k]).0 < inputs.len() + k
                && init[k].1 < inputs.len() + k by {
                assert(init[k] == gates[k]);
            }
        }
        lemma_gate_clauses(inputs, init, v);
        let k = gates.len() - 1;
        let g = gates.last();
        assert(gates[k] == g);
        let i = (inputs.len() + k) as usize;
        let last = one_gate_clauses(inputs.len(), k, g);
        assert(x.drop_last() =~= v);
        assert(x[i as int] == if g.2 { v[g.0 as int] ^ v[g.1 as int] } else { v[g.0 as int] && v[g.1 as int] });
        assert(formula_holds(gate_clauses(inputs.len(), init), x)) by {
            let f = gate_clauses(inputs.len(), init);
            assert forall|q: int| 0 <= q < f.len() implies clause_holds(#[trigger] f[q], x) by {
                assert(clause_holds(f[q], v));
                assert(clause_vars_below(f[q], v.len()));
                let j = choose|j: int| 0 <= j < f[q].len() && crate::cnf::lit_holds(v, #[trigger] f[q][j]);
                assert(crate::cnf::lit_holds(x, f[q][j]));
            }
        }
        if g.2 {
            lemma_xor_gate_clauses(g.0, g.1, i, x);
        } else {
            lemma_and_gate_clauses(g.0, g.1, i, x);
        }
        lemma_formula_holds_append(gate_clauses(inputs.len(), init), last, x);
        assert(vars_below(gate_clauses(inputs.len(), init), x.len())) by {
            let f = gate_clauses(inputs.len(), init);
            assert forall|q: int| 0 <= q < f.len() implies clause_vars_below(#[trigger] f[q], x.len()) by {
                assert(clause_vars_below(f[q], v.len()));
            }
        }
        assert(vars_below(last, x.len())) by {
            assert forall|q: int| 0 <= q < last.len() implies clause_vars_below(#[trigger] last[q], x.len()) by {
                assert forall|j: int| 0 <= j < last[q].len() implies (#[trigger] last[q][j]).0 < x.len() by {}
            }
        }
        lemma_vars_below_append(gate_clauses(inputs.len(), init), last, x.len());
    }
}

/// Law: the values a well-formed circuit computes satisfy the whole circuit puzzle,
/// whose literals all name switches of the circuit.
pub proof fn lemma_circuit_clauses(inputs: Seq<bool>, gates: Seq<(usize, usize, bool)>, num_outputs: nat)
    requires
        gates_wf(inputs.len(), gates),
        num_outputs <= inputs.len() + gates.len(),
        inputs.len() + gates.len() <= usize::MAX,
    ensures
        formula_holds(circuit_clauses(inputs, gates, num_outputs), circuit_values(inputs, gates)),
        vars_below(circuit_clauses(inputs, gates, num_outputs), inputs.len() + gates.len()),
{
    let x = circuit_values(inputs, gates);
    lemma_circuit_values_len(inputs, gates);
    lemma_gate_clauses(inputs, gates, x);
    let from = (x.len() - num_outputs) as nat;
    let locks = lock_clauses(x, from);
    assert forall|q: int| 0 <= q < locks.len() implies clause_holds(#[trigger] locks[q], x) by {
        assert(crate::cnf::lit_holds(x, locks[q][0]));
    }
    assert forall|q: int| 0 <= q < locks.len() implies clause_vars_below(#[trigger] locks[q], x.len()) by {
        assert forall|j: int| 0 <= j < locks[q].len() implies (#[trigger] locks[q][j]).0 < x.len() by {}
    }
    lemma_formula_holds_append(gate_clauses(inputs.len(), gates), locks, x);
    lemma_vars_below_append(gate_clauses(inputs.len(), gates), locks, x.len());
}

/// Builds a random circuit over `n` switches: the first `max(n / 3, 2)` are random
/// inputs, each later switch is a gate (exclusive or with chance 3 in 5, else
/// conjunction) of two different earlier switches, the second drawn among the switches
/// other than the first, and the last `max(n / 3, 1)` switches are locked to their computed values.
/// Returns the clauses and the computed values, which satisfy them.
pub(crate) fn avalanche_circuit(rng: &mut ThreadRng, n: usize) -> (res: (
    Vec<Clause>,
    Vec<bool>,
    Ghost<(Seq<bool>, Seq<(usize, usize, bool)>)>,
))
    requires
        n >= 2,
    ensures
        ({
            let (inputs, gates) = res.2@;
            &&& inputs.len() == if n / 3 > 2 { n / 3 } else { 2 }
            &&& gates.len() + inputs.len() == n
            &&& gates_wf(inputs.len(), gates)
            &&& res.1@ == circuit_values(inputs, gates)
            &&& res.1@.len() == n
            &&& cnf_view(res.0@) == circuit_clauses(inputs, gates, if n / 3 > 1 { (n / 3) as nat } else { 1 })
        }),
{
    let num_inputs = if n / 3 > 2 { n / 3 } else { 2 };
    let num_outputs = if n / 3 > 1 { n / 3 } else { 1 };
    let mut secret: Vec<bool> = Vec::new();
    let mut i: usize = 0;
    while i < n
        invariant
            i <= n,
            secret@.len() == i,
        decreases n - i,
    {
        secret.push(false);
        i = i + 1;
    }
    let mut i: usize = 0;
    while i < num_inputs
        invariant
            i <= num_inputs <= n,
            secret@.len() == n,
        decreases num_inputs - i,
    {
        let bit = gen_ratio(rng, 1, 2);
        secret.set(i, bit);
        i = i + 1;
    }
    let ghost inputs = secret@.take(num_inputs as int);
    let ghost mut gates: Seq<(usize, usize, bool)> = Seq::empty();
    let mut clauses: Vec<Clause> = Vec::new();
    proof {
        lemma_circuit_values_len(inputs, gates);
    }
    let mut i: usize = num_inputs;
    while i < n
        invariant
            num_inputs <= i <= n,
            num_inputs >= 2,
            secret@.len() == n,
            inputs.len() == num_inputs,
            gates.len() == i - num_inputs,
            gates_wf(num_inputs as nat, gates),
            secret@.take(i as int) == circuit_values(inputs, gates),
            cnf_view(clauses@) == gate_clauses(num_inputs as nat, gates),
        decreases n - i,
    {
        let a = gen_range(rng, 0, i);
        let other = gen_range(rng, 0, i - 1);
        let b = if other >= a { other + 1 } else { other };
        let is_xor = gen_ratio(rng, 3, 5);
        let ghost prev = gates;
        let ghost v = circuit_values(inputs, prev);
        let value = if is_xor {
            secret[a] ^ secret[b]
        } else {
            secret[a] && secret[b]
        };
        assert(secret@[a as int] == v[a as int] && secret@[b as int] == v[b as int]) by {
            assert(secret@.take(i as int)[a as int] == secret@[a as int]);
            assert(secret@.take(i as int)[b as int] == secret@[b as int]);
        }
        secret.set(i, value);
        proof {
            gates = prev.push((a, b, is_xor));
            assert(gates.drop_last() =~= prev);
            assert(secret@.take(i + 1) =~= v.push(value));
            assert forall|k: int| 0 <= k < gates.len() implies (#[trigger] gates[k]).0 < num_inputs + k
                && gates[k].1 < num_inputs + k && gates[k].0 != gates[k].1 by {
                if k < prev.len() {
                    assert(gates[k] == prev[k]);
                }
            }
        }
        if is_xor {
            push_xor_gate(&mut clauses, a, b, i);
        } else {
            push_and_gate(&mut clauses, a, b, i);
        }
        assert(cnf_view(clauses@) == gate_clauses(num_inputs as nat, gates));
        i = i + 1;
    }
    assert(secret@.take(n as int) =~= secret@);
    let ghost values = secret@;
    let ghost gate_part = cnf_view(clauses@);
    let mut i: usize = n - num_outputs;
    while i < n
        invariant
            n - num_outputs <= i <= n,
            1 <= num_outputs <= n,
            secret@ == values,
            values.len() == n,
            cnf_view(clauses@) == gate_part + lock_clauses(values, (n - num_outputs) as nat).take(i - (n - num_outputs)),
        decreases n - i,
    {
        let req = secret[i];
        push_lock(&mut clauses, i, req);
        assert(lock_clauses(values, (n - num_outputs) as nat)[i - (n - num_outputs)] =~= seq![(i, req)]);
        assert(lock_clauses(values, (n - num_outputs) as nat).take(i + 1 - (n - num_outputs)) =~= lock_clauses(values, (n - num_outputs) as nat).take(i - (n - num_outputs)).push(seq![(i, req)]));
        i = i + 1;
    }
    assert(lock_clauses(values, (n - num_outputs) as nat).take(num_outputs as int) =~= lock_clauses(values, (n - num_outputs) as nat));
    (clauses, secret, Ghost((inputs, gates)))
}

/// How many equations the XOR random terrain asks for over `n` switches: `n + n/2`,
/// but no more than there are triplets of different switches.
pub open spec fn xor_equation_count(n: nat) -> nat {
    let max_possible: nat = if n >= 3 { (n * (n - 1) * (n - 2) / 6) as nat } else { 0 };
    if n + n / 2 < max_possible { n + n / 2 } else { max_possible }
}

/// The triplet parity puzzle of either XOR terrain: a hidden random solution, and either
/// `min(n + n/2, C(n, 3))` different random triplets (`random_triplets`) or the ring
/// triplets, each given its parity under the hidden solution. Returns the clauses, the
/// hidden solution and the triplets.
pub(crate) fn xor_puzzle(rng: &mut ThreadRng, n: usize, random_triplets: bool, draws: &mut u64) -> (res: (
    Vec<Clause>,
    Ghost<Seq<bool>>,
    Ghost<Seq<(usize, usize, usize)>>,
))
    requires
        n <= usize::MAX / 2,
        random_triplets ==> n * (n - 1) * (n - 2) <= usize::MAX,
    ensures
        res.1@.len() == n,
        triplets_below(res.2@, n as nat),
        cnf_view(res.0@) == xor_system(res.2@, res.1@),
        vars_below(cnf_view(res.0@), n as nat),
        formula_holds(cnf_view(res.0@), res.1@),
        satisfiable(n as nat, cnf_view(res.0@)),
        random_triplets ==> {
            &&& res.2@.no_duplicates()
            &&& (forall|k: int| 0 <= k < res.2@.len() ==> strictly_sorted(#[trigger] res.2@[k]))
            &&& res.2@.len() <= xor_equation_count(n as nat)
            &&& *final(draws) > 0 ==> res.2@.len() == xor_equation_count(n as nat)
        },
        !random_triplets ==> res.2@ == ring_triplets(n),
        *final(draws) <= *old(draws),
        !random_triplets || n < 3 ==> *final(draws) == *old(draws),
{
    let secret = random_bits(rng, n);
    let ghost ts: Seq<(usize, usize, usize)>;
    let clauses = if random_triplets {
        let max_possible_triplets = if n >= 3 {
            assert(n * (n - 1) <= n * (n - 1) * (n - 2)) by (nonlinear_arith)
                requires
                    3 <= n,
            ;
            (n * (n - 1) * (n - 2)) / 6
        } else {
            0
        };
        let num_equations = if n + n / 2 < max_possible_triplets {
            n + n / 2
        } else {
            max_possible_triplets
        };
        assert(num_equations == xor_equation_count(n as nat));
        let (clauses, seen) = xor_random_clauses(rng, &secret, num_equations, draws);
        proof {
            ts = seen@;
        }
        clauses
    } else {
        proof {
            ts = ring_triplets(n);
            lemma_ring_triplets_below(n);
        }
        xor_ring_clauses(&secret)
    };
    proof {
        lemma_xor_system_vars(ts, secret@, n as nat);
        lemma_xor_system(ts, secret@, secret@);
        assert(formula_holds(cnf_view(clauses@), secret@));
    }
    (clauses, Ghost(secret@), Ghost(ts))
}

/// The parity puzzle of the AES avalanche terrain: a hidden random solution, then
/// `2n` times a random count `k` in `3..=min(5, n)` of different switches, put in
/// increasing order and given their parity under the hidden solution. Returns the
/// clauses, the hidden solution and the selections.
pub(crate) fn aes_parity_puzzle(rng: &mut ThreadRng, n: usize) -> (res: (
    Vec<Clause>,
    Ghost<Seq<bool>>,
    Ghost<Seq<Seq<usize>>>,
))
    requires
        3 <= n <= usize::MAX / 2,
    ensures
        res.1@.len() == n,
        res.2@.len() == 2 * n,
        selections_below(res.2@, n as nat),
        forall|e: int| 0 <= e < res.2@.len() ==> 3 <= (#[trigger] res.2@[e]).len() <= 5 && increasing(res.2@[e]),
        cnf_view(res.0@) == parity_system(res.2@, res.1@),
        vars_below(cnf_view(res.0@), n as nat),
        formula_holds(cnf_view(res.0@), res.1@),
        satisfiable(n as nat, cnf_view(res.0@)),
{
    let secret = random_bits(rng, n);
    let mut clauses: Vec<Clause> = Vec::new();
    let ghost mut sels: Seq<Seq<usize>> = Seq::empty();
    let num_equations = n * 2;
    let mut e: usize = 0;
    while e < num_equations
        invariant
            e <= num_equations == 2 * n,
            3 <= n,
            secret@.len() == n,
            sels.len() == e,
            selections_below(sels, n as nat),
            forall|q: int| 0 <= q < sels.len() ==> 3 <= (#[trigger] sels[q]).len() <= 5 && increasing(sels[q]),
            cnf_view(clauses@) == parity_system(sels, secret@),
        decreases num_equations - e,
    {
        let k = gen_range_inclusive(rng, 3, if 5 < n { 5 } else { n });
        let available_vars = shuffled_indices(rng, n);
        let mut chosen: Vec<usize> = Vec::new();
        let mut i: usize = 0;
        while i < k
            invariant
                i <= k <= n,
                available_vars@.len() == n,
                available_vars@.no_duplicates(),
                forall|j: int| 0 <= j < n ==> (#[trigger] available_vars@[j]) < n,
                chosen@ == available_vars@.take(i as int),
            decreases k - i,
        {
            chosen.push(available_vars[i]);
            assert(chosen@ =~= available_vars@.take(i + 1));
            i = i + 1;
        }
        assert(chosen@.no_duplicates()) by {
            assert forall|a: int, b: int| 0 <= a < chosen@.len() && 0 <= b < chosen@.len() && a != b implies chosen@[a] != chosen@[b] by {
                assert(chosen@[a] == available_vars@[a] && chosen@[b] == available_vars@[b]);
            }
        }
        let selected = sort_switches(&chosen);
        proof {
            assert forall|j: int| 0 <= j < selected@.len() implies (#[trigger] selected@[j]) < n by {
                selected@.to_multiset_ensures();
                chosen@.to_multiset_ensures();
                assert(selected@.contains(selected@[j]));
                assert(selected@.to_multiset().count(selected@[j]) > 0);
                assert(chosen@.contains(selected@[j]));
                let q = choose|q: int| 0 <= q < chosen@.len() && chosen@[q] == selected@[j];
                assert(chosen@[q] == available_vars@[q]);
            }
        }
        let xor_sum = selection_parity(&secret, &selected);
        let ghost before = sels;
        push_parity_clauses(&mut clauses, &selected, xor_sum);
        proof {
            sels = before.push(selected@);
            assert(sels.drop_last() =~= before);
            assert forall|q: int, j: int| 0 <= q < sels.len() && 0 <= j < sels[q].len() implies (#[trigger] sels[q][j]) < n by {
                if q < before.len() {
                    assert(sels[q] == before[q]);
                }
            }
            assert forall|q: int| 0 <= q < sels.len() implies 3 <= (#[trigger] sels[q]).len() <= 5 && increasing(sels[q]) by {
                if q < before.len() {
                    assert(sels[q] == before[q]);
                }
            }
        }
        e = e + 1;
    }
    proof {
        lemma_parity_system(sels, secret@, secret@);
        assert(formula_holds(cnf_view(clauses@), secret@));
    }
    (clauses, Ghost(secret@), Ghost(sels))
}

} // verus!
