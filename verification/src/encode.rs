//! Clause encodings of parity and gate constraints, with the laws that say
//! which assignments satisfy them.

use vstd::prelude::*;
use vstd::arithmetic::power2::pow2;
use crate::count::{bit_of, mask_assignment, mask_of, lemma_mask_of, bit_is_set};
use crate::cnf::{Clause, lit_holds, clause_holds, formula_holds, cnf_view, clause_vars_below, vars_below};

verus! {

/// Clauses hold together exactly when each part holds.
pub proof fn lemma_formula_holds_append(f: Seq<Seq<(usize, bool)>>, g: Seq<Seq<(usize, bool)>>, x: Seq<bool>)
    ensures
        formula_holds(f + g, x) == (formula_holds(f, x) && formula_holds(g, x)),
{
    if formula_holds(f + g, x) {
        assert forall|i: int| 0 <= i < f.len() implies clause_holds(#[trigger] f[i], x) by {
            assert((f + g)[i] == f[i]);
        }
        assert forall|i: int| 0 <= i < g.len() implies clause_holds(#[trigger] g[i], x) by {
            assert((f + g)[f.len() + i] == g[i]);
        }
    }
    if formula_holds(f, x) && formula_holds(g, x) {
        assert forall|i: int| 0 <= i < (f + g).len() implies clause_holds(#[trigger] (f + g)[i], x) by {
            if i < f.len() {
                assert((f + g)[i] == f[i]);
            } else {
                assert((f + g)[i] == g[i - f.len()]);
            }
        }
    }
}

/// Literals of switches below `n` stay below `n` when clause lists are joined.
pub proof fn lemma_vars_below_append(f: Seq<Seq<(usize, bool)>>, g: Seq<Seq<(usize, bool)>>, n: nat)
    requires
        vars_below(f, n),
        vars_below(g, n),
    ensures
        vars_below(f + g, n),
{
    assert forall|i: int| 0 <= i < (f + g).len() implies clause_vars_below(#[trigger] (f + g)[i], n) by {
        if i < f.len() {
            assert((f + g)[i] == f[i]);
        } else {
            assert((f + g)[i] == g[i - f.len()]);
        }
    }
}

/// The four clauses that forbid every pattern of switches `a`, `b`, `c` whose
/// exclusive or differs from `r`.
pub open spec fn xor3_clauses(a: usize, b: usize, c: usize, r: bool) -> Seq<Seq<(usize, bool)>> {
    if r {
        seq![
            seq![(a, true), (b, true), (c, true)],
            seq![(a, true), (b, false), (c, false)],
            seq![(a, false), (b, true), (c, false)],
            seq![(a, false), (b, false), (c, true)],
        ]
    } else {
        seq![
            seq![(a, false), (b, false), (c, false)],
            seq![(a, false), (b, true), (c, true)],
            seq![(a, true), (b, false), (c, true)],
            seq![(a, true), (b, true), (c, false)],
        ]
    }
}

/// Law: the parity clauses of `a`, `b`, `c` hold exactly when the three switches
/// have exclusive or `r`.
pub proof fn lemma_xor3_clauses(a: usize, b: usize, c: usize, r: bool, x: Seq<bool>)
    requires
        a < x.len(),
        b < x.len(),
        c < x.len(),
    ensures
        formula_holds(xor3_clauses(a, b, c, r), x) == ((x[a as int] ^ x[b as int] ^ x[c as int]) == r),
{
    let f = xor3_clauses(a, b, c, r);
    if formula_holds(f, x) {
        assert(clause_holds(f[0], x));
        assert(clause_holds(f[1], x));
        assert(clause_holds(f[2], x));
        assert(clause_holds(f[3], x));
    }
    if (x[a as int] ^ x[b as int] ^ x[c as int]) == r {
        assert forall|i: int| 0 <= i < 4 implies clause_holds(#[trigger] f[i], x) by {
            if lit_holds(x, f[i][0]) {
                assert(clause_holds(f[i], x));
            } else if lit_holds(x, f[i][1]) {
                assert(clause_holds(f[i], x));
            } else {
                assert(lit_holds(x, f[i][2]));
            }
        }
    }
}

/// The clauses that tie switch `i` to the exclusive or of switches `a` and `b`.
pub open spec fn xor_gate_clauses(a: usize, b: usize, i: usize) -> Seq<Seq<(usize, bool)>> {
    seq![
        seq![(a, true), (b, true), (i, false)],
        seq![(a, true), (b, false), (i, true)],
        seq![(a, false), (b, true), (i, true)],
        seq![(a, false), (b, false), (i, false)],
    ]
}

/// The clauses that tie switch `i` to the conjunction of switches `a` and `b`.
pub open spec fn and_gate_clauses(a: usize, b: usize, i: usize) -> Seq<Seq<(usize, bool)>> {
    seq![
        seq![(a, true), (i, false)],
        seq![(b, true), (i, false)],
        seq![(a, false), (b, false), (i, true)],
    ]
}

/// Law: the exclusive-or gate clauses hold exactly when switch `i` is the
/// exclusive or of switches `a` and `b`.
pub proof fn lemma_xor_gate_clauses(a: usize, b: usize, i: usize, x: Seq<bool>)
    requires
        a < x.len(),
        b < x.len(),
        i < x.len(),
    ensures
        formula_holds(xor_gate_clauses(a, b, i), x) == (x[i as int] == (x[a as int] ^ x[b as int])),
{
    let f = xor_gate_clauses(a, b, i);
    if formula_holds(f, x) {
        assert(clause_holds(f[0], x));
        assert(clause_holds(f[1], x));
        assert(clause_holds(f[2], x));
        assert(clause_holds(f[3], x));
    }
    if x[i as int] == (x[a as int] ^ x[b as int]) {
        assert forall|k: int| 0 <= k < 4 implies clause_holds(#[trigger] f[k], x) by {
            if lit_holds(x, f[k][0]) {
                assert(clause_holds(f[k], x));
            } else if lit_holds(x, f[k][1]) {
                assert(clause_holds(f[k], x));
            } else {
                assert(lit_holds(x, f[k][2]));
            }
        }
    }
}

/// Law: the conjunction gate clauses hold exactly when switch `i` is the
/// conjunction of switches `a` and `b`.
pub proof fn lemma_and_gate_clauses(a: usize, b: usize, i: usize, x: Seq<bool>)
    requires
        a < x.len(),
        b < x.len(),
        i < x.len(),
    ensures
        formula_holds(and_gate_clauses(a, b, i), x) == (x[i as int] == (x[a as int] && x[b as int])),
{
    let f = and_gate_clauses(a, b, i);
    if formula_holds(f, x) {
        assert(clause_holds(f[0], x));
        assert(clause_holds(f[1], x));
        assert(clause_holds(f[2], x));
    }
    if x[i as int] == (x[a as int] && x[b as int]) {
        assert forall|k: int| 0 <= k < 3 implies clause_holds(#[trigger] f[k], x) by {
            if lit_holds(x, f[k][0]) {
                assert(clause_holds(f[k], x));
            } else if lit_holds(x, f[k][1]) {
                assert(clause_holds(f[k], x));
            } else {
                assert(lit_holds(x, f[k][2]));
            }
        }
    }
}

/// Appends the four clauses that force `a`, `b`, `c` to have exclusive or `xor_result`.
pub fn push_xor3_clauses(clauses: &mut Vec<Clause>, a: usize, b: usize, c: usize, xor_result: bool)
    ensures
        cnf_view(final(clauses)@) == cnf_view(old(clauses)@) + xor3_clauses(a, b, c, xor_result),
{
    let ghost before = cnf_view(clauses@);
    if xor_result == true {
        clauses.push(Clause { literals: vec![(a, true), (b, true), (c, true)] });
        clauses.push(Clause { literals: vec![(a, true), (b, false), (c, false)] });
        clauses.push(Clause { literals: vec![(a, false), (b, true), (c, false)] });
        clauses.push(Clause { literals: vec![(a, false), (b, false), (c, true)] });
    } else {
        clauses.push(Clause { literals: vec![(a, false), (b, false), (c, false)] });
        clauses.push(Clause { literals: vec![(a, false), (b, true), (c, true)] });
        clauses.push(Clause { literals: vec![(a, true), (b, false), (c, true)] });
        clauses.push(Clause { literals: vec![(a, true), (b, true), (c, false)] });
    }
    assert(cnf_view(clauses@) =~= before + xor3_clauses(a, b, c, xor_result));
}


/// Appends the clauses that force switch `i` to be the exclusive or of `a` and `b`.
pub fn push_xor_gate(clauses: &mut Vec<Clause>, a: usize, b: usize, i: usize)
    ensures
        cnf_view(final(clauses)@) == cnf_view(old(clauses)@) + xor_gate_clauses(a, b, i),
{
    let ghost before = cnf_view(clauses@);
    clauses.push(Clause { literals: vec![(a, true), (b, true), (i, false)] });
    clauses.push(Clause { literals: vec![(a, true), (b, false), (i, true)] });
    clauses.push(Clause { literals: vec![(a, false), (b, true), (i, true)] });
    clauses.push(Clause { literals: vec![(a, false), (b, false), (i, false)] });
    assert(cnf_view(clauses@) =~= before + xor_gate_clauses(a, b, i));
}

/// Appends the clauses that force switch `i` to be the conjunction of `a` and `b`.
pub fn push_and_gate(clauses: &mut Vec<Clause>, a: usize, b: usize, i: usize)
    ensures
        cnf_view(final(clauses)@) == cnf_view(old(clauses)@) + and_gate_clauses(a, b, i),
{
    let ghost before = cnf_view(clauses@);
    clauses.push(Clause { literals: vec![(a, true), (i, false)] });
    clauses.push(Clause { literals: vec![(b, true), (i, false)] });
    clauses.push(Clause { literals: vec![(a, false), (b, false), (i, true)] });
    assert(cnf_view(clauses@) =~= before + and_gate_clauses(a, b, i));
}

/// Appends the one-literal clause that pins switch `i` to `req`.
pub fn push_lock(clauses: &mut Vec<Clause>, i: usize, req: bool)
    ensures
        cnf_view(final(clauses)@) == cnf_view(old(clauses)@).push(seq![(i, req)]),
{
    let ghost before = cnf_view(clauses@);
    clauses.push(Clause { literals: vec![(i, req)] });
    assert(clauses@[clauses@.len() - 1].literals@ =~= seq![(i, req)]);
    assert(cnf_view(clauses@) =~= before.push(seq![(i, req)]));
}

/// Exclusive or of the low `k` bits of `m`.
pub open spec fn bits_parity(m: nat, k: nat) -> bool
    decreases k,
{
    if k == 0 {
        false
    } else {
        bits_parity(m, (k - 1) as nat) != bit_of(m, (k - 1) as nat)
    }
}

/// Exclusive or of the entries of `x`.
pub open spec fn seq_parity(x: Seq<bool>) -> bool
    decreases x.len(),
{
    if x.len() == 0 {
        false
    } else {
        seq_parity(x.drop_last()) != x.last()
    }
}

/// The clause that forbids switch `sel[i]` taking bit `i` of `m`, for every `i` at once.
pub open spec fn parity_clause(sel: Seq<usize>, m: nat) -> Seq<(usize, bool)> {
    Seq::new(sel.len(), |i: int| (sel[i], !bit_of(m, i as nat)))
}

/// The clauses, in increasing mask order, forbidding each mask below `upto` whose
/// bits over `sel` have the wrong parity.
pub open spec fn parity_clauses_upto(sel: Seq<usize>, target: bool, upto: nat) -> Seq<Seq<(usize, bool)>>
    decreases upto,
{
    if upto == 0 {
        Seq::empty()
    } else {
        let prev = parity_clauses_upto(sel, target, (upto - 1) as nat);
        if bits_parity((upto - 1) as nat, sel.len()) != target {
            prev.push(parity_clause(sel, (upto - 1) as nat))
        } else {
            prev
        }
    }
}

/// The clauses that force the switches of `sel` to have exclusive or `target`.
pub open spec fn parity_clauses(sel: Seq<usize>, target: bool) -> Seq<Seq<(usize, bool)>> {
    parity_clauses_upto(sel, target, pow2(sel.len()))
}

/// The values that `x` gives the switches of `sel`.
pub open spec fn pick(x: Seq<bool>, sel: Seq<usize>) -> Seq<bool> {
    Seq::new(sel.len(), |i: int| x[sel[i] as int])
}

proof fn lemma_bits_parity_is_seq_parity(m: nat, k: nat)
    ensures
        bits_parity(m, k) == seq_parity(mask_assignment(m, k)),
    decreases k,
{
    if k > 0 {
        lemma_bits_parity_is_seq_parity(m, (k - 1) as nat);
        assert(mask_assignment(m, k).drop_last() =~= mask_assignment(m, (k - 1) as nat));
    }
}

#[verifier::spinoff_prover]
proof fn lemma_parity_clauses_upto_members(sel: Seq<usize>, target: bool, upto: nat)
    ensures
        forall|q: int|
            #![trigger parity_clauses_upto(sel, target, upto)[q]]
            0 <= q < parity_clauses_upto(sel, target, upto).len() ==> exists|m: nat|
                m < upto && bits_parity(m, sel.len()) != target && parity_clauses_upto(
                    sel,
                    target,
                    upto,
                )[q] == #[trigger] parity_clause(sel, m),
        forall|m: nat|
            m < upto && bits_parity(m, sel.len()) != target ==> parity_clauses_upto(
                sel,
                target,
                upto,
            ).contains(#[trigger] parity_clause(sel, m)),
    decreases upto,
{
    if upto > 0 {
        let prev = parity_clauses_upto(sel, target, (upto - 1) as nat);
        let cur = parity_clauses_upto(sel, target, upto);
        assert(cur == if bits_parity((upto - 1) as nat, sel.len()) != target {
            prev.push(parity_clause(sel, (upto - 1) as nat))
        } else {
            prev
        });
        lemma_parity_clauses_upto_members(sel, target, (upto - 1) as nat);
        assert forall|q: int| #![trigger cur[q]] 0 <= q < cur.len() implies exists|m: nat|
            m < upto && bits_parity(m, sel.len()) != target && cur[q] == #[trigger] parity_clause(
                sel,
                m,
            ) by {
            if q < prev.len() {
                assert(cur[q] == prev[q]);
                assert(exists|m: nat|
                    m < upto - 1 && bits_parity(m, sel.len()) != target && prev[q]
                        == #[trigger] parity_clause(sel, m));
                let m = choose|m: nat|
                    m < upto - 1 && bits_parity(m, sel.len()) != target && prev[q]
                        == #[trigger] parity_clause(sel, m);
                assert(cur[q] == parity_clause(sel, m));
            } else {
                assert(cur[q] == parity_clause(sel, (upto - 1) as nat));
            }
        }
        assert forall|m: nat| m < upto && bits_parity(m, sel.len()) != target implies cur.contains(
            #[trigger] parity_clause(sel, m),
        ) by {
            if m < upto - 1 {
                assert(prev.contains(parity_clause(sel, m)));
                let q = choose|q: int| 0 <= q < prev.len() && prev[q] == parity_clause(sel, m);
                assert(cur[q] == prev[q]);
            } else {
                assert(cur[prev.len() as int] == parity_clause(sel, m));
            }
        }
    }
}

/// The clause of mask `m` fails exactly when the switches of `sel` spell the bits of `m`.
proof fn lemma_parity_clause_fails(sel: Seq<usize>, m: nat, x: Seq<bool>)
    requires
        forall|i: int| 0 <= i < sel.len() ==> (#[trigger] sel[i]) < x.len(),
    ensures
        !clause_holds(parity_clause(sel, m), x) <==> mask_assignment(m, sel.len()) == pick(x, sel),
{
    let c = parity_clause(sel, m);
    if !clause_holds(c, x) {
        assert forall|i: int| 0 <= i < sel.len() implies mask_assignment(m, sel.len())[i] == pick(
            x,
            sel,
        )[i] by {
            assert(!lit_holds(x, c[i]));
        }
        assert(mask_assignment(m, sel.len()) =~= pick(x, sel));
    }
    if mask_assignment(m, sel.len()) == pick(x, sel) {
        assert forall|j: int| 0 <= j < c.len() implies !lit_holds(x, #[trigger] c[j]) by {
            assert(mask_assignment(m, sel.len())[j] == pick(x, sel)[j]);
        }
    }
}

/// Law: the parity clauses over `sel` hold exactly when the switches of `sel`
/// have exclusive or `target`.
pub proof fn lemma_parity_clauses(sel: Seq<usize>, target: bool, x: Seq<bool>)
    requires
        forall|i: int| 0 <= i < sel.len() ==> (#[trigger] sel[i]) < x.len(),
    ensures
        formula_holds(parity_clauses(sel, target), x) == (seq_parity(pick(x, sel)) == target),
{
    let k = sel.len();
    let f = parity_clauses(sel, target);
    let p = pick(x, sel);
    lemma_parity_clauses_upto_members(sel, target, pow2(k));
    lemma_mask_of(p);
    let m0 = mask_of(p);
    lemma_bits_parity_is_seq_parity(m0, k);
    if formula_holds(f, x) && seq_parity(p) != target {
        assert(f.contains(parity_clause(sel, m0)));
        let q = choose|q: int| 0 <= q < f.len() && f[q] == parity_clause(sel, m0);
        assert(clause_holds(f[q], x));
        lemma_parity_clause_fails(sel, m0, x);
    }
    if seq_parity(p) == target {
        assert forall|q: int| 0 <= q < f.len() implies clause_holds(#[trigger] f[q], x) by {
            let m = choose|m: nat|
                m < pow2(k) && bits_parity(m, k) != target && f[q] == #[trigger] parity_clause(
                    sel,
                    m,
                );
            lemma_parity_clause_fails(sel, m, x);
            lemma_bits_parity_is_seq_parity(m, k);
        }
    }
}


/// The exclusive or of the low `k` bits of `mask`, bit by bit.
fn mask_parity(mask: usize, k: usize) -> (parity: bool)
    requires
        k < usize::BITS,
    ensures
        parity == bits_parity(mask as nat, k as nat),
{
    let mut parity = false;
    let mut i: usize = 0;
    while i < k
        invariant
            i <= k < usize::BITS,
            parity == bits_parity(mask as nat, i as nat),
        decreases k - i,
    {
        if bit_is_set(mask, i) {
            parity = !parity;
        }
        i = i + 1;
    }
    parity
}

/// The clause that rules out switch `selected[i]` taking bit `i` of `mask` for all `i`.
fn parity_clause_for(selected: &Vec<usize>, mask: usize) -> (clause: Clause)
    requires
        selected@.len() < usize::BITS,
    ensures
        clause.literals@ == parity_clause(selected@, mask as nat),
{
    let k = selected.len();
    let mut literals: Vec<(usize, bool)> = Vec::new();
    let mut i: usize = 0;
    while i < k
        invariant
            i <= k,
            k == selected@.len(),
            k < usize::BITS,
            literals@ == parity_clause(selected@, mask as nat).take(i as int),
        decreases k - i,
    {
        let sign = bit_is_set(mask, i);
        literals.push((selected[i], !sign));
        assert(literals@ =~= parity_clause(selected@, mask as nat).take(i + 1));
        i = i + 1;
    }
    assert(literals@ =~= parity_clause(selected@, mask as nat));
    Clause { literals }
}

/// Appends, in increasing mask order, one clause for every pattern of the switches in
/// `selected` whose exclusive or differs from `xor_sum`.
pub fn push_parity_clauses(clauses: &mut Vec<Clause>, selected: &Vec<usize>, xor_sum: bool)
    requires
        selected@.len() < usize::BITS,
    ensures
        cnf_view(final(clauses)@) == cnf_view(old(clauses)@) + parity_clauses(selected@, xor_sum),
{
    let ghost before = cnf_view(clauses@);
    let k = selected.len();
    proof {
        vstd::bits::lemma_usize_pow2_no_overflow(k as nat);
        vstd::bits::lemma_usize_shl_is_mul(1, k);
    }
    let max_mask: usize = 1usize << k;
    let mut mask: usize = 0;
    assert(cnf_view(clauses@) =~= before + parity_clauses_upto(selected@, xor_sum, 0));
    while mask < max_mask
        invariant
            mask <= max_mask,
            max_mask == pow2(k as nat),
            k == selected@.len(),
            k < usize::BITS,
            cnf_view(clauses@) == before + parity_clauses_upto(selected@, xor_sum, mask as nat),
        decreases max_mask - mask,
    {
        let parity = mask_parity(mask, k);
        let ghost prev = parity_clauses_upto(selected@, xor_sum, mask as nat);
        assert(parity_clauses_upto(selected@, xor_sum, (mask + 1) as nat) == if bits_parity(
            mask as nat,
            k as nat,
        ) != xor_sum {
            prev.push(parity_clause(selected@, mask as nat))
        } else {
            prev
        });
        if parity != xor_sum {
            let clause = parity_clause_for(selected, mask);
            let ghost mid = cnf_view(clauses@);
            clauses.push(clause);
            assert(cnf_view(clauses@) =~= mid.push(parity_clause(selected@, mask as nat)));
        }
        assert(cnf_view(clauses@) =~= before + parity_clauses_upto(
            selected@,
            xor_sum,
            (mask + 1) as nat,
        ));
        mask = mask + 1;
    }
}


/// Every clause of the parity encoding over `sel` mentions only switches of `sel`.
pub proof fn lemma_parity_clauses_vars(sel: Seq<usize>, target: bool, n: nat)
    requires
        forall|i: int| 0 <= i < sel.len() ==> (#[trigger] sel[i]) < n,
    ensures
        vars_below(parity_clauses(sel, target), n),
{
    let f = parity_clauses(sel, target);
    lemma_parity_clauses_upto_members(sel, target, pow2(sel.len()));
    assert forall|q: int| 0 <= q < f.len() implies clause_vars_below(#[trigger] f[q], n) by {
        let m = choose|m: nat|
            m < pow2(sel.len()) && bits_parity(m, sel.len()) != target && f[q] == #[trigger] parity_clause(sel, m);
        assert forall|j: int| 0 <= j < f[q].len() implies (#[trigger] f[q][j]).0 < n by {
            assert(f[q][j].0 == sel[j]);
        }
    }
}

/// For each selection in turn, the parity clauses giving it the parity it has under `s`.
pub open spec fn parity_system(sels: Seq<Seq<usize>>, s: Seq<bool>) -> Seq<Seq<(usize, bool)>>
    decreases sels.len(),
{
    if sels.len() == 0 {
        Seq::empty()
    } else {
        parity_system(sels.drop_last(), s) + parity_clauses(sels.last(), seq_parity(pick(s, sels.last())))
    }
}

/// The masks `2j` and `2j + 1` differ in bit 0 only.
proof fn lemma_bit_low_pair(j: nat, v: nat)
    ensures
        v == 0 ==> !bit_of(2 * j, v) && bit_of(2 * j + 1, v),
        v > 0 ==> bit_of(2 * j, v) == bit_of(2 * j + 1, v),
{
    vstd::arithmetic::power2::lemma2_to64();
    if v == 0 {
        assert((2 * j) / 1 == 2 * j);
        assert((2 * j + 1) / 1 == 2 * j + 1);
    } else {
        vstd::arithmetic::power2::lemma_pow2_unfold(v);
        vstd::arithmetic::power2::lemma_pow2_pos((v - 1) as nat);
        let p = pow2((v - 1) as nat);
        vstd::arithmetic::div_mod::lemma_div_denominator((2 * j) as int, 2, p as int);
        vstd::arithmetic::div_mod::lemma_div_denominator((2 * j + 1) as int, 2, p as int);
        assert((2 * j) / 2 == j);
        assert((2 * j + 1) / 2 == j);
    }
}

/// The masks `2j` and `2j + 1` have different parity over any `k >= 1` low bits.
proof fn lemma_parity_low_pair(j: nat, k: nat)
    requires
        k >= 1,
    ensures
        bits_parity(2 * j + 1, k) != bits_parity(2 * j, k),
    decreases k,
{
    let m0 = 2 * j;
    let m1 = 2 * j + 1;
    lemma_bit_low_pair(j, (k - 1) as nat);
    assert(bits_parity(m1, k) == (bits_parity(m1, (k - 1) as nat) != bit_of(m1, (k - 1) as nat)));
    assert(bits_parity(m0, k) == (bits_parity(m0, (k - 1) as nat) != bit_of(m0, (k - 1) as nat)));
    if k > 1 {
        lemma_parity_low_pair(j, (k - 1) as nat);
    } else {
        assert(bits_parity(m1, 0) == false);
        assert(bits_parity(m0, 0) == false);
    }
}

/// Below mask `2j`, exactly `j` masks have the wrong parity.
proof fn lemma_parity_clauses_upto_len(sel: Seq<usize>, target: bool, j: nat)
    requires
        sel.len() >= 1,
    ensures
        parity_clauses_upto(sel, target, 2 * j).len() == j,
    decreases j,
{
    if j > 0 {
        let jm = (j - 1) as nat;
        lemma_parity_clauses_upto_len(sel, target, jm);
        lemma_parity_low_pair(jm, sel.len());
        let a = parity_clauses_upto(sel, target, 2 * jm);
        let b = parity_clauses_upto(sel, target, 2 * jm + 1);
        let c = parity_clauses_upto(sel, target, 2 * j);
        assert(2 * j == 2 * jm + 2);
        assert(b.len() == a.len() + if bits_parity(2 * jm, sel.len()) != target { 1int } else { 0int });
        assert(c.len() == b.len() + if bits_parity(2 * jm + 1, sel.len()) != target { 1int } else { 0int });
    }
}

/// Law: the parity constraint on `k >= 1` switches takes exactly `2^(k-1)` clauses, one
/// per pattern of the wrong parity.
pub proof fn lemma_parity_clauses_len(sel: Seq<usize>, target: bool)
    requires
        sel.len() >= 1,
    ensures
        parity_clauses(sel, target).len() == pow2((sel.len() - 1) as nat),
{
    vstd::arithmetic::power2::lemma_pow2_unfold(sel.len());
    lemma_parity_clauses_upto_len(sel, target, pow2((sel.len() - 1) as nat));
}

/// How many clauses the parity system of the selections `sels` takes: `2^(k-1)` for each
/// selection of `k` switches.
pub open spec fn parity_system_size(sels: Seq<Seq<usize>>) -> nat
    decreases sels.len(),
{
    if sels.len() == 0 {
        0
    } else {
        parity_system_size(sels.drop_last()) + pow2((sels.last().len() - 1) as nat)
    }
}

/// Law: a parity system of non-empty selections has `parity_system_size` clauses.
pub proof fn lemma_parity_system_len(sels: Seq<Seq<usize>>, s: Seq<bool>)
    requires
        forall|e: int| 0 <= e < sels.len() ==> (#[trigger] sels[e]).len() >= 1,
    ensures
        parity_system(sels, s).len() == parity_system_size(sels),
    decreases sels.len(),
{
    if sels.len() > 0 {
        assert(sels[sels.len() - 1] == sels.last());
        lemma_parity_clauses_len(sels.last(), seq_parity(pick(s, sels.last())));
        assert forall|e: int| 0 <= e < sels.drop_last().len() implies (#[trigger] sels.drop_last()[e]).len() >= 1 by {
            assert(sels.drop_last()[e] == sels[e]);
        }
        lemma_parity_system_len(sels.drop_last(), s);
    }
}

/// Law: with selections of 3 to 5 switches each, the parity system takes between 4 and
/// 16 clauses per selection.
pub proof fn lemma_parity_system_len_bounds(sels: Seq<Seq<usize>>, s: Seq<bool>)
    requires
        forall|e: int| 0 <= e < sels.len() ==> 3 <= (#[trigger] sels[e]).len() <= 5,
    ensures
        4 * sels.len() <= parity_system(sels, s).len() <= 16 * sels.len(),
    decreases sels.len(),
{
    if sels.len() > 0 {
        assert(sels[sels.len() - 1] == sels.last());
        vstd::arithmetic::power2::lemma2_to64();
        lemma_parity_clauses_len(sels.last(), seq_parity(pick(s, sels.last())));
        assert forall|e: int| 0 <= e < sels.drop_last().len() implies 3 <= (#[trigger] sels.drop_last()[e]).len() <= 5 by {
            assert(sels.drop_last()[e] == sels[e]);
        }
        lemma_parity_system_len_bounds(sels.drop_last(), s);
        let k = sels.last().len();
        assert(4 <= pow2((k - 1) as nat) <= 16) by {
            if k == 3 {
            } else if k == 4 {
            } else {
            }
        }
    }
}

/// Every switch of every selection is below `n`.
pub open spec fn selections_below(sels: Seq<Seq<usize>>, n: nat) -> bool {
    forall|e: int, i: int| 0 <= e < sels.len() && 0 <= i < sels[e].len() ==> (#[trigger] sels[e][i]) < n
}

/// Law: an assignment satisfies the parity system of `s` exactly when it gives every
/// selection the parity that `s` gives it; in particular `s` satisfies it, and every
/// literal names one of the selected switches.
pub proof fn lemma_parity_system(sels: Seq<Seq<usize>>, s: Seq<bool>, x: Seq<bool>)
    requires
        selections_below(sels, x.len()),
        selections_below(sels, s.len()),
    ensures
        formula_holds(parity_system(sels, s), x) == forall|e: int|
            0 <= e < sels.len() ==> seq_parity(pick(x, #[trigger] sels[e])) == seq_parity(pick(s, sels[e])),
        formula_holds(parity_system(sels, s), s),
        vars_below(parity_system(sels, s), x.len()),
    decreases sels.len(),
{
    if sels.len() > 0 {
        let init = sels.drop_last();
        let sel = sels.last();
        assert(sels[sels.len() - 1] == sel);
        assert(selections_below(init, x.len())) by {
            assert forall|e: int, i: int| 0 <= e < init.len() && 0 <= i < init[e].len() implies (#[trigger] init[e][i]) < x.len() by {
                assert(init[e] == sels[e]);
            }
        }
        assert(selections_below(init, s.len())) by {
            assert forall|e: int, i: int| 0 <= e < init.len() && 0 <= i < init[e].len() implies (#[trigger] init[e][i]) < s.len() by {
                assert(init[e] == sels[e]);
            }
        }
        assert forall|i: int| 0 <= i < sel.len() implies (#[trigger] sel[i]) < x.len() && sel[i] < s.len() by {
            assert(sels[sels.len() - 1][i] == sel[i]);
        }
        lemma_parity_system(init, s, x);
        lemma_parity_system(init, s, s);
        let t = seq_parity(pick(s, sel));
        lemma_parity_clauses(sel, t, x);
        lemma_parity_clauses(sel, t, s);
        lemma_parity_clauses_vars(sel, t, x.len());
        lemma_formula_holds_append(parity_system(init, s), parity_clauses(sel, t), x);
        lemma_formula_holds_append(parity_system(init, s), parity_clauses(sel, t), s);
        lemma_vars_below_append(parity_system(init, s), parity_clauses(sel, t), x.len());
        if formula_holds(parity_system(sels, s), x) {
            assert forall|e: int| 0 <= e < sels.len() implies seq_parity(pick(x, #[trigger] sels[e]))
                == seq_parity(pick(s, sels[e])) by {
                if e < init.len() {
                    assert(sels[e] == init[e]);
                }
            }
        }
        if forall|e: int|
            0 <= e < sels.len() ==> seq_parity(pick(x, #[trigger] sels[e])) == seq_parity(pick(s, sels[e])) {
            assert forall|e: int| 0 <= e < init.len() implies seq_parity(pick(x, #[trigger] init[e]))
                == seq_parity(pick(s, init[e])) by {
                assert(sels[e] == init[e]);
            }
            assert(seq_parity(pick(x, sels[sels.len() - 1])) == seq_parity(pick(s, sels[sels.len() - 1])));
        }
    }
}

/// The exclusive or of the switches of `selected` under `secret`.
pub fn selection_parity(secret: &Vec<bool>, selected: &Vec<usize>) -> (xor_sum: bool)
    requires
        forall|i: int| 0 <= i < selected@.len() ==> (#[trigger] selected@[i]) < secret@.len(),
    ensures
        xor_sum == seq_parity(pick(secret@, selected@)),
{
    let mut xor_sum = false;
    let mut i: usize = 0;
    while i < selected.len()
        invariant
            i <= selected@.len(),
            forall|j: int| 0 <= j < selected@.len() ==> (#[trigger] selected@[j]) < secret@.len(),
            xor_sum == seq_parity(pick(secret@, selected@).take(i as int)),
        decreases selected@.len() - i,
    {
        assert(pick(secret@, selected@).take(i + 1).drop_last() =~= pick(secret@, selected@).take(i as int));
        xor_sum = xor_sum ^ secret[selected[i]];
        i = i + 1;
    }
    assert(pick(secret@, selected@).take(selected@.len() as int) =~= pick(secret@, selected@));
    xor_sum
}

/// The switch numbers strictly increase.
pub open spec fn increasing(v: Seq<usize>) -> bool {
    forall|i: int, j: int| 0 <= i < j < v.len() ==> (#[trigger] v[i]) < (#[trigger] v[j])
}

proof fn lemma_insert_multiset_usize(s: Seq<usize>, pos: int, x: usize)
    requires
        0 <= pos <= s.len(),
    ensures
        s.insert(pos, x).to_multiset() == s.to_multiset().insert(x),
{
    broadcast use vstd::seq_lib::group_to_multiset_ensures;
    let a = s.take(pos);
    let b = s.skip(pos);
    assert(s.insert(pos, x) =~= a.push(x) + b);
    assert(s =~= a + b);
    vstd::seq_lib::lemma_multiset_commutative(a.push(x), b);
    vstd::seq_lib::lemma_multiset_commutative(a, b);
    assert(s.insert(pos, x).to_multiset() =~= s.to_multiset().insert(x));
}

/// Different switch numbers in increasing order, each kept.
pub fn sort_switches(v: &Vec<usize>) -> (sorted: Vec<usize>)
    requires
        v@.no_duplicates(),
    ensures
        sorted@.to_multiset() == v@.to_multiset(),
        sorted@.len() == v@.len(),
        increasing(sorted@),
{
    let mut sorted: Vec<usize> = Vec::new();
    let mut i: usize = 0;
    assert(v@.take(0) =~= Seq::<usize>::empty());
    while i < v.len()
        invariant
            i <= v@.len(),
            v@.no_duplicates(),
            sorted@.to_multiset() == v@.take(i as int).to_multiset(),
            sorted@.len() == i,
            increasing(sorted@),
        decreases v@.len() - i,
    {
        let x = v[i];
        let mut pos: usize = 0;
        while pos < sorted.len() && sorted[pos] < x
            invariant
                pos <= sorted@.len(),
                forall|k: int| 0 <= k < pos ==> (#[trigger] sorted@[k]) < x,
            decreases sorted@.len() - pos,
        {
            pos = pos + 1;
        }
        proof {
            assert forall|k: int| 0 <= k < sorted@.len() implies (#[trigger] sorted@[k]) != x by {
                sorted@.to_multiset_ensures();
                v@.take(i as int).to_multiset_ensures();
                assert(sorted@.contains(sorted@[k]));
                assert(sorted@.to_multiset().count(sorted@[k]) > 0);
                assert(v@.take(i as int).to_multiset().count(sorted@[k]) > 0);
                assert(v@.take(i as int).contains(sorted@[k]));
                let q = choose|q: int| 0 <= q < i && v@.take(i as int)[q] == sorted@[k];
                assert(v@[q] == sorted@[k]);
            }
            lemma_insert_multiset_usize(sorted@, pos as int, x);
            assert(v@.take(i + 1) =~= v@.take(i as int).push(x));
        }
        let ghost before = sorted@;
        sorted.insert(pos, x);
        proof {
            assert(sorted@ == before.insert(pos as int, x));
            v@.take(i as int).to_multiset_ensures();
            assert(v@.take(i as int).push(x).to_multiset() =~= v@.take(i as int).to_multiset().insert(x));
            assert forall|a: int, b: int| 0 <= a < b < sorted@.len() implies (#[trigger] sorted@[a])
                < (#[trigger] sorted@[b]) by {
                if b < pos {
                    assert(sorted@[a] == before[a] && sorted@[b] == before[b]);
                } else if b == pos {
                    assert(sorted@[a] == before[a]);
                } else if a < pos {
                    assert(sorted@[a] == before[a] && sorted@[b] == before[b - 1]);
                    assert(before[pos as int] >= x);
                } else if a == pos {
                    assert(sorted@[b] == before[b - 1]);
                    assert(before[pos as int] >= x);
                    assert(before[pos as int] != x);
                    if b - 1 > pos {
                        assert(before[pos as int] < before[b - 1]);
                    }
                } else {
                    assert(sorted@[a] == before[a - 1] && sorted@[b] == before[b - 1]);
                }
            }
        }
        i = i + 1;
    }
    assert(v@.take(v@.len() as int) =~= v@);
    sorted
}


/// `g` is `f` with the literals inside each clause possibly reordered.
pub open spec fn reordered_clauses(f: Seq<Seq<(usize, bool)>>, g: Seq<Seq<(usize, bool)>>) -> bool {
    &&& f.len() == g.len()
    &&& forall|q: int| 0 <= q < f.len() ==> (#[trigger] g[q]).to_multiset() == f[q].to_multiset()
}

/// Law: reordering literals inside clauses changes neither which assignments satisfy
/// them nor which switches they name.
pub proof fn lemma_reordered_clauses(f: Seq<Seq<(usize, bool)>>, g: Seq<Seq<(usize, bool)>>, x: Seq<bool>, n: nat)
    requires
        reordered_clauses(f, g),
    ensures
        formula_holds(f, x) == formula_holds(g, x),
        vars_below(f, n) ==> vars_below(g, n),
{
    if formula_holds(f, x) {
        assert forall|q: int| 0 <= q < g.len() implies clause_holds(#[trigger] g[q], x) by {
            crate::cnf::lemma_same_literals_same_truth(f[q], g[q], x);
        }
    }
    if formula_holds(g, x) {
        assert forall|q: int| 0 <= q < f.len() implies clause_holds(#[trigger] f[q], x) by {
            crate::cnf::lemma_same_literals_same_truth(f[q], g[q], x);
        }
    }
    if vars_below(f, n) {
        assert forall|q: int| 0 <= q < g.len() implies clause_vars_below(#[trigger] g[q], n) by {
            assert forall|j: int| 0 <= j < g[q].len() implies (#[trigger] g[q][j]).0 < n by {
                g[q].to_multiset_ensures();
                f[q].to_multiset_ensures();
                assert(g[q].contains(g[q][j]));
                assert(g[q].to_multiset().count(g[q][j]) > 0);
                assert(f[q].contains(g[q][j]));
                let k = choose|k: int| 0 <= k < f[q].len() && f[q][k] == g[q][j];
                assert(clause_vars_below(f[q], n));
            }
        }
    }
}

/// Like `push_parity_clauses`, but each clause has its literals ordered by switch.
pub fn push_parity_clauses_sorted(clauses: &mut Vec<Clause>, selected: &Vec<usize>, xor_sum: bool)
    requires
        selected@.len() < usize::BITS,
        selected@.no_duplicates(),
    ensures
        old(clauses)@.len() <= final(clauses)@.len(),
        cnf_view(final(clauses)@).take(old(clauses)@.len() as int) == cnf_view(old(clauses)@),
        reordered_clauses(parity_clauses(selected@, xor_sum), cnf_view(final(clauses)@).skip(old(clauses)@.len() as int)),
        forall|q: int| old(clauses)@.len() <= q < final(clauses)@.len() ==> crate::cnf::vars_increasing(#[trigger] cnf_view(final(clauses)@)[q]),
{
    let ghost before = cnf_view(clauses@);
    let ghost start = clauses@.len();
    let k = selected.len();
    proof {
        vstd::bits::lemma_usize_pow2_no_overflow(k as nat);
        vstd::bits::lemma_usize_shl_is_mul(1, k);
    }
    let max_mask: usize = 1usize << k;
    let mut mask: usize = 0;
    while mask < max_mask
        invariant
            mask <= max_mask,
            max_mask == pow2(k as nat),
            k == selected@.len(),
            k < usize::BITS,
            selected@.no_duplicates(),
            start <= clauses@.len(),
            cnf_view(clauses@).take(start as int) == before,
            reordered_clauses(parity_clauses_upto(selected@, xor_sum, mask as nat), cnf_view(clauses@).skip(start as int)),
            forall|q: int| start <= q < clauses@.len() ==> crate::cnf::vars_increasing(#[trigger] cnf_view(clauses@)[q]),
        decreases max_mask - mask,
    {
        let parity = mask_parity(mask, k);
        let ghost prev = parity_clauses_upto(selected@, xor_sum, mask as nat);
        assert(parity_clauses_upto(selected@, xor_sum, (mask + 1) as nat) == if bits_parity(
            mask as nat,
            k as nat,
        ) != xor_sum {
            prev.push(parity_clause(selected@, mask as nat))
        } else {
            prev
        });
        let ghost mid = cnf_view(clauses@);
        if parity != xor_sum {
            let clause = parity_clause_for(selected, mask);
            assert(crate::cnf::distinct_vars(clause.literals@)) by {
                assert forall|a: int, b: int| 0 <= a < b < clause.literals@.len() implies (#[trigger] clause.literals@[a]).0
                    != (#[trigger] clause.literals@[b]).0 by {
                    assert(clause.literals@[a].0 == selected@[a]);
                    assert(clause.literals@[b].0 == selected@[b]);
                }
            }
            let sorted = crate::cnf::sort_literals(&clause.literals);
            let ghost lits = sorted@;
            clauses.push(Clause { literals: sorted });
            proof {
                assert(cnf_view(clauses@) =~= mid.push(lits));
                assert(cnf_view(clauses@).take(start as int) =~= mid.take(start as int));
                assert(cnf_view(clauses@).skip(start as int) =~= mid.skip(start as int).push(lits));
                let g = cnf_view(clauses@).skip(start as int);
                let f = parity_clauses_upto(selected@, xor_sum, (mask + 1) as nat);
                assert forall|q: int| 0 <= q < f.len() implies (#[trigger] g[q]).to_multiset() == f[q].to_multiset() by {
                    if q < prev.len() {
                        assert(g[q] == mid.skip(start as int)[q]);
                    }
                }
            }
        }
        proof {
            if parity == xor_sum {
                assert(cnf_view(clauses@) == mid);
            }
        }
        mask = mask + 1;
    }
    assert(parity_clauses(selected@, xor_sum) == parity_clauses_upto(selected@, xor_sum, max_mask as nat));
}

} // verus!
