//! Exact model counting by backtracking with pruning, and the brute-force
//! satisfiability test over bit masks.

use vstd::prelude::*;
use vstd::arithmetic::power2::{pow2, lemma_pow2_pos, lemma_pow2_unfold};
use vstd::arithmetic::div_mod::lemma_div_denominator;
use vstd::bits::{lemma_usize_shr_is_div, lemma_usize_shl_is_mul};
use crate::cnf::{
    Clause, lit_holds, clause_holds, formula_holds, clause_vars_below, vars_below, cnf_view,
};

verus! {

/// Number of assignments of length `n` that start with `prefix` and satisfy `f`.
pub open spec fn count_extensions(n: nat, f: Seq<Seq<(usize, bool)>>, prefix: Seq<bool>) -> nat
    decreases n - prefix.len(),
{
    if prefix.len() >= n {
        if formula_holds(f, prefix) {
            1
        } else {
            0
        }
    } else {
        count_extensions(n, f, prefix.push(true)) + count_extensions(n, f, prefix.push(false))
    }
}

/// Number of assignments of `n` switches that satisfy `f`.
pub open spec fn model_count(n: nat, f: Seq<Seq<(usize, bool)>>) -> nat {
    count_extensions(n, f, Seq::empty())
}

/// Some assignment of `n` switches satisfies `f`.
pub open spec fn satisfiable(n: nat, f: Seq<Seq<(usize, bool)>>) -> bool {
    exists|a: Seq<bool>| a.len() == n && #[trigger] formula_holds(f, a)
}

/// Every literal of clause `c` names a switch already set in `prefix`, to the other value.
pub open spec fn falsified_by(c: Seq<(usize, bool)>, prefix: Seq<bool>) -> bool {
    forall|j: int|
        0 <= j < c.len() ==> (#[trigger] c[j]).0 < prefix.len() && prefix[c[j].0 as int] != c[j].1
}

/// A clause that a partial assignment already falsifies leaves no model below it.
proof fn lemma_falsified_prunes(n: nat, f: Seq<Seq<(usize, bool)>>, prefix: Seq<bool>, i: int)
    requires
        0 <= i < f.len(),
        falsified_by(f[i], prefix),
        prefix.len() <= n,
    ensures
        count_extensions(n, f, prefix) == 0,
    decreases n - prefix.len(),
{
    if prefix.len() >= n {
        assert(!clause_holds(f[i], prefix));
    } else {
        assert(falsified_by(f[i], prefix.push(true)));
        assert(falsified_by(f[i], prefix.push(false)));
        lemma_falsified_prunes(n, f, prefix.push(true), i);
        lemma_falsified_prunes(n, f, prefix.push(false), i);
    }
}

/// The count below a prefix is positive exactly when some full assignment
/// extending the prefix satisfies the clauses.
proof fn lemma_count_positive(n: nat, f: Seq<Seq<(usize, bool)>>, prefix: Seq<bool>)
    requires
        prefix.len() <= n,
    ensures
        (count_extensions(n, f, prefix) > 0) <==> exists|a: Seq<bool>|
            a.len() == n && a.subrange(0, prefix.len() as int) == prefix
                && #[trigger] formula_holds(f, a),
    decreases n - prefix.len(),
{
    if prefix.len() >= n {
        assert(prefix.subrange(0, prefix.len() as int) =~= prefix);
        if exists|a: Seq<bool>|
            a.len() == n && a.subrange(0, prefix.len() as int) == prefix
                && #[trigger] formula_holds(f, a) {
            let a = choose|a: Seq<bool>|
                a.len() == n && a.subrange(0, prefix.len() as int) == prefix
                    && #[trigger] formula_holds(f, a);
            assert(a =~= prefix);
        }
    } else {
        let pt = prefix.push(true);
        let pf = prefix.push(false);
        lemma_count_positive(n, f, pt);
        lemma_count_positive(n, f, pf);
        if count_extensions(n, f, prefix) > 0 {
            if count_extensions(n, f, pt) > 0 {
                let a = choose|a: Seq<bool>|
                    a.len() == n && a.subrange(0, pt.len() as int) == pt
                        && #[trigger] formula_holds(f, a);
                assert(a.subrange(0, prefix.len() as int) =~= pt.subrange(0, prefix.len() as int));
                assert(pt.subrange(0, prefix.len() as int) =~= prefix);
            } else {
                let a = choose|a: Seq<bool>|
                    a.len() == n && a.subrange(0, pf.len() as int) == pf
                        && #[trigger] formula_holds(f, a);
                assert(a.subrange(0, prefix.len() as int) =~= pf.subrange(0, prefix.len() as int));
                assert(pf.subrange(0, prefix.len() as int) =~= prefix);
            }
        }
        if exists|a: Seq<bool>|
            a.len() == n && a.subrange(0, prefix.len() as int) == prefix
                && #[trigger] formula_holds(f, a) {
            let a = choose|a: Seq<bool>|
                a.len() == n && a.subrange(0, prefix.len() as int) == prefix
                    && #[trigger] formula_holds(f, a);
            let next = a[prefix.len() as int];
            assert(a.subrange(0, prefix.len() + 1int) =~= prefix.push(next));
            if next {
                assert(a.subrange(0, pt.len() as int) == pt);
            } else {
                assert(a.subrange(0, pf.len() as int) == pf);
            }
        }
    }
}

/// Law: there is a model exactly when the model count is positive.
pub proof fn lemma_model_count_positive_iff_satisfiable(n: nat, f: Seq<Seq<(usize, bool)>>)
    ensures
        (model_count(n, f) > 0) <==> satisfiable(n, f),
{
    lemma_count_positive(n, f, Seq::empty());
    if satisfiable(n, f) {
        let a = choose|a: Seq<bool>| a.len() == n && #[trigger] formula_holds(f, a);
        assert(a.subrange(0, 0) =~= Seq::<bool>::empty());
    }
}

/// Law: below a prefix there are at most `2^(n - len)` models, so at most `2^n` in all.
pub proof fn lemma_count_bound(n: nat, f: Seq<Seq<(usize, bool)>>, prefix: Seq<bool>)
    requires
        prefix.len() <= n,
    ensures
        count_extensions(n, f, prefix) <= pow2((n - prefix.len()) as nat),
    decreases n - prefix.len(),
{
    if prefix.len() >= n {
        vstd::arithmetic::power2::lemma2_to64();
    } else {
        lemma_count_bound(n, f, prefix.push(true));
        lemma_count_bound(n, f, prefix.push(false));
        lemma_pow2_unfold((n - prefix.len()) as nat);
    }
}

/// Law: with no clauses every assignment is a model, so below a prefix there are
/// exactly `2^(n - len)` of them.
pub proof fn lemma_count_no_clauses(n: nat, prefix: Seq<bool>)
    requires
        prefix.len() <= n,
    ensures
        count_extensions(n, Seq::empty(), prefix) == pow2((n - prefix.len()) as nat),
    decreases n - prefix.len(),
{
    if prefix.len() >= n {
        vstd::arithmetic::power2::lemma2_to64();
        assert(formula_holds(Seq::empty(), prefix));
    } else {
        lemma_count_no_clauses(n, prefix.push(true));
        lemma_count_no_clauses(n, prefix.push(false));
        lemma_pow2_unfold((n - prefix.len()) as nat);
    }
}

/// When every model of `f` among the assignments of `n` switches is a model of `g`, `f`
/// has no more models than `g` below any prefix.
pub proof fn lemma_count_implied(n: nat, f: Seq<Seq<(usize, bool)>>, g: Seq<Seq<(usize, bool)>>, prefix: Seq<bool>)
    requires
        prefix.len() <= n,
        forall|a: Seq<bool>| a.len() == n && #[trigger] formula_holds(f, a) ==> formula_holds(g, a),
    ensures
        count_extensions(n, f, prefix) <= count_extensions(n, g, prefix),
    decreases n - prefix.len(),
{
    if prefix.len() < n {
        lemma_count_implied(n, f, g, prefix.push(true));
        lemma_count_implied(n, f, g, prefix.push(false));
    } else {
        if formula_holds(f, prefix) {
            assert(formula_holds(g, prefix));
        }
    }
}

/// Formulas that name the same clauses hold under the same assignments.
proof fn lemma_same_clauses_hold_alike(f: Seq<Seq<(usize, bool)>>, g: Seq<Seq<(usize, bool)>>, a: Seq<bool>)
    requires
        forall|c: Seq<(usize, bool)>| f.contains(c) ==> g.contains(c),
    ensures
        formula_holds(g, a) ==> formula_holds(f, a),
{
    if formula_holds(g, a) {
        assert forall|i: int| 0 <= i < f.len() implies clause_holds(#[trigger] f[i], a) by {
            assert(f.contains(f[i]));
            let j = choose|j: int| 0 <= j < g.len() && g[j] == f[i];
            assert(clause_holds(g[j], a));
        }
    }
}

/// Law: formulas that name the same clauses, in any order and any number of times, have
/// the same models and so the same model count.
pub proof fn lemma_model_count_same_clauses(n: nat, f: Seq<Seq<(usize, bool)>>, g: Seq<Seq<(usize, bool)>>)
    requires
        forall|c: Seq<(usize, bool)>| f.contains(c) <==> g.contains(c),
    ensures
        model_count(n, f) == model_count(n, g),
{
    assert forall|a: Seq<bool>| a.len() == n && #[trigger] formula_holds(f, a) implies formula_holds(g, a) by {
        lemma_same_clauses_hold_alike(g, f, a);
    }
    assert forall|a: Seq<bool>| a.len() == n && #[trigger] formula_holds(g, a) implies formula_holds(f, a) by {
        lemma_same_clauses_hold_alike(f, g, a);
    }
    lemma_count_implied(n, f, g, Seq::empty());
    lemma_count_implied(n, g, f, Seq::empty());
}

/// Law: a permutation of the clauses keeps the model count.
pub proof fn lemma_model_count_permuted(n: nat, f: Seq<Seq<(usize, bool)>>, g: Seq<Seq<(usize, bool)>>)
    requires
        f.to_multiset() == g.to_multiset(),
    ensures
        model_count(n, f) == model_count(n, g),
{
    assert forall|c: Seq<(usize, bool)>| f.contains(c) <==> g.contains(c) by {
        vstd::seq_lib::to_multiset_contains(f, c);
        vstd::seq_lib::to_multiset_contains(g, c);
    }
    lemma_model_count_same_clauses(n, f, g);
}

/// Law: repeating the clauses keeps the model count.
pub proof fn lemma_model_count_doubled(n: nat, f: Seq<Seq<(usize, bool)>>)
    ensures
        model_count(n, f + f) == model_count(n, f),
{
    assert forall|c: Seq<(usize, bool)>| (f + f).contains(c) <==> f.contains(c) by {
        if (f + f).contains(c) {
            let j = choose|j: int| 0 <= j < (f + f).len() && (f + f)[j] == c;
            if j < f.len() {
                assert(f[j] == c);
            } else {
                assert(f[j - f.len()] == c);
            }
        }
        if f.contains(c) {
            let j = choose|j: int| 0 <= j < f.len() && f[j] == c;
            assert((f + f)[j] == c);
        }
    }
    lemma_model_count_same_clauses(n, f + f, f);
}

/// Law: appending clauses never adds models.
pub proof fn lemma_model_count_append(n: nat, f: Seq<Seq<(usize, bool)>>, g: Seq<Seq<(usize, bool)>>)
    ensures
        model_count(n, f + g) <= model_count(n, f),
{
    assert forall|c: Seq<(usize, bool)>| f.contains(c) implies (f + g).contains(c) by {
        let j = choose|j: int| 0 <= j < f.len() && f[j] == c;
        assert((f + g)[j] == c);
    }
    assert forall|a: Seq<bool>| a.len() == n && #[trigger] formula_holds(f + g, a) implies formula_holds(f, a) by {
        lemma_same_clauses_hold_alike(f, f + g, a);
    }
    lemma_count_implied(n, f + g, f, Seq::empty());
}

/// With fewer switches than a machine word has bits, the model count fits in a word.
pub proof fn lemma_model_count_fits(n: usize, f: Seq<Seq<(usize, bool)>>)
    requires
        n < usize::BITS,
    ensures
        model_count(n as nat, f) <= usize::MAX,
{
    lemma_count_bound(n as nat, f, Seq::empty());
    vstd::bits::lemma_usize_pow2_no_overflow(n as nat);
}

/// The values that the first `k` entries of a partial assignment hold.
pub open spec fn assigned_prefix(assignment: Seq<Option<bool>>, k: nat) -> Seq<bool> {
    Seq::new(k, |j: int| assignment[j]->0)
}

/// Exactly the first `k` of the `n` entries are set.
pub open spec fn set_below(assignment: Seq<Option<bool>>, k: nat) -> bool {
    forall|j: int| 0 <= j < assignment.len() ==> ((#[trigger] assignment[j]) is Some <==> j < k)
}

/// Looks at one clause under a partial assignment whose first `var_idx` entries are set:
/// whether a set literal already holds, and whether some literal is still unset.
fn clause_status(clause: &Clause, assignment: &Vec<Option<bool>>, var_idx: usize) -> (res: (
    bool,
    bool,
))
    requires
        clause_vars_below(clause.literals@, assignment@.len()),
        set_below(assignment@, var_idx as nat),
        var_idx <= assignment@.len(),
    ensures
        res.0 == exists|j: int|
            0 <= j < clause.literals@.len() && (#[trigger] clause.literals@[j]).0 < var_idx
                && lit_holds(assigned_prefix(assignment@, var_idx as nat), clause.literals@[j]),
        !res.0 ==> (res.1 <==> exists|j: int|
            0 <= j < clause.literals@.len() && (#[trigger] clause.literals@[j]).0 >= var_idx),
{
    let ghost p = assigned_prefix(assignment@, var_idx as nat);
    let lits = &clause.literals;
    let mut is_unresolved = false;
    let mut j: usize = 0;
    while j < lits.len()
        invariant
            j <= lits@.len(),
            lits@ == clause.literals@,
            clause_vars_below(lits@, assignment@.len()),
            set_below(assignment@, var_idx as nat),
            p == assigned_prefix(assignment@, var_idx as nat),
            forall|k: int|
                0 <= k < j ==> !((#[trigger] lits@[k]).0 < var_idx && lit_holds(p, lits@[k])),
            is_unresolved == exists|k: int| 0 <= k < j && (#[trigger] lits@[k]).0 >= var_idx,
        decreases lits@.len() - j,
    {
        let (v, required_sign) = lits[j];
        assert(assignment@[v as int] is Some <==> v < var_idx);
        match assignment[v] {
            Some(val) => {
                if val == required_sign {
                    assert(lits@[j as int].0 < var_idx && lit_holds(p, lits@[j as int]));
                    return (true, is_unresolved);
                }
            },
            None => {
                is_unresolved = true;
            },
        }
        j = j + 1;
    }
    (false, is_unresolved)
}

/// Whether the branch below the values set in the first `var_idx` entries of
/// `assignment` can still hold a model: `false` when some clause is already false
/// there. When every switch is set, `true` means the assignment is a model.
fn branch_alive(var_idx: usize, n: usize, assignment: &Vec<Option<bool>>, clauses: &[Clause]) -> (alive: bool)
    requires
        var_idx <= n,
        assignment@.len() == n,
        set_below(assignment@, var_idx as nat),
        vars_below(cnf_view(clauses@), n as nat),
    ensures
        !alive ==> count_extensions(n as nat, cnf_view(clauses@), assigned_prefix(assignment@, var_idx as nat)) == 0,
        alive && var_idx == n ==> count_extensions(n as nat, cnf_view(clauses@), assigned_prefix(assignment@, var_idx as nat)) == 1,
{
    let ghost f = cnf_view(clauses@);
    let ghost p = assigned_prefix(assignment@, var_idx as nat);
    let mut i: usize = 0;
    while i < clauses.len()
        invariant
            i <= clauses@.len(),
            f == cnf_view(clauses@),
            vars_below(f, n as nat),
            assignment@.len() == n,
            var_idx <= n,
            set_below(assignment@, var_idx as nat),
            p == assigned_prefix(assignment@, var_idx as nat),
            p.len() == var_idx,
            forall|k: int|
                0 <= k < i ==> (clause_holds(#[trigger] f[k], p) || exists|j: int|
                    0 <= j < f[k].len() && (#[trigger] f[k][j]).0 >= var_idx),
        decreases clauses@.len() - i,
    {
        assert(f[i as int] == clauses@[i as int].literals@);
        assert(clause_vars_below(f[i as int], n as nat));
        let (is_sat, is_unresolved) = clause_status(&clauses[i], assignment, var_idx);
        if !is_sat && !is_unresolved {
            proof {
                let c = f[i as int];
                assert forall|j: int| 0 <= j < c.len() implies (#[trigger] c[j]).0 < p.len()
                    && p[c[j].0 as int] != c[j].1 by {
                    assert(c[j] == clauses@[i as int].literals@[j]);
                }
                lemma_falsified_prunes(n as nat, f, p, i as int);
            }
            return false;
        }
        proof {
            if is_sat {
                let j = choose|j: int|
                    0 <= j < clauses@[i as int].literals@.len() && (#[trigger] clauses@[
                        i as int
                    ].literals@[j]).0 < var_idx && lit_holds(p, clauses@[i as int].literals@[j]);
                assert(lit_holds(p, f[i as int][j]));
                assert(clause_holds(f[i as int], p));
            } else {
                let j = choose|j: int|
                    0 <= j < clauses@[i as int].literals@.len() && (#[trigger] clauses@[
                        i as int
                    ].literals@[j]).0 >= var_idx;
                assert(f[i as int][j].0 >= var_idx);
            }
        }
        i = i + 1;
    }
    proof {
        if var_idx == n {
            assert forall|k: int| 0 <= k < f.len() implies clause_holds(#[trigger] f[k], p) by {
                if !clause_holds(f[k], p) {
                    let j = choose|j: int| 0 <= j < f[k].len() && (#[trigger] f[k][j]).0 >= var_idx;
                    assert(clause_vars_below(f[k], n as nat));
                }
            }
        }
    }
    true
}

/// Counts the models of `clauses` over `n` switches that extend the values already set
/// in the first `var_idx` entries of `assignment`, cutting off every branch in which some
/// clause is already false. The assignment is handed back as it came.
pub fn backtrack_count(
    var_idx: usize,
    n: usize,
    assignment: &mut Vec<Option<bool>>,
    clauses: &[Clause],
) -> (total: usize)
    requires
        var_idx <= n,
        old(assignment)@.len() == n,
        set_below(old(assignment)@, var_idx as nat),
        vars_below(cnf_view(clauses@), n as nat),
        count_extensions(
            n as nat,
            cnf_view(clauses@),
            assigned_prefix(old(assignment)@, var_idx as nat),
        ) <= usize::MAX,
    ensures
        total == count_extensions(
            n as nat,
            cnf_view(clauses@),
            assigned_prefix(old(assignment)@, var_idx as nat),
        ),
        final(assignment)@ == old(assignment)@,
    decreases n - var_idx,
{
    let ghost p = assigned_prefix(assignment@, var_idx as nat);
    if !branch_alive(var_idx, n, assignment, clauses) {
        return 0;
    }
    if var_idx == n {
        return 1;
    }
    let ghost orig = assignment@;
    assignment.set(var_idx, Some(true));
    assert(assigned_prefix(assignment@, (var_idx + 1) as nat) =~= p.push(true));
    let with_true = backtrack_count(var_idx + 1, n, assignment, clauses);
    assignment.set(var_idx, Some(false));
    assert(assigned_prefix(assignment@, (var_idx + 1) as nat) =~= p.push(false));
    let with_false = backtrack_count(var_idx + 1, n, assignment, clauses);
    assignment.set(var_idx, None);
    assert(assignment@ =~= orig);
    with_true + with_false
}

/// The same count with its overflow checked: `None` exactly when the count does not fit
/// in a `usize`. The assignment is handed back as it came.
pub fn backtrack_count_checked(
    var_idx: usize,
    n: usize,
    assignment: &mut Vec<Option<bool>>,
    clauses: &[Clause],
) -> (total: Option<usize>)
    requires
        var_idx <= n,
        old(assignment)@.len() == n,
        set_below(old(assignment)@, var_idx as nat),
        vars_below(cnf_view(clauses@), n as nat),
    ensures
        total == if count_extensions(n as nat, cnf_view(clauses@), assigned_prefix(old(assignment)@, var_idx as nat))
            <= usize::MAX {
            Some(count_extensions(n as nat, cnf_view(clauses@), assigned_prefix(old(assignment)@, var_idx as nat)) as usize)
        } else {
            None::<usize>
        },
        final(assignment)@ == old(assignment)@,
    decreases n - var_idx,
{
    let ghost p = assigned_prefix(assignment@, var_idx as nat);
    if !branch_alive(var_idx, n, assignment, clauses) {
        return Some(0);
    }
    if var_idx == n {
        return Some(1);
    }
    let ghost orig = assignment@;
    assignment.set(var_idx, Some(true));
    assert(assigned_prefix(assignment@, (var_idx + 1) as nat) =~= p.push(true));
    let with_true = backtrack_count_checked(var_idx + 1, n, assignment, clauses);
    let t = match with_true {
        Some(t) => t,
        None => {
            assignment.set(var_idx, None);
            assert(assignment@ =~= orig);
            return None;
        },
    };
    assignment.set(var_idx, Some(false));
    assert(assigned_prefix(assignment@, (var_idx + 1) as nat) =~= p.push(false));
    let with_false = backtrack_count_checked(var_idx + 1, n, assignment, clauses);
    assignment.set(var_idx, None);
    assert(assignment@ =~= orig);
    match with_false {
        Some(u) => t.checked_add(u),
        None => None,
    }
}

/// Counts the assignments of `n` switches under which every clause holds.
pub fn count_solutions(n: usize, clauses: &Vec<Clause>) -> (count: usize)
    requires
        vars_below(cnf_view(clauses@), n as nat),
        model_count(n as nat, cnf_view(clauses@)) <= usize::MAX,
    ensures
        count == model_count(n as nat, cnf_view(clauses@)),
{
    let mut assignment: Vec<Option<bool>> = Vec::new();
    let mut k: usize = 0;
    while k < n
        invariant
            k <= n,
            assignment@.len() == k,
            forall|j: int| 0 <= j < k ==> (#[trigger] assignment@[j]) is None,
        decreases n - k,
    {
        assignment.push(None);
        k = k + 1;
    }
    assert(assigned_prefix(assignment@, 0) =~= Seq::<bool>::empty());
    backtrack_count(0, n, &mut assignment, clauses.as_slice())
}

/// Counts the assignments of `n` switches under which every clause holds; `None`
/// exactly when there are more than a `usize` can hold.
pub fn count_solutions_checked(n: usize, clauses: &Vec<Clause>) -> (count: Option<usize>)
    requires
        vars_below(cnf_view(clauses@), n as nat),
    ensures
        count == if model_count(n as nat, cnf_view(clauses@)) <= usize::MAX {
            Some(model_count(n as nat, cnf_view(clauses@)) as usize)
        } else {
            None::<usize>
        },
{
    let mut assignment: Vec<Option<bool>> = Vec::new();
    let mut k: usize = 0;
    while k < n
        invariant
            k <= n,
            assignment@.len() == k,
            forall|j: int| 0 <= j < k ==> (#[trigger] assignment@[j]) is None,
        decreases n - k,
    {
        assignment.push(None);
        k = k + 1;
    }
    assert(assigned_prefix(assignment@, 0) =~= Seq::<bool>::empty());
    backtrack_count_checked(0, n, &mut assignment, clauses.as_slice())
}


/// Bit `v` of the number `m`.
pub open spec fn bit_of(m: nat, v: nat) -> bool {
    (m / pow2(v)) % 2 == 1
}

/// The assignment of `n` switches read off the low bits of `m`.
pub open spec fn mask_assignment(m: nat, n: nat) -> Seq<bool> {
    Seq::new(n, |i: int| bit_of(m, i as nat))
}

/// Some literal of `c` holds when each switch `v` takes bit `v` of `m`.
pub open spec fn mask_clause_holds(c: Seq<(usize, bool)>, m: nat) -> bool {
    exists|j: int| 0 <= j < c.len() && bit_of(m, (#[trigger] c[j]).0 as nat) == c[j].1
}

/// Every clause of `f` holds when each switch `v` takes bit `v` of `m`.
pub open spec fn mask_formula_holds(f: Seq<Seq<(usize, bool)>>, m: nat) -> bool {
    forall|i: int| 0 <= i < f.len() ==> mask_clause_holds(#[trigger] f[i], m)
}

/// Some mask below `2^n` satisfies `f` when read bit by bit.
pub open spec fn mask_satisfiable(n: nat, f: Seq<Seq<(usize, bool)>>) -> bool {
    exists|m: nat| m < pow2(n) && #[trigger] mask_formula_holds(f, m)
}

/// The number whose bit `i` is entry `i` of `a`.
pub open spec fn mask_of(a: Seq<bool>) -> nat
    decreases a.len(),
{
    if a.len() == 0 {
        0
    } else {
        (if a[0] {
            1nat
        } else {
            0nat
        }) + 2 * mask_of(a.drop_first())
    }
}

/// Every assignment is the bit pattern of a number below `2^len`.
pub proof fn lemma_mask_of(a: Seq<bool>)
    ensures
        mask_of(a) < pow2(a.len()),
        mask_assignment(mask_of(a), a.len()) == a,
    decreases a.len(),
{
    if a.len() == 0 {
        assert(pow2(0) == 1) by {
            lemma_pow2_pos(0);
            vstd::arithmetic::power2::lemma2_to64();
        }
        assert(mask_assignment(0, 0) =~= a);
    } else {
        let t = a.drop_first();
        let m = mask_of(a);
        let mt = mask_of(t);
        lemma_mask_of(t);
        lemma_pow2_unfold(a.len());
        assert forall|i: int| 0 <= i < a.len() implies #[trigger] bit_of(m, i as nat) == a[i] by {
            if i == 0 {
                assert(pow2(0) == 1) by {
                    vstd::arithmetic::power2::lemma2_to64();
                }
                assert(m / 1 == m);
            } else {
                lemma_pow2_unfold(i as nat);
                lemma_pow2_pos((i - 1) as nat);
                lemma_div_denominator(m as int, 2, pow2((i - 1) as nat) as int);
                assert(m / 2 == mt);
                assert(bit_of(mt, (i - 1) as nat) == t[i - 1]);
            }
        }
        assert(mask_assignment(m, a.len()) =~= a);
    }
}

/// Reading a mask bit by bit agrees with reading its assignment of `n` switches.
proof fn lemma_mask_holds_iff(f: Seq<Seq<(usize, bool)>>, n: nat, m: nat)
    requires
        vars_below(f, n),
    ensures
        mask_formula_holds(f, m) == formula_holds(f, mask_assignment(m, n)),
{
    let a = mask_assignment(m, n);
    assert forall|i: int| 0 <= i < f.len() implies mask_clause_holds(#[trigger] f[i], m)
        == clause_holds(f[i], a) by {
        assert(clause_vars_below(f[i], n));
        if mask_clause_holds(f[i], m) {
            let j = choose|j: int|
                0 <= j < f[i].len() && bit_of(m, (#[trigger] f[i][j]).0 as nat) == f[i][j].1;
            assert(lit_holds(a, f[i][j]));
        }
        if clause_holds(f[i], a) {
            let j = choose|j: int| 0 <= j < f[i].len() && lit_holds(a, #[trigger] f[i][j]);
            assert(bit_of(m, f[i][j].0 as nat) == f[i][j].1);
        }
    }
}

/// Law: when every literal names one of the `n` switches, some mask below `2^n`
/// satisfies the clauses exactly when their model count is positive.
pub proof fn lemma_mask_search_agrees_with_count(n: nat, f: Seq<Seq<(usize, bool)>>)
    requires
        vars_below(f, n),
    ensures
        mask_satisfiable(n, f) == (model_count(n, f) > 0),
        mask_satisfiable(n, f) == satisfiable(n, f),
{
    lemma_model_count_positive_iff_satisfiable(n, f);
    if mask_satisfiable(n, f) {
        let m = choose|m: nat| m < pow2(n) && #[trigger] mask_formula_holds(f, m);
        lemma_mask_holds_iff(f, n, m);
        assert(formula_holds(f, mask_assignment(m, n)));
    }
    if satisfiable(n, f) {
        let a = choose|a: Seq<bool>| a.len() == n && #[trigger] formula_holds(f, a);
        lemma_mask_of(a);
        lemma_mask_holds_iff(f, n, mask_of(a));
        assert(mask_formula_holds(f, mask_of(a)));
    }
}

/// Bit `v` of a machine word, as the shift-and-mask test computes it.
pub(crate) fn bit_is_set(mask: usize, v: usize) -> (b: bool)
    requires
        v < usize::BITS,
    ensures
        b == bit_of(mask as nat, v as nat),
{
    proof {
        lemma_usize_shr_is_div(mask, v);
    }
    let shifted = mask >> v;
    assert(shifted & 1 == shifted % 2) by (bit_vector);
    (shifted & 1) == 1
}

/// Decides whether some literal of `lits` holds when each switch takes its bit of `mask`.
fn clause_holds_for_mask(lits: &Vec<(usize, bool)>, mask: usize) -> (sat: bool)
    requires
        clause_vars_below(lits@, usize::BITS as nat),
    ensures
        sat == mask_clause_holds(lits@, mask as nat),
{
    let mut j: usize = 0;
    while j < lits.len()
        invariant
            j <= lits@.len(),
            clause_vars_below(lits@, usize::BITS as nat),
            forall|k: int|
                0 <= k < j ==> bit_of(mask as nat, (#[trigger] lits@[k]).0 as nat) != lits@[k].1,
        decreases lits@.len() - j,
    {
        let (v_idx, required_sign) = lits[j];
        if bit_is_set(mask, v_idx) == required_sign {
            return true;
        }
        j = j + 1;
    }
    false
}

/// Decides whether every clause holds when each switch takes its bit of `mask`.
fn all_hold_for_mask(clauses: &Vec<Clause>, mask: usize) -> (sat: bool)
    requires
        vars_below(cnf_view(clauses@), usize::BITS as nat),
    ensures
        sat == mask_formula_holds(cnf_view(clauses@), mask as nat),
{
    let ghost f = cnf_view(clauses@);
    let mut i: usize = 0;
    while i < clauses.len()
        invariant
            i <= clauses@.len(),
            f == cnf_view(clauses@),
            vars_below(f, usize::BITS as nat),
            forall|k: int| 0 <= k < i ==> mask_clause_holds(#[trigger] f[k], mask as nat),
        decreases clauses@.len() - i,
    {
        assert(clauses@[i as int].literals@ == f[i as int]);
        assert(clause_vars_below(f[i as int], usize::BITS as nat));
        if !clause_holds_for_mask(&clauses[i].literals, mask) {
            return false;
        }
        i = i + 1;
    }
    true
}

/// Tries every mask below `2^n` for a satisfying bit pattern; above 22 switches it
/// answers yes without searching.
pub fn has_solution(n: usize, clauses: &Vec<Clause>) -> (found: bool)
    requires
        n <= 22 ==> vars_below(cnf_view(clauses@), usize::BITS as nat),
    ensures
        n > 22 ==> found,
        n <= 22 ==> found == mask_satisfiable(n as nat, cnf_view(clauses@)),
{
    if n > 22 {
        return true;
    }
    let ghost f = cnf_view(clauses@);
    proof {
        vstd::bits::lemma_usize_pow2_no_overflow(n as nat);
        lemma_usize_shl_is_mul(1, n);
    }
    let max_mask: usize = 1usize << n;
    let mut mask: usize = 0;
    while mask < max_mask
        invariant
            mask <= max_mask,
            max_mask == pow2(n as nat),
            f == cnf_view(clauses@),
            vars_below(f, usize::BITS as nat),
            forall|m: nat| m < mask ==> !#[trigger] mask_formula_holds(f, m),
        decreases max_mask - mask,
    {
        if all_hold_for_mask(clauses, mask) {
            return true;
        }
        mask = mask + 1;
    }
    false
}

} // verus!
