//! Clauses, assignments and what it means for one to satisfy the other.

use vstd::prelude::*;

verus! {

/// A disjunction of literals; a literal `(v, s)` holds when switch `v` has value `s`.
#[derive(Debug, Clone)]
pub struct Clause {
    pub literals: Vec<(usize, bool)>,
}

/// The literal `l` holds under assignment `a`.
pub open spec fn lit_holds(a: Seq<bool>, l: (usize, bool)) -> bool {
    a[l.0 as int] == l.1
}

/// Some literal of clause `c` holds under `a`.
pub open spec fn clause_holds(c: Seq<(usize, bool)>, a: Seq<bool>) -> bool {
    exists|j: int| 0 <= j < c.len() && lit_holds(a, #[trigger] c[j])
}

/// Every clause of `f` holds under `a`.
pub open spec fn formula_holds(f: Seq<Seq<(usize, bool)>>, a: Seq<bool>) -> bool {
    forall|i: int| 0 <= i < f.len() ==> clause_holds(#[trigger] f[i], a)
}

/// Every literal of `c` names a switch below `n`.
pub open spec fn clause_vars_below(c: Seq<(usize, bool)>, n: nat) -> bool {
    forall|j: int| 0 <= j < c.len() ==> (#[trigger] c[j]).0 < n
}

/// Every literal of `f` names a switch below `n`.
pub open spec fn vars_below(f: Seq<Seq<(usize, bool)>>, n: nat) -> bool {
    forall|i: int| 0 <= i < f.len() ==> clause_vars_below(#[trigger] f[i], n)
}

/// The literal lists of a sequence of clauses.
pub open spec fn cnf_view(cs: Seq<Clause>) -> Seq<Seq<(usize, bool)>> {
    Seq::new(cs.len(), |i: int| cs[i].literals@)
}

/// Decides whether `clause` holds under `vars`.
pub fn clause_satisfied(clause: &Clause, vars: &Vec<bool>) -> (sat: bool)
    requires
        clause_vars_below(clause.literals@, vars@.len()),
    ensures
        sat == clause_holds(clause.literals@, vars@),
{
    let lits = &clause.literals;
    let mut j: usize = 0;
    while j < lits.len()
        invariant
            j <= lits@.len(),
            lits@ == clause.literals@,
            clause_vars_below(lits@, vars@.len()),
            forall|k: int| 0 <= k < j ==> !lit_holds(vars@, #[trigger] lits@[k]),
        decreases lits@.len() - j,
    {
        let (v, sign) = lits[j];
        if vars[v] == sign {
            assert(lit_holds(vars@, lits@[j as int]));
            assert(clause_holds(lits@, vars@));
            return true;
        }
        j = j + 1;
    }
    false
}


/// Number of clauses of `f` that fail under `a`.
pub open spec fn unsat_count(f: Seq<Seq<(usize, bool)>>, a: Seq<bool>) -> nat
    decreases f.len(),
{
    if f.len() == 0 {
        0
    } else {
        unsat_count(f.drop_last(), a) + if clause_holds(f.last(), a) {
            0nat
        } else {
            1nat
        }
    }
}

/// Positions of the clauses of `f` that fail under `a`, in increasing order.
pub open spec fn unsat_positions(f: Seq<Seq<(usize, bool)>>, a: Seq<bool>) -> Seq<usize>
    decreases f.len(),
{
    if f.len() == 0 {
        Seq::empty()
    } else if clause_holds(f.last(), a) {
        unsat_positions(f.drop_last(), a)
    } else {
        unsat_positions(f.drop_last(), a).push((f.len() - 1) as usize)
    }
}

/// No clause fails exactly when every clause holds; the list of failing positions
/// is as long as their count, increasing, and names exactly the failing clauses.
pub proof fn lemma_unsat_count(f: Seq<Seq<(usize, bool)>>, a: Seq<bool>)
    requires
        f.len() <= usize::MAX,
    ensures
        (unsat_count(f, a) == 0) <==> formula_holds(f, a),
        unsat_count(f, a) <= f.len(),
        unsat_positions(f, a).len() == unsat_count(f, a),
        forall|k: int|
            0 <= k < unsat_positions(f, a).len() ==> (#[trigger] unsat_positions(f, a)[k]) < f.len()
                && !clause_holds(f[unsat_positions(f, a)[k] as int], a),
        forall|k1: int, k2: int|
            0 <= k1 < k2 < unsat_positions(f, a).len() ==> unsat_positions(f, a)[k1]
                < unsat_positions(f, a)[k2],
        forall|i: int|
            0 <= i < f.len() && !clause_holds(#[trigger] f[i], a) ==> unsat_positions(
                f,
                a,
            ).contains(i as usize),
    decreases f.len(),
{
    if f.len() > 0 {
        let g = f.drop_last();
        lemma_unsat_count(g, a);
        assert forall|i: int| 0 <= i < g.len() implies g[i] == f[i] by {}
        if clause_holds(f.last(), a) {
            assert forall|i: int|
                0 <= i < f.len() && !clause_holds(#[trigger] f[i], a) implies unsat_positions(
                f,
                a,
            ).contains(i as usize) by {
                assert(i < g.len());
                assert(!clause_holds(g[i], a));
            }
        } else {
            let p = unsat_positions(g, a);
            assert forall|i: int|
                0 <= i < f.len() && !clause_holds(#[trigger] f[i], a) implies unsat_positions(
                f,
                a,
            ).contains(i as usize) by {
                if i < g.len() {
                    assert(!clause_holds(g[i], a));
                    let k = choose|k: int| 0 <= k < p.len() && p[k] == i as usize;
                    assert(p.push((f.len() - 1) as usize)[k] == i as usize);
                } else {
                    assert(p.push((f.len() - 1) as usize)[p.len() as int] == i as usize);
                }
            }
            assert(!formula_holds(f, a)) by {
                assert(!clause_holds(f[f.len() - 1], a));
            }
        }
        if unsat_count(f, a) == 0 {
            assert forall|i: int| 0 <= i < f.len() implies clause_holds(#[trigger] f[i], a) by {
                if i < g.len() {
                    assert(clause_holds(g[i], a));
                }
            }
        }
        if formula_holds(f, a) {
            assert forall|i: int| 0 <= i < g.len() implies clause_holds(#[trigger] g[i], a) by {
                assert(clause_holds(f[i], a));
            }
            assert(clause_holds(f[f.len() - 1], a));
        }
    }
}

/// Decides whether every clause holds under `vars`, stopping at the first one that fails.
pub fn formula_satisfied(clauses: &Vec<Clause>, vars: &Vec<bool>) -> (sat: bool)
    requires
        vars_below(cnf_view(clauses@), vars@.len()),
    ensures
        sat == formula_holds(cnf_view(clauses@), vars@),
{
    let ghost f = cnf_view(clauses@);
    let mut i: usize = 0;
    while i < clauses.len()
        invariant
            i <= clauses@.len(),
            f == cnf_view(clauses@),
            vars_below(f, vars@.len()),
            forall|k: int| 0 <= k < i ==> clause_holds(#[trigger] f[k], vars@),
        decreases clauses@.len() - i,
    {
        assert(f[i as int] == clauses@[i as int].literals@);
        assert(clause_vars_below(f[i as int], vars@.len()));
        if !clause_satisfied(&clauses[i], vars) {
            assert(!clause_holds(f[i as int], vars@));
            return false;
        }
        i = i + 1;
    }
    true
}

/// Counts the clauses that fail under `vars`.
pub fn count_unsatisfied(clauses: &Vec<Clause>, vars: &Vec<bool>) -> (count: usize)
    requires
        vars_below(cnf_view(clauses@), vars@.len()),
    ensures
        count == unsat_count(cnf_view(clauses@), vars@),
{
    let ghost f = cnf_view(clauses@);
    let mut i: usize = 0;
    let mut count: usize = 0;
    while i < clauses.len()
        invariant
            i <= clauses@.len(),
            f == cnf_view(clauses@),
            vars_below(f, vars@.len()),
            count == unsat_count(f.take(i as int), vars@),
            count <= i,
        decreases clauses@.len() - i,
    {
        assert(f.take(i + 1).drop_last() =~= f.take(i as int));
        assert(clause_vars_below(f[i as int], vars@.len()));
        if !clause_satisfied(&clauses[i], vars) {
            count = count + 1;
        }
        i = i + 1;
    }
    assert(f.take(clauses@.len() as int) =~= f);
    count
}

/// The positions of the clauses that fail under `vars`, in increasing order.
pub fn unsatisfied_positions(clauses: &Vec<Clause>, vars: &Vec<bool>) -> (positions: Vec<usize>)
    requires
        vars_below(cnf_view(clauses@), vars@.len()),
    ensures
        positions@ == unsat_positions(cnf_view(clauses@), vars@),
{
    let ghost f = cnf_view(clauses@);
    let mut i: usize = 0;
    let mut positions: Vec<usize> = Vec::new();
    while i < clauses.len()
        invariant
            i <= clauses@.len(),
            f == cnf_view(clauses@),
            vars_below(f, vars@.len()),
            positions@ == unsat_positions(f.take(i as int), vars@),
        decreases clauses@.len() - i,
    {
        assert(f.take(i + 1).drop_last() =~= f.take(i as int));
        assert(clause_vars_below(f[i as int], vars@.len()));
        if !clause_satisfied(&clauses[i], vars) {
            positions.push(i);
        }
        i = i + 1;
    }
    assert(f.take(clauses@.len() as int) =~= f);
    positions
}

/// Records in `ever_unsat` every clause that fails under `vars` (a flag once set stays
/// set) and reports whether every clause holds.
pub fn mark_unsatisfied(clauses: &Vec<Clause>, vars: &Vec<bool>, ever_unsat: &mut Vec<bool>) -> (all_sat: bool)
    requires
        vars_below(cnf_view(clauses@), vars@.len()),
        old(ever_unsat)@.len() == clauses@.len(),
    ensures
        all_sat == formula_holds(cnf_view(clauses@), vars@),
        final(ever_unsat)@.len() == old(ever_unsat)@.len(),
        forall|i: int|
            #![trigger final(ever_unsat)@[i]]
            0 <= i < clauses@.len() ==> final(ever_unsat)@[i] == (old(ever_unsat)@[i]
                || !clause_holds(cnf_view(clauses@)[i], vars@)),
{
    let ghost f = cnf_view(clauses@);
    let ghost orig = ever_unsat@;
    let mut i: usize = 0;
    let mut any_unsat = false;
    while i < clauses.len()
        invariant
            i <= clauses@.len(),
            f == cnf_view(clauses@),
            vars_below(f, vars@.len()),
            ever_unsat@.len() == clauses@.len(),
            orig.len() == clauses@.len(),
            forall|k: int| i <= k < clauses@.len() ==> ever_unsat@[k] == orig[k],
            forall|k: int|
                #![trigger ever_unsat@[k]]
                0 <= k < i ==> ever_unsat@[k] == (orig[k] || !clause_holds(f[k], vars@)),
            any_unsat == exists|k: int| 0 <= k < i && !clause_holds(#[trigger] f[k], vars@),
        decreases clauses@.len() - i,
    {
        assert(clause_vars_below(f[i as int], vars@.len()));
        let sat = clause_satisfied(&clauses[i], vars);
        if !sat {
            any_unsat = true;
            ever_unsat.set(i, true);
        }
        assert(ever_unsat@[i as int] == (orig[i as int] || !clause_holds(
            f[i as int],
            vars@,
        )));
        i = i + 1;
    }
    !any_unsat
}


/// No two literals of `c` name the same switch.
pub open spec fn distinct_vars(c: Seq<(usize, bool)>) -> bool {
    forall|i: int, j: int| 0 <= i < j < c.len() ==> (#[trigger] c[i]).0 != (#[trigger] c[j]).0
}

/// The switches of `c` strictly increase.
pub open spec fn vars_increasing(c: Seq<(usize, bool)>) -> bool {
    forall|i: int, j: int| 0 <= i < j < c.len() ==> (#[trigger] c[i]).0 < (#[trigger] c[j]).0
}

proof fn lemma_insert_multiset(s: Seq<(usize, bool)>, pos: int, x: (usize, bool))
    requires
        0 <= pos <= s.len(),
    ensures
        s.insert(pos, x).to_multiset() == s.to_multiset().insert(x),
{
    broadcast use vstd::seq_lib::group_to_multiset_ensures;
    let a = s.take(pos);
    let b = s.skip(pos);
    assert(s.insert(pos, x) =~= a.push(x) + b);
    assert(s =~= a + b);
    vstd::seq_lib::lemma_multiset_commutative(a.push(x), b);
    vstd::seq_lib::lemma_multiset_commutative(a, b);
    assert(s.insert(pos, x).to_multiset() =~= s.to_multiset().insert(x));
}

/// The switches of `c` never decrease.
pub open spec fn vars_nondecreasing(c: Seq<(usize, bool)>) -> bool {
    forall|i: int, j: int| 0 <= i < j < c.len() ==> (#[trigger] c[i]).0 <= (#[trigger] c[j]).0
}

/// The same literals ordered by switch, literals of the same switch keeping their order:
/// each literal is kept, as often as it came; with no switch twice the order is strict.
pub fn sort_literals(lits: &Vec<(usize, bool)>) -> (sorted: Vec<(usize, bool)>)
    ensures
        sorted@.to_multiset() == lits@.to_multiset(),
        sorted@.len() == lits@.len(),
        vars_nondecreasing(sorted@),
        distinct_vars(lits@) ==> vars_increasing(sorted@),
{
    broadcast use vstd::seq_lib::group_to_multiset_ensures;
    let mut sorted: Vec<(usize, bool)> = Vec::new();
    let mut i: usize = 0;
    assert(lits@.take(0) =~= Seq::<(usize, bool)>::empty());
    while i < lits.len()
        invariant
            i <= lits@.len(),
            sorted@.to_multiset() == lits@.take(i as int).to_multiset(),
            sorted@.len() == i,
            vars_nondecreasing(sorted@),
            distinct_vars(lits@) ==> vars_increasing(sorted@),
        decreases lits@.len() - i,
    {
        let x = lits[i];
        let mut pos: usize = 0;
        while pos < sorted.len() && sorted[pos].0 <= x.0
            invariant
                pos <= sorted@.len(),
                forall|k: int| 0 <= k < pos ==> (#[trigger] sorted@[k]).0 <= x.0,
            decreases sorted@.len() - pos,
        {
            pos = pos + 1;
        }
        proof {
            if distinct_vars(lits@) {
                // every literal already placed comes from an earlier position, whose switch differs
                assert forall|k: int| 0 <= k < sorted@.len() implies (#[trigger] sorted@[k]).0 != x.0 by {
                    sorted@.to_multiset_ensures();
                    lits@.take(i as int).to_multiset_ensures();
                    assert(sorted@.contains(sorted@[k]));
                    assert(sorted@.to_multiset().count(sorted@[k]) > 0);
                    assert(lits@.take(i as int).to_multiset().count(sorted@[k]) > 0);
                    assert(lits@.take(i as int).contains(sorted@[k]));
                    let q = choose|q: int| 0 <= q < i && lits@.take(i as int)[q] == sorted@[k];
                    assert(lits@[q] == sorted@[k]);
                }
            }
            lemma_insert_multiset(sorted@, pos as int, x);
            assert(lits@.take(i + 1) =~= lits@.take(i as int).push(x));
        }
        let ghost before = sorted@;
        sorted.insert(pos, x);
        proof {
            assert(sorted@ == before.insert(pos as int, x));
            lits@.take(i as int).to_multiset_ensures();
            assert(lits@.take(i as int).push(x).to_multiset() =~= lits@.take(i as int).to_multiset().insert(x));
            assert(sorted@.to_multiset() == lits@.take(i + 1).to_multiset());
            assert forall|a: int, b: int| 0 <= a < b < sorted@.len() implies (#[trigger] sorted@[a]).0
                <= (#[trigger] sorted@[b]).0 by {
                if b < pos {
                    assert(sorted@[a] == before[a] && sorted@[b] == before[b]);
                } else if b == pos {
                    assert(sorted@[a] == before[a]);
                } else if a < pos {
                    assert(sorted@[a] == before[a] && sorted@[b] == before[b - 1]);
                    assert(before[pos as int].0 > x.0);
                } else if a == pos {
                    assert(sorted@[b] == before[b - 1]);
                    assert(before[pos as int].0 > x.0);
                    if b - 1 > pos {
                        assert(before[pos as int].0 <= before[b - 1].0);
                    }
                } else {
                    assert(sorted@[a] == before[a - 1] && sorted@[b] == before[b - 1]);
                }
            }
            if distinct_vars(lits@) {
                assert forall|a: int, b: int| 0 <= a < b < sorted@.len() implies (#[trigger] sorted@[a]).0
                    < (#[trigger] sorted@[b]).0 by {
                    if b < pos {
                        assert(sorted@[a] == before[a] && sorted@[b] == before[b]);
                    } else if b == pos {
                        assert(sorted@[a] == before[a]);
                    } else if a < pos {
                        assert(sorted@[a] == before[a] && sorted@[b] == before[b - 1]);
                        assert(before[pos as int].0 > x.0);
                    } else if a == pos {
                        assert(sorted@[b] == before[b - 1]);
                        assert(before[pos as int].0 > x.0);
                        if b - 1 > pos {
                            assert(before[pos as int].0 < before[b - 1].0);
                        }
                    } else {
                        assert(sorted@[a] == before[a - 1] && sorted@[b] == before[b - 1]);
                    }
                }
            }
        }
        i = i + 1;
    }
    assert(lits@.take(lits@.len() as int) =~= lits@);
    sorted
}

/// Two literal lists with the same literals hold under the same assignments.
pub proof fn lemma_same_literals_same_truth(c1: Seq<(usize, bool)>, c2: Seq<(usize, bool)>, a: Seq<bool>)
    requires
        c1.to_multiset() == c2.to_multiset(),
    ensures
        clause_holds(c1, a) == clause_holds(c2, a),
{
    broadcast use vstd::seq_lib::group_to_multiset_ensures;
    if clause_holds(c1, a) {
        let j = choose|j: int| 0 <= j < c1.len() && lit_holds(a, #[trigger] c1[j]);
        c1.to_multiset_ensures();
        c2.to_multiset_ensures();
        assert(c1.contains(c1[j]));
        assert(c1.to_multiset().count(c1[j]) > 0);
        assert(c2.contains(c1[j]));
        let k = choose|k: int| 0 <= k < c2.len() && c2[k] == c1[j];
        assert(lit_holds(a, c2[k]));
    }
    if clause_holds(c2, a) {
        let j = choose|j: int| 0 <= j < c2.len() && lit_holds(a, #[trigger] c2[j]);
        c1.to_multiset_ensures();
        c2.to_multiset_ensures();
        assert(c2.contains(c2[j]));
        assert(c2.to_multiset().count(c2[j]) > 0);
        assert(c1.contains(c2[j]));
        let k = choose|k: int| 0 <= k < c1.len() && c1[k] == c2[j];
        assert(lit_holds(a, c1[k]));
    }
}

/// Decides whether two literal lists are equal, entry by entry.
pub fn same_literals(a: &Vec<(usize, bool)>, b: &Vec<(usize, bool)>) -> (eq: bool)
    ensures
        eq == (a@ == b@),
{
    if a.len() != b.len() {
        return false;
    }
    let mut i: usize = 0;
    while i < a.len()
        invariant
            i <= a@.len(),
            a@.len() == b@.len(),
            forall|j: int| 0 <= j < i ==> a@[j] == b@[j],
        decreases a@.len() - i,
    {
        if a[i].0 != b[i].0 || a[i].1 != b[i].1 {
            return false;
        }
        i = i + 1;
    }
    assert(a@ =~= b@);
    true
}

/// Decides whether some clause of `clauses` has exactly the literal list `lits`.
pub fn contains_clause(clauses: &Vec<Clause>, lits: &Vec<(usize, bool)>) -> (found: bool)
    ensures
        found == cnf_view(clauses@).contains(lits@),
{
    let ghost f = cnf_view(clauses@);
    let mut i: usize = 0;
    while i < clauses.len()
        invariant
            i <= clauses@.len(),
            f == cnf_view(clauses@),
            forall|j: int| 0 <= j < i ==> f[j] != lits@,
        decreases clauses@.len() - i,
    {
        if same_literals(&clauses[i].literals, lits) {
            assert(f[i as int] == lits@);
            return true;
        }
        i = i + 1;
    }
    false
}

} // verus!
