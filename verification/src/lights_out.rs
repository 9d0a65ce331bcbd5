//! Lights Out on a five-by-five board as a satisfiability puzzle: pressing a cell
//! toggles it and its orthogonal neighbours, and the clauses say which presses turn
//! every bulb off.

use vstd::prelude::*;
use vstd::arithmetic::power2::pow2;
use crate::cnf::{Clause, formula_holds, cnf_view, vars_below, formula_satisfied};
use crate::encode::{
    parity_system, selections_below, increasing, seq_parity, pick, selection_parity,
    push_parity_clauses, lemma_parity_system, lemma_parity_system_len, parity_system_size,
};
use crate::random::{thread_rng, random_bits};
use crate::visits::{VisitCounter, copy_assignment};

verus! {

/// The cells that pressing cell `i` of the board toggles, in increasing order: the one
/// above, the one to the left, the cell itself, the one to the right, the one below.
pub open spec fn neighborhood(i: nat) -> Seq<usize> {
    let r = i / 5;
    let c = i % 5;
    (if r > 0 { seq![(i - 5) as usize] } else { Seq::empty() })
        + (if c > 0 { seq![(i - 1) as usize] } else { Seq::empty() })
        + seq![i as usize]
        + (if c < 4 { seq![(i + 1) as usize] } else { Seq::empty() })
        + (if r < 4 { seq![(i + 5) as usize] } else { Seq::empty() })
}

/// The neighbourhoods of all 25 cells.
pub open spec fn neighborhoods() -> Seq<Seq<usize>> {
    Seq::new(25, |i: int| neighborhood(i as nat))
}

/// Builds the neighbourhood of cell `i`.
pub fn neighbors(i: usize) -> (v: Vec<usize>)
    requires
        i < 25,
    ensures
        v@ == neighborhood(i as nat),
        increasing(v@),
        1 <= v@.len() <= 5,
        forall|j: int| 0 <= j < v@.len() ==> (#[trigger] v@[j]) < 25,
{
    let r = i / 5;
    let c = i % 5;
    let mut v: Vec<usize> = Vec::new();
    if r > 0 {
        v.push(i - 5);
    }
    if c > 0 {
        v.push(i - 1);
    }
    v.push(i);
    if c < 4 {
        v.push(i + 1);
    }
    if r < 4 {
        v.push(i + 5);
    }
    assert(v@ =~= neighborhood(i as nat));
    v
}

proof fn lemma_neighborhoods_below()
    ensures
        selections_below(neighborhoods(), 25),
{
    assert forall|e: int, j: int| 0 <= e < neighborhoods().len() && 0 <= j < neighborhoods()[e].len() implies (#[trigger] neighborhoods()[e][j]) < 25 by {
        let i = e as nat;
        assert(neighborhoods()[e] == neighborhood(i));
    }
}

/// One more cell adds the clauses of its neighbourhood.
proof fn lemma_board_prefix(k: nat)
    requires
        k < 25,
    ensures
        parity_system_size(neighborhoods().take(k + 1int)) == parity_system_size(neighborhoods().take(k as int))
            + pow2((neighborhood(k).len() - 1) as nat),
{
    let ns = neighborhoods();
    assert(ns.take(k + 1int).drop_last() =~= ns.take(k as int));
    assert(ns.take(k + 1int).last() == neighborhood(k));
}

/// Law: the board takes 256 clauses: 4 for each of the 4 corners, 8 for each of the 12
/// other edge cells and 16 for each of the 9 inner cells.
pub proof fn lemma_board_clause_count()
    ensures
        parity_system_size(neighborhoods()) == 256,
{
    vstd::arithmetic::power2::lemma2_to64();
    let ns = neighborhoods();
    assert(ns.take(0) =~= Seq::<Seq<usize>>::empty());
    lemma_board_prefix(0);
    assert(neighborhood(0).len() == 3);
    assert(parity_system_size(ns.take(1)) == 4);
    lemma_board_prefix(1);
    assert(neighborhood(1).len() == 4);
    assert(parity_system_size(ns.take(2)) == 12);
    lemma_board_prefix(2);
    assert(neighborhood(2).len() == 4);
    assert(parity_system_size(ns.take(3)) == 20);
    lemma_board_prefix(3);
    assert(neighborhood(3).len() == 4);
    assert(parity_system_size(ns.take(4)) == 28);
    lemma_board_prefix(4);
    assert(neighborhood(4).len() == 3);
    assert(parity_system_size(ns.take(5)) == 32);
    lemma_board_prefix(5);
    assert(neighborhood(5).len() == 4);
    assert(parity_system_size(ns.take(6)) == 40);
    lemma_board_prefix(6);
    assert(neighborhood(6).len() == 5);
    assert(parity_system_size(ns.take(7)) == 56);
    lemma_board_prefix(7);
    assert(neighborhood(7).len() == 5);
    assert(parity_system_size(ns.take(8)) == 72);
    lemma_board_prefix(8);
    assert(neighborhood(8).len() == 5);
    assert(parity_system_size(ns.take(9)) == 88);
    lemma_board_prefix(9);
    assert(neighborhood(9).len() == 4);
    assert(parity_system_size(ns.take(10)) == 96);
    lemma_board_prefix(10);
    assert(neighborhood(10).len() == 4);
    assert(parity_system_size(ns.take(11)) == 104);
    lemma_board_prefix(11);
    assert(neighborhood(11).len() == 5);
    assert(parity_system_size(ns.take(12)) == 120);
    lemma_board_prefix(12);
    assert(neighborhood(12).len() == 5);
    assert(parity_system_size(ns.take(13)) == 136);
    lemma_board_prefix(13);
    assert(neighborhood(13).len() == 5);
    assert(parity_system_size(ns.take(14)) == 152);
    lemma_board_prefix(14);
    assert(neighborhood(14).len() == 4);
    assert(parity_system_size(ns.take(15)) == 160);
    lemma_board_prefix(15);
    assert(neighborhood(15).len() == 4);
    assert(parity_system_size(ns.take(16)) == 168);
    lemma_board_prefix(16);
    assert(neighborhood(16).len() == 5);
    assert(parity_system_size(ns.take(17)) == 184);
    lemma_board_prefix(17);
    assert(neighborhood(17).len() == 5);
    assert(parity_system_size(ns.take(18)) == 200);
    lemma_board_prefix(18);
    assert(neighborhood(18).len() == 5);
    assert(parity_system_size(ns.take(19)) == 216);
    lemma_board_prefix(19);
    assert(neighborhood(19).len() == 4);
    assert(parity_system_size(ns.take(20)) == 224);
    lemma_board_prefix(20);
    assert(neighborhood(20).len() == 3);
    assert(parity_system_size(ns.take(21)) == 228);
    lemma_board_prefix(21);
    assert(neighborhood(21).len() == 4);
    assert(parity_system_size(ns.take(22)) == 236);
    lemma_board_prefix(22);
    assert(neighborhood(22).len() == 4);
    assert(parity_system_size(ns.take(23)) == 244);
    lemma_board_prefix(23);
    assert(neighborhood(23).len() == 4);
    assert(parity_system_size(ns.take(24)) == 252);
    lemma_board_prefix(24);
    assert(neighborhood(24).len() == 3);
    assert(parity_system_size(ns.take(25)) == 256);
    assert(ns.take(25) =~= ns);
}

/// A Lights Out game.
pub struct GameState {
    pub n: usize,
    pub vars: Vec<bool>,
    pub clauses: Vec<Clause>,
    pub initial_map: Vec<bool>,
    pub is_won: bool,
    pub steps: u32,
    pub visited_counts: VisitCounter,
    pub target_solution: Vec<bool>,
}

impl GameState {
    /// The clauses as literal lists.
    pub open spec fn formula(&self) -> Seq<Seq<(usize, bool)>> {
        cnf_view(self.clauses@)
    }

    /// What every board keeps: 25 presses, the bulbs that the hidden solution lights,
    /// the clauses of every cell's parity under it, and a tally of visits holding the
    /// current presses with one visit per step plus the start.
    pub open spec fn wf(&self) -> bool {
        &&& self.board_wf()
        &&& self.visited_counts.wf()
        &&& self.visited_counts.total() == self.steps + 1
        &&& self.visited_counts.count(self.vars@) >= 1
    }

    /// The board part of `wf`: sizes, the bulbs and the clauses of the hidden solution.
    pub open spec fn board_wf(&self) -> bool {
        &&& self.n == 25
        &&& self.vars@.len() == 25
        &&& self.target_solution@.len() == 25
        &&& self.initial_map@.len() == 25
        &&& (forall|i: int| 0 <= i < 25 ==> #[trigger] self.initial_map@[i] == seq_parity(pick(self.target_solution@, neighborhood(i as nat))))
        &&& self.formula() == parity_system(neighborhoods(), self.target_solution@)
    }

    /// A new board: a random hidden pattern of presses, the bulbs it lights, the clauses
    /// that every cell's parity gives, and no press made yet.
    pub fn generate() -> (g: Self)
        ensures
            g.wf(),
            g.vars@ == Seq::new(25, |i: int| false),
            g.clauses@.len() == 256,
            !g.is_won,
            g.steps == 0,
            forall|k: Seq<bool>| #[trigger] g.visited_counts.count(k) == if k == g.vars@ { 1nat } else { 0nat },
    {
        let n: usize = 25;
        let mut rng = thread_rng();
        let secret_solution = random_bits(&mut rng, n);
        let mut initial_map: Vec<bool> = Vec::new();
        let mut clauses: Vec<Clause> = Vec::new();
        let mut i: usize = 0;
        while i < n
            invariant
                i <= n == 25,
                secret_solution@.len() == 25,
                initial_map@.len() == i,
                forall|j: int| 0 <= j < i ==> #[trigger] initial_map@[j] == seq_parity(pick(secret_solution@, neighborhood(j as nat))),
                cnf_view(clauses@) == parity_system(neighborhoods().take(i as int), secret_solution@),
            decreases n - i,
        {
            let nb = neighbors(i);
            let parity = selection_parity(&secret_solution, &nb);
            initial_map.push(parity);
            push_parity_clauses(&mut clauses, &nb, parity);
            assert(neighborhoods().take(i + 1).drop_last() =~= neighborhoods().take(i as int));
            assert(neighborhoods().take(i + 1).last() == nb@);
            i = i + 1;
        }
        assert(neighborhoods().take(25) =~= neighborhoods());
        proof {
            assert forall|e: int| 0 <= e < neighborhoods().len() implies (#[trigger] neighborhoods()[e]).len() >= 1 by {
                assert(neighborhoods()[e] == neighborhood(e as nat));
            }
            lemma_parity_system_len(neighborhoods(), secret_solution@);
            lemma_board_clause_count();
        }
        let mut initial_vars: Vec<bool> = Vec::new();
        let mut i: usize = 0;
        while i < n
            invariant
                i <= n,
                initial_vars@ == Seq::new(i as nat, |j: int| false),
            decreases n - i,
        {
            initial_vars.push(false);
            assert(initial_vars@ =~= Seq::new((i + 1) as nat, |j: int| false));
            i = i + 1;
        }
        let visited_counts = VisitCounter::new_with(copy_assignment(&initial_vars));
        GameState {
            n,
            vars: initial_vars,
            clauses,
            initial_map,
            is_won: false,
            steps: 0,
            visited_counts,
            target_solution: secret_solution,
        }
    }

    /// Sets the win flag to whether every clause holds under the current presses.
    pub fn check(&mut self)
        requires
            old(self).board_wf(),
        ensures
            final(self).is_won == formula_holds(old(self).formula(), old(self).vars@),
            final(self).board_wf(),
            final(self).vars == old(self).vars,
            final(self).clauses == old(self).clauses,
            final(self).initial_map == old(self).initial_map,
            final(self).target_solution == old(self).target_solution,
            final(self).steps == old(self).steps,
            final(self).visited_counts == old(self).visited_counts,
    {
        proof {
            lemma_neighborhoods_below();
            lemma_parity_system(neighborhoods(), self.target_solution@, self.vars@);
        }
        self.is_won = formula_satisfied(&self.clauses, &self.vars);
    }

    /// A click on cell `i`: the press toggles, the step count grows by one, the win flag
    /// is brought up to date and the new presses get one more visit.
    pub fn press(&mut self, i: usize)
        requires
            old(self).wf(),
            i < 25,
            old(self).steps < u32::MAX,
        ensures
            final(self).wf(),
            final(self).vars@ == old(self).vars@.update(i as int, !old(self).vars@[i as int]),
            final(self).steps == old(self).steps + 1,
            final(self).is_won == formula_holds(final(self).formula(), final(self).vars@),
            forall|k: Seq<bool>| #[trigger] final(self).visited_counts.count(k) == if k == final(self).vars@ {
                old(self).visited_counts.count(k) + 1
            } else {
                old(self).visited_counts.count(k)
            },
    {
        let ghost before = self.vars@;
        let flipped = !self.vars[i];
        self.vars.set(i, flipped);
        self.steps = self.steps + 1;
        self.check();
        proof {
            assert(self.vars@ != before) by {
                assert(self.vars@[i as int] != before[i as int]);
            }
            old(self).visited_counts.lemma_two_counts_within_total(before, self.vars@);
        }
        let key = copy_assignment(&self.vars);
        self.visited_counts.record(key);
    }

    /// Whether bulb `i` is lit: its starting state toggled by the presses on its
    /// neighbourhood.
    pub fn bulb_on(&self, i: usize) -> (on: bool)
        requires
            self.wf(),
            i < 25,
        ensures
            on == (self.initial_map@[i as int] != seq_parity(pick(self.vars@, neighborhood(i as nat)))),
    {
        let nb = neighbors(i);
        let pressed = selection_parity(&self.vars, &nb);
        self.initial_map[i] != pressed
    }

    /// Law: the presses satisfy every clause exactly when every bulb is dark, and the
    /// hidden solution is such a set of presses.
    pub proof fn lemma_won_iff_dark(&self)
        requires
            self.wf(),
        ensures
            formula_holds(self.formula(), self.vars@) == forall|i: int| 0 <= i < 25 ==> #[trigger] self.initial_map@[i]
                == seq_parity(pick(self.vars@, neighborhood(i as nat))),
            formula_holds(self.formula(), self.target_solution@),
    {
        lemma_neighborhoods_below();
        lemma_parity_system(neighborhoods(), self.target_solution@, self.vars@);
        if formula_holds(self.formula(), self.vars@) {
            assert forall|i: int| 0 <= i < 25 implies #[trigger] self.initial_map@[i] == seq_parity(pick(self.vars@, neighborhood(i as nat))) by {
                assert(neighborhoods()[i] == neighborhood(i as nat));
            }
        }
        if forall|i: int| 0 <= i < 25 ==> #[trigger] self.initial_map@[i] == seq_parity(pick(self.vars@, neighborhood(i as nat))) {
            assert forall|e: int| 0 <= e < neighborhoods().len() implies seq_parity(pick(self.vars@, #[trigger] neighborhoods()[e]))
                == seq_parity(pick(self.target_solution@, neighborhoods()[e])) by {
                assert(neighborhoods()[e] == neighborhood(e as nat));
                assert(self.initial_map@[e] == seq_parity(pick(self.vars@, neighborhood(e as nat))));
            }
        }
    }
}

} // verus!
