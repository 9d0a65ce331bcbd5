//! How often each assignment of the switches has been reached.

use vstd::prelude::*;

verus! {

/// Decides whether two assignments are equal, entry by entry.
pub fn same_assignment(a: &Vec<bool>, b: &Vec<bool>) -> (eq: bool)
    ensures
        eq == (a@ == b@),
{
    if a.len() != b.len() {
        return false;
    }
    let mut i: usize = 0;
    while i < a.len()
        invariant
            i <= a@.len(),
            a@.len() == b@.len(),
            forall|j: int| 0 <= j < i ==> a@[j] == b@[j],
        decreases a@.len() - i,
    {
        if a[i] != b[i] {
            return false;
        }
        i = i + 1;
    }
    assert(a@ =~= b@);
    true
}

/// A copy of an assignment.
pub fn copy_assignment(v: &Vec<bool>) -> (c: Vec<bool>)
    ensures
        c@ == v@,
{
    let mut c: Vec<bool> = Vec::new();
    let mut i: usize = 0;
    while i < v.len()
        invariant
            i <= v@.len(),
            c@ == v@.take(i as int),
        decreases v@.len() - i,
    {
        c.push(v[i]);
        assert(c@ =~= v@.take(i + 1));
        i = i + 1;
    }
    assert(v@.take(v@.len() as int) =~= v@);
    c
}

/// A tally of visits per assignment; each assignment has at most one entry.
pub struct VisitCounter {
    entries: Vec<(Vec<bool>, u32)>,
}

/// The keys of a list of entries.
pub open spec fn entry_keys(e: Seq<(Vec<bool>, u32)>) -> Seq<Seq<bool>> {
    Seq::new(e.len(), |i: int| e[i].0@)
}

/// The tally that a list of entries gives `key`: the count of its entry, or 0.
pub open spec fn entry_count(e: Seq<(Vec<bool>, u32)>, key: Seq<bool>) -> nat
    decreases e.len(),
{
    if e.len() == 0 {
        0
    } else if e.last().0@ == key {
        e.last().1 as nat
    } else {
        entry_count(e.drop_last(), key)
    }
}

/// The sum of all counts of a list of entries.
pub open spec fn entry_total(e: Seq<(Vec<bool>, u32)>) -> nat
    decreases e.len(),
{
    if e.len() == 0 {
        0
    } else {
        entry_total(e.drop_last()) + e.last().1 as nat
    }
}

proof fn lemma_count_absent(e: Seq<(Vec<bool>, u32)>, key: Seq<bool>)
    requires
        !entry_keys(e).contains(key),
    ensures
        entry_count(e, key) == 0,
    decreases e.len(),
{
    if e.len() > 0 {
        assert(entry_keys(e)[e.len() - 1] == e.last().0@);
        assert(entry_keys(e.drop_last()) =~= entry_keys(e).drop_last());
        lemma_count_absent(e.drop_last(), key);
    }
}

proof fn lemma_count_at(e: Seq<(Vec<bool>, u32)>, i: int)
    requires
        0 <= i < e.len(),
        entry_keys(e).no_duplicates(),
    ensures
        entry_count(e, e[i].0@) == e[i].1,
    decreases e.len(),
{
    if i < e.len() - 1 {
        assert(entry_keys(e)[i] == e[i].0@);
        assert(entry_keys(e)[e.len() - 1] == e.last().0@);
        assert(entry_keys(e.drop_last()) =~= entry_keys(e).drop_last());
        lemma_count_at(e.drop_last(), i);
    }
}

/// Counts of two different keys together stay within the total.
proof fn lemma_two_counts(e: Seq<(Vec<bool>, u32)>, k1: Seq<bool>, k2: Seq<bool>)
    requires
        entry_keys(e).no_duplicates(),
        k1 != k2,
    ensures
        entry_count(e, k1) + entry_count(e, k2) <= entry_total(e),
    decreases e.len(),
{
    if e.len() > 0 {
        assert(entry_keys(e.drop_last()) =~= entry_keys(e).drop_last());
        lemma_two_counts(e.drop_last(), k1, k2);
        lemma_one_count(e.drop_last(), k1);
        lemma_one_count(e.drop_last(), k2);
    }
}

proof fn lemma_one_count(e: Seq<(Vec<bool>, u32)>, k: Seq<bool>)
    ensures
        entry_count(e, k) <= entry_total(e),
    decreases e.len(),
{
    if e.len() > 0 {
        lemma_one_count(e.drop_last(), k);
    }
}

/// Raising the count of one entry changes that key's count and the total by the same amount.
proof fn lemma_update_entry(e: Seq<(Vec<bool>, u32)>, i: int, k: Vec<bool>, c: u32)
    requires
        0 <= i < e.len(),
        entry_keys(e).no_duplicates(),
        k@ == e[i].0@,
    ensures
        entry_keys(e.update(i, (k, c))).no_duplicates(),
        forall|key: Seq<bool>| #[trigger] entry_count(e.update(i, (k, c)), key) == if key == k@ {
            c as nat
        } else {
            entry_count(e, key)
        },
        entry_total(e.update(i, (k, c))) + e[i].1 == entry_total(e) + c,
    decreases e.len(),
{
    let u = e.update(i, (k, c));
    assert(entry_keys(u) =~= entry_keys(e));
    assert(entry_keys(e.drop_last()) =~= entry_keys(e).drop_last());
    if i == e.len() - 1 {
        assert(u.drop_last() =~= e.drop_last());
        assert forall|key: Seq<bool>| #[trigger] entry_count(u, key) == if key == k@ {
            c as nat
        } else {
            entry_count(e, key)
        } by {
            if key == k@ {
            } else {
            }
        }
    } else {
        lemma_update_entry(e.drop_last(), i, k, c);
        assert(u.drop_last() =~= e.drop_last().update(i, (k, c)));
        assert(entry_keys(e)[i] == e[i].0@);
        assert(entry_keys(e)[e.len() - 1] == e.last().0@);
        assert forall|key: Seq<bool>| #[trigger] entry_count(u, key) == if key == k@ {
            c as nat
        } else {
            entry_count(e, key)
        } by {
            assert(u.last() == e.last());
            assert(entry_count(u.drop_last(), key) == if key == k@ {
                c as nat
            } else {
                entry_count(e.drop_last(), key)
            });
            if key == k@ {
                assert(e.last().0@ != k@);
            }
        }
    }
}

impl VisitCounter {
    /// Each assignment has at most one entry, and every entry counts at least one visit.
    pub closed spec fn wf(&self) -> bool {
        &&& entry_keys(self.entries@).no_duplicates()
        &&& forall|i: int| 0 <= i < self.entries@.len() ==> (#[trigger] self.entries@[i]).1 >= 1
    }

    /// How often `key` has been reached.
    pub closed spec fn count(&self, key: Seq<bool>) -> nat {
        entry_count(self.entries@, key)
    }

    /// All visits together.
    pub closed spec fn total(&self) -> nat {
        entry_total(self.entries@)
    }

    /// Two different assignments never account for more visits than there were.
    pub proof fn lemma_two_counts_within_total(&self, k1: Seq<bool>, k2: Seq<bool>)
        requires
            self.wf(),
            k1 != k2,
        ensures
            self.count(k1) + self.count(k2) <= self.total(),
    {
        lemma_two_counts(self.entries@, k1, k2);
    }

    /// A tally holding one visit of `start`.
    pub fn new_with(start: Vec<bool>) -> (c: Self)
        ensures
            c.wf(),
            forall|k: Seq<bool>| #[trigger] c.count(k) == if k == start@ {
                1nat
            } else {
                0nat
            },
            c.total() == 1,
    {
        let mut entries: Vec<(Vec<bool>, u32)> = Vec::new();
        let ghost key = start@;
        entries.push((start, 1));
        assert(entries@.len() == 1);
        assert(entries@.last().0@ == key && entries@.last().1 == 1);
        assert(entry_keys(entries@) =~= seq![key]);
        assert(entries@.drop_last() =~= Seq::<(Vec<bool>, u32)>::empty());
        let c = VisitCounter { entries };
        assert(entry_total(c.entries@.drop_last()) == 0);
        assert forall|k: Seq<bool>| #[trigger] c.count(k) == if k == key {
            1nat
        } else {
            0nat
        } by {
            assert(entry_count(c.entries@.drop_last(), k) == 0);
        }
        c
    }

    fn find(&self, key: &Vec<bool>) -> (pos: Option<usize>)
        ensures
            match pos {
                Some(i) => i < self.entries@.len() && self.entries@[i as int].0@ == key@,
                None => !entry_keys(self.entries@).contains(key@),
            },
    {
        let mut i: usize = 0;
        while i < self.entries.len()
            invariant
                i <= self.entries@.len(),
                forall|j: int| 0 <= j < i ==> self.entries@[j].0@ != key@,
            decreases self.entries@.len() - i,
        {
            if same_assignment(&self.entries[i].0, key) {
                return Some(i);
            }
            i = i + 1;
        }
        assert forall|j: int| 0 <= j < entry_keys(self.entries@).len() implies entry_keys(
            self.entries@,
        )[j] != key@ by {}
        None
    }

    /// The count of `key` if it has been reached at all.
    pub fn get(&self, key: &Vec<bool>) -> (r: Option<u32>)
        requires
            self.wf(),
        ensures
            match r {
                Some(c) => c == self.count(key@) && c > 0,
                None => self.count(key@) == 0,
            },
    {
        match self.find(key) {
            Some(i) => {
                proof {
                    lemma_count_at(self.entries@, i as int);
                }
                Some(self.entries[i].1)
            },
            None => {
                proof {
                    lemma_count_absent(self.entries@, key@);
                }
                None
            },
        }
    }

    /// How often the assignment reached by flipping switch `i` of `vars` has been
    /// visited (the radar above each switch).
    pub fn count_after_flip(&self, vars: &Vec<bool>, i: usize) -> (c: u32)
        requires
            self.wf(),
            i < vars@.len(),
        ensures
            c == self.count(vars@.update(i as int, !vars@[i as int])),
    {
        let mut projected = copy_assignment(vars);
        let flipped = !projected[i];
        projected.set(i, flipped);
        match self.get(&projected) {
            Some(c) => c,
            None => 0,
        }
    }

    /// Adds one visit of `key`.
    pub fn record(&mut self, key: Vec<bool>)
        requires
            old(self).wf(),
            old(self).count(key@) < u32::MAX,
        ensures
            final(self).wf(),
            forall|k: Seq<bool>| #[trigger] final(self).count(k) == if k == key@ {
                old(self).count(k) + 1
            } else {
                old(self).count(k)
            },
            final(self).total() == old(self).total() + 1,
    {
        match self.find(&key) {
            Some(i) => {
                let ghost e = self.entries@;
                proof {
                    lemma_count_at(e, i as int);
                }
                let entry = self.entries.remove(i);
                assert(entry == e[i as int]);
                let bumped = entry.1 + 1;
                self.entries.insert(i, (entry.0, bumped));
                proof {
                    assert(self.entries@ =~= e.update(i as int, (entry.0, bumped)));
                    lemma_update_entry(e, i as int, entry.0, bumped);
                    assert forall|j: int| 0 <= j < self.entries@.len() implies (#[trigger] self.entries@[j]).1 >= 1 by {
                        if j != i {
                            assert(self.entries@[j] == e[j]);
                        }
                    }
                }
            },
            None => {
                let ghost e = self.entries@;
                let ghost k = key@;
                self.entries.push((key, 1));
                proof {
                    lemma_count_absent(e, k);
                    assert(self.entries@.drop_last() =~= e);
                    assert(entry_keys(self.entries@) =~= entry_keys(e).push(k));
                    assert forall|j: int| 0 <= j < self.entries@.len() implies (#[trigger] self.entries@[j]).1 >= 1 by {
                        if j < e.len() {
                            assert(self.entries@[j] == e[j]);
                        }
                    }
                }
            },
        }
    }
}

} // verus!
