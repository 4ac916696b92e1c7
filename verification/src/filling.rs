//! A finite map from cells to values, kept as a list of distinct cells.
//!
//! vstd states what std's hash maps hold only for keys of primitive type, so a map keyed
//! by cells is kept here as a list of distinct `(cell, value)` entries, whose view is a
//! `Map<Cell, T>` that every operation's contract speaks of.
use vstd::prelude::*;
use crate::cell::Cell;

verus! {

/// The map that a list of (cell, value) entries describes.
pub open spec fn entries_map<T>(s: Seq<(Cell, T)>) -> Map<Cell, T>
    decreases s.len(),
{
    if s.len() == 0 {
        Map::empty()
    } else {
        entries_map(s.drop_last()).insert(s.last().0, s.last().1)
    }
}

/// No cell occurs twice.
pub open spec fn distinct_cells<T>(s: Seq<(Cell, T)>) -> bool {
    forall|i: int, j: int| 0 <= i < j < s.len() ==> s[i].0 != s[j].0
}

pub proof fn lemma_entries_map<T>(s: Seq<(Cell, T)>)
    requires
        distinct_cells(s),
    ensures
        forall|i: int|
            0 <= i < s.len() ==> entries_map(s).dom().contains(#[trigger] s[i].0) && entries_map(
                s,
            )[s[i].0] == s[i].1,
        forall|c: Cell|
            #[trigger] entries_map(s).dom().contains(c) ==> exists|i: int|
                0 <= i < s.len() && s[i].0 == c,
        entries_map(s).dom().finite(),
        entries_map(s).dom().len() == s.len(),
    decreases s.len(),
{
    if s.len() > 0 {
        let t = s.drop_last();
        assert(distinct_cells(t)) by {
            assert forall|i: int, j: int| 0 <= i < j < t.len() implies t[i].0 != t[j].0 by {
                assert(t[i] == s[i] && t[j] == s[j]);
            }
        }
        lemma_entries_map(t);
        let last = s.last();
        assert(!entries_map(t).dom().contains(last.0)) by {
            if entries_map(t).dom().contains(last.0) {
                let i = choose|i: int| 0 <= i < t.len() && t[i].0 == last.0;
                assert(s[i].0 == s[s.len() - 1].0);
            }
        }
        assert forall|i: int| 0 <= i < s.len() implies entries_map(s).dom().contains(
            #[trigger] s[i].0,
        ) && entries_map(s)[s[i].0] == s[i].1 by {
            if i < t.len() {
                assert(t[i] == s[i]);
                assert(s[i].0 != last.0);
            }
        }
        assert forall|c: Cell| #[trigger] entries_map(s).dom().contains(c) implies exists|i: int|
            0 <= i < s.len() && s[i].0 == c by {
            if c == last.0 {
                assert(s[s.len() - 1].0 == c);
            } else {
                let i = choose|i: int| 0 <= i < t.len() && t[i].0 == c;
                assert(s[i] == t[i]);
            }
        }
    }
}

/// Values written into cells; each cell holds at most one value.
#[derive(Debug)]
pub struct Filling<T> {
    entries: Vec<(Cell, T)>,
}

impl<T> View for Filling<T> {
    type V = Map<Cell, T>;

    closed spec fn view(&self) -> Map<Cell, T> {
        entries_map(self.entries@)
    }
}

impl<T> Filling<T> {
    #[verifier::type_invariant]
    pub closed spec fn valid(self) -> bool {
        distinct_cells(self.entries@)
    }

    /// The entries in the order in which they are kept.
    pub closed spec fn entry_list(self) -> Seq<(Cell, T)> {
        self.entries@
    }

    pub broadcast proof fn lemma_valid(f: Filling<T>)
        requires
            #[trigger] f.valid(),
        ensures
            forall|i: int|
                0 <= i < f.entry_list().len() ==> f@.dom().contains(#[trigger] f.entry_list()[i].0)
                    && f@[f.entry_list()[i].0] == f.entry_list()[i].1,
            forall|c: Cell|
                #[trigger] f@.dom().contains(c) ==> exists|i: int|
                    0 <= i < f.entry_list().len() && f.entry_list()[i].0 == c,
            f@.dom().finite(),
            f@.dom().len() == f.entry_list().len(),
    {
        lemma_entries_map(f.entries@);
        assert forall|c: Cell| #[trigger] f@.dom().contains(c) implies exists|i: int|
            0 <= i < f.entry_list().len() && f.entry_list()[i].0 == c by {
            let i = choose|i: int| 0 <= i < f.entries@.len() && f.entries@[i].0 == c;
            assert(f.entry_list()[i].0 == c);
        }
    }

    pub fn new() -> (r: Self)
        ensures
            r@ == Map::<Cell, T>::empty(),
    {
        Filling { entries: Vec::new() }
    }

    fn find(&self, cell: &Cell) -> (r: Option<usize>)
        ensures
            r matches Some(i) ==> i < self.entries@.len() && self.entries@[i as int].0 == *cell,
            r is None ==> forall|i: int| 0 <= i < self.entries@.len() ==> self.entries@[i].0 != *cell,
    {
        let mut i: usize = 0;
        while i < self.entries.len()
            invariant
                i <= self.entries@.len(),
                forall|j: int| 0 <= j < i ==> self.entries@[j].0 != *cell,
            decreases self.entries.len() - i,
        {
            if self.entries[i].0 == *cell {
                return Some(i);
            }
            i = i + 1;
        }
        None
    }

    /// The value in `cell`, if there is one.
    pub fn get(&self, cell: &Cell) -> (r: Option<&T>)
        ensures
            r == (if self@.dom().contains(*cell) {
                Some(&self@[*cell])
            } else {
                None::<&T>
            }),
    {
        proof {
            use_type_invariant(self);
            lemma_entries_map(self.entries@);
        }
        match self.find(cell) {
            Some(i) => Some(&self.entries[i].1),
            None => {
                proof {
                    if self@.dom().contains(*cell) {
                        let i = choose|i: int|
                            0 <= i < self.entries@.len() && self.entries@[i].0 == *cell;
                    }
                }
                None
            },
        }
    }

    /// Writes `value` into `cell` and gives back the value it held before.
    pub fn insert(&mut self, cell: Cell, value: T) -> (r: Option<T>)
        ensures
            final(self)@ == old(self)@.insert(cell, value),
            r == (if old(self)@.dom().contains(cell) {
                Some(old(self)@[cell])
            } else {
                None::<T>
            }),
    {
        proof {
            use_type_invariant(&*self);
            lemma_entries_map(self.entries@);
        }
        let ghost before = self.entries@;
        let found = self.find(&cell);
        let mut entries: Vec<(Cell, T)> = Vec::new();
        std::mem::swap(&mut entries, &mut self.entries);
        match found {
            Some(i) => {
                let (_c, old_value) = entries.remove(i);
                entries.insert(i, (cell, value));
                proof {
                    let after = entries@;
                    assert(after =~= before.update(i as int, (cell, value)));
                    assert(distinct_cells(after)) by {
                        assert forall|a: int, b: int| 0 <= a < b < after.len() implies after[a].0
                            != after[b].0 by {
                            assert(before[a].0 != before[b].0);
                        }
                    }
                    lemma_entries_map(after);
                    assert(entries_map(after) =~= entries_map(before).insert(cell, value)) by {
                        assert forall|c: Cell| #[trigger] entries_map(after).dom().contains(c)
                            <==> entries_map(before).insert(cell, value).dom().contains(c) by {
                            if entries_map(after).dom().contains(c) {
                                let k = choose|k: int| 0 <= k < after.len() && after[k].0 == c;
                                assert(before[k].0 == c || k == i);
                            }
                            if entries_map(before).dom().contains(c) {
                                let k = choose|k: int| 0 <= k < before.len() && before[k].0 == c;
                                assert(after[k].0 == c || k == i);
                            }
                        }
                        assert forall|c: Cell| #[trigger] entries_map(after).dom().contains(c)
                            implies entries_map(after)[c] == entries_map(before).insert(
                            cell,
                            value,
                        )[c] by {
                            let k = choose|k: int| 0 <= k < after.len() && after[k].0 == c;
                            if k != i {
                                assert(before[k] == after[k]);
                            }
                        }
                    }
                }
                self.entries = entries;
                Some(old_value)
            },
            None => {
                entries.push((cell, value));
                proof {
                    let after = entries@;
                    assert(after.drop_last() =~= before);
                    assert(distinct_cells(after)) by {
                        assert forall|a: int, b: int| 0 <= a < b < after.len() implies after[a].0
                            != after[b].0 by {
                            if b < before.len() {
                                assert(before[a].0 != before[b].0);
                            } else {
                                assert(after[a] == before[a]);
                            }
                        }
                    }
                    assert(!entries_map(before).dom().contains(cell)) by {
                        if entries_map(before).dom().contains(cell) {
                            let k = choose|k: int| 0 <= k < before.len() && before[k].0 == cell;
                        }
                    }
                }
                self.entries = entries;
                None
            },
        }
    }

    /// The number of filled cells.
    pub fn len(&self) -> (r: usize)
        ensures
            r == self@.dom().len(),
            r == self.entry_list().len(),
    {
        proof {
            use_type_invariant(self);
            lemma_entries_map(self.entries@);
        }
        self.entries.len()
    }

    /// The `i`-th entry in the kept order.
    pub fn entry(&self, i: usize) -> (r: (&Cell, &T))
        requires
            i < self.entry_list().len(),
        ensures
            *r.0 == self.entry_list()[i as int].0,
            *r.1 == self.entry_list()[i as int].1,
    {
        (&self.entries[i].0, &self.entries[i].1)
    }
}


impl<T> Filling<T> {
    /// Empties `cell` and gives back the value it held.
    pub fn remove(&mut self, cell: &Cell) -> (r: Option<T>)
        ensures
            final(self)@ == old(self)@.remove(*cell),
            r == (if old(self)@.dom().contains(*cell) {
                Some(old(self)@[*cell])
            } else {
                None::<T>
            }),
    {
        proof {
            use_type_invariant(&*self);
            lemma_entries_map(self.entries@);
        }
        let ghost before = self.entries@;
        let found = self.find(cell);
        match found {
            Some(i) => {
                let mut entries: Vec<(Cell, T)> = Vec::new();
                std::mem::swap(&mut entries, &mut self.entries);
                let (_c, old_value) = entries.remove(i);
                proof {
                    let after = entries@;
                    assert(after =~= before.remove(i as int));
                    assert(distinct_cells(after)) by {
                        assert forall|a: int, b: int| 0 <= a < b < after.len() implies after[a].0
                            != after[b].0 by {
                            let a0 = if a < i { a } else { a + 1 };
                            let b0 = if b < i { b } else { b + 1 };
                            assert(after[a] == before[a0] && after[b] == before[b0]);
                        }
                    }
                    lemma_entries_map(after);
                    assert(entries_map(after) =~= entries_map(before).remove(*cell)) by {
                        assert forall|c: Cell| #[trigger] entries_map(after).dom().contains(c)
                            <==> entries_map(before).remove(*cell).dom().contains(c) by {
                            if entries_map(after).dom().contains(c) {
                                let k = choose|k: int| 0 <= k < after.len() && after[k].0 == c;
                                let k0 = if k < i { k } else { k + 1 };
                                assert(before[k0] == after[k]);
                                assert(k0 != i);
                            }
                            if entries_map(before).dom().contains(c) && c != *cell {
                                let k = choose|k: int| 0 <= k < before.len() && before[k].0 == c;
                                assert(k != i);
                                let k1 = if k < i { k } else { k - 1 };
                                assert(after[k1] == before[k]);
                            }
                        }
                        assert forall|c: Cell| #[trigger] entries_map(after).dom().contains(c)
                            implies entries_map(after)[c] == entries_map(before).remove(*cell)[c] by {
                            let k = choose|k: int| 0 <= k < after.len() && after[k].0 == c;
                            let k0 = if k < i { k } else { k + 1 };
                            assert(before[k0] == after[k]);
                        }
                    }
                }
                self.entries = entries;
                Some(old_value)
            },
            None => {
                proof {
                    assert(!entries_map(before).dom().contains(*cell)) by {
                        if entries_map(before).dom().contains(*cell) {
                            let k = choose|k: int| 0 <= k < before.len() && before[k].0 == *cell;
                        }
                    }
                    assert(entries_map(before).remove(*cell) =~= entries_map(before));
                }
                None
            },
        }
    }
}

impl<T: Copy> Clone for Filling<T> {
    fn clone(&self) -> (res: Self)
        ensures
            res@ == self@,
    {
        proof {
            use_type_invariant(self);
        }
        let mut entries: Vec<(Cell, T)> = Vec::new();
        let mut i: usize = 0;
        while i < self.entries.len()
            invariant
                i <= self.entries.len(),
                entries@ =~= self.entries@.take(i as int),
            decreases self.entries.len() - i,
        {
            let e = self.entries[i];
            entries.push(e);
            i = i + 1;
        }
        proof {
            assert(self.entries@.take(i as int) =~= self.entries@);
        }
        Filling { entries }
    }
}

} // verus!
