//! The per-year append-only row ledger.  Each year maps to a growable
//! sequence of date keys; a record's row index is its position in that
//! sequence and never changes once assigned.

use vstd::prelude::*;

verus! {

/// The rows recorded under `year`, or the empty sequence where the year
/// has never been seen.
pub open spec fn rows_or_empty(m: Map<u32, Seq<u64>>, year: u32) -> Seq<u64> {
    if m.dom().contains(year) {
        m[year]
    } else {
        Seq::empty()
    }
}

/// Per-year append-only sequences of date keys.  Appending returns the
/// new row's index; rows are never removed or reordered.
pub struct RowLedger {
    entries: Vec<(u32, Vec<u64>)>,
}

impl View for RowLedger {
    type V = Map<u32, Seq<u64>>;

    closed spec fn view(&self) -> Map<u32, Seq<u64>> {
        Map::new(
            |y: u32| exists|k: int| 0 <= k < self.entries@.len() && self.entries@[k].0 == y,
            |y: u32|
                self.entries@[choose|k: int|
                    0 <= k < self.entries@.len() && self.entries@[k].0 == y].1@,
        )
    }
}

impl RowLedger {
    /// Each year occurs at most once, so a year denotes one sequence.
    pub closed spec fn wf(&self) -> bool {
        forall|k1: int, k2: int|
            #![trigger self.entries@[k1], self.entries@[k2]]
            0 <= k1 < k2 < self.entries@.len() ==> self.entries@[k1].0 != self.entries@[k2].0
    }

    /// The entry at a valid position is what the view maps its year to.
    proof fn lemma_entry_is_view(&self, k: int)
        requires
            self.wf(),
            0 <= k < self.entries@.len(),
        ensures
            self@.dom().contains(self.entries@[k].0),
            self@[self.entries@[k].0] == self.entries@[k].1@,
    {
        let y = self.entries@[k].0;
        assert(0 <= k < self.entries@.len() && self.entries@[k].0 == y);
        assert(self@.dom().contains(y));
        let k2 = choose|k2: int| 0 <= k2 < self.entries@.len() && self.entries@[k2].0 == y;
        if k2 != k {
            assert(self.entries@[k2].0 != self.entries@[k].0);
            assert(false);
        }
    }

    /// A ledger with no years.
    pub fn new() -> (r: RowLedger)
        ensures
            r.wf(),
            r@ =~= Map::<u32, Seq<u64>>::empty(),
    {
        let r = RowLedger { entries: Vec::new() };
        proof {
            assert forall|y: u32| !r@.dom().contains(y) by {}
        }
        r
    }

    /// The position of the year's entry, if the year has been seen.
    fn find(&self, year: u32) -> (r: Option<usize>)
        requires
            self.wf(),
        ensures
            match r {
                Some(k) => k < self.entries@.len() && self.entries@[k as int].0 == year,
                None => !self@.dom().contains(year),
            },
    {
        let mut k: usize = 0;
        while k < self.entries.len()
            invariant
                k <= self.entries@.len(),
                forall|t: int| 0 <= t < k ==> (#[trigger] self.entries@[t]).0 != year,
            decreases self.entries@.len() - k,
        {
            if self.entries[k].0 == year {
                return Some(k);
            }
            k += 1;
        }
        None
    }

    /// Whether any record has been inserted under `year`.
    pub fn contains_year(&self, year: u32) -> (r: bool)
        requires
            self.wf(),
        ensures
            r == self@.dom().contains(year),
    {
        match self.find(year) {
            Some(k) => {
                proof {
                    self.lemma_entry_is_view(k as int);
                }
                true
            },
            None => false,
        }
    }

    /// How many rows the year holds; zero for a year never seen.
    pub fn row_count(&self, year: u32) -> (r: usize)
        requires
            self.wf(),
        ensures
            r == rows_or_empty(self@, year).len(),
    {
        match self.find(year) {
            Some(k) => {
                proof {
                    self.lemma_entry_is_view(k as int);
                }
                self.entries[k].1.len()
            },
            None => 0,
        }
    }

    /// The date key at `row` of `year`, or `None` where the row index is
    /// out of range for that year.
    pub fn resolve(&self, year: u32, row: usize) -> (r: Option<u64>)
        requires
            self.wf(),
        ensures
            r == (if row < rows_or_empty(self@, year).len() {
                Some(rows_or_empty(self@, year)[row as int])
            } else {
                None::<u64>
            }),
    {
        match self.find(year) {
            Some(k) => {
                proof {
                    self.lemma_entry_is_view(k as int);
                }
                let rows = &self.entries[k].1;
                if row < rows.len() {
                    Some(rows[row])
                } else {
                    None
                }
            },
            None => None,
        }
    }

    /// Appends `date_key` as the year's newest row and returns the new
    /// row's index, which equals the year's previous row count.  The
    /// year's entry is created on its first insert.
    pub fn append(&mut self, year: u32, date_key: u64) -> (r: usize)
        requires
            old(self).wf(),
        ensures
            final(self).wf(),
            final(self)@ =~= old(self)@.insert(
                year,
                rows_or_empty(old(self)@, year).push(date_key),
            ),
            r == rows_or_empty(old(self)@, year).len(),
            r < usize::MAX,
    {
        let found = self.find(year);
        match found {
            Some(k) => {
                proof {
                    self.lemma_entry_is_view(k as int);
                }
                let mut entry = self.entries.remove(k);
                entry.1.push(date_key);
                let r = entry.1.len() - 1;
                self.entries.push(entry);
                proof {
                    self.lemma_append_existing(*old(self), k as int, year, date_key);
                }
                r
            },
            None => {
                let mut rows: Vec<u64> = Vec::new();
                rows.push(date_key);
                self.entries.push((year, rows));
                proof {
                    let oldE = old(self).entries@;
                    let newE = self.entries@;
                    assert forall|k1: int, k2: int|
                        #![trigger newE[k1], newE[k2]]
                        0 <= k1 < k2 < newE.len() implies newE[k1].0 != newE[k2].0 by {
                        if k2 == newE.len() - 1 {
                            assert(newE[k1] == oldE[k1]);
                            assert(!old(self)@.dom().contains(year));
                        }
                    }
                    assert forall|y: u32|
                        self@.dom().contains(y) == (y == year || old(self)@.dom().contains(
                            y,
                        )) by {
                        if y == year {
                            assert(newE[newE.len() - 1].0 == year);
                            assert(self@.dom().contains(y));
                        } else {
                            if self@.dom().contains(y) {
                                let t = choose|t: int|
                                    0 <= t < newE.len() && newE[t].0 == y;
                                assert(oldE[t] == newE[t]);
                            }
                            if old(self)@.dom().contains(y) {
                                let t = choose|t: int|
                                    0 <= t < oldE.len() && oldE[t].0 == y;
                                assert(newE[t] == oldE[t]);
                            }
                        }
                    }
                    assert forall|y: u32| self@.dom().contains(y) implies self@[y] == (if y
                        == year {
                        rows_or_empty(old(self)@, year).push(date_key)
                    } else {
                        old(self)@[y]
                    }) by {
                        if y == year {
                            self.lemma_entry_is_view(newE.len() - 1);
                            assert(newE[newE.len() - 1].1@ =~= Seq::<u64>::empty().push(
                                date_key,
                            ));
                        } else {
                            let t = choose|t: int| 0 <= t < newE.len() && newE[t].0 == y;
                            self.lemma_entry_is_view(t);
                            assert(oldE[t] == newE[t]);
                            old(self).lemma_entry_is_view(t);
                        }
                    }
                    assert(self@ =~= old(self)@.insert(
                        year,
                        rows_or_empty(old(self)@, year).push(date_key),
                    ));
                }
                0
            },
        }
    }

    /// View change of an append that found the year at position `k`: the
    /// entry moves to the back with one more row; all else is unchanged.
    proof fn lemma_append_existing(&self, prev: RowLedger, k: int, year: u32, date_key: u64)
        requires
            prev.wf(),
            0 <= k < prev.entries@.len(),
            prev.entries@[k].0 == year,
            self.entries@.len() == prev.entries@.len(),
            forall|t: int|
                0 <= t < self.entries@.len() - 1 ==> #[trigger] self.entries@[t]
                    == prev.entries@.remove(k)[t],
            self.entries@[self.entries@.len() - 1].0 == year,
            self.entries@[self.entries@.len() - 1].1@ == prev.entries@[k].1@.push(date_key),
        ensures
            self.wf(),
            self@ =~= prev@.insert(year, rows_or_empty(prev@, year).push(date_key)),
    {
        let oldE = prev.entries@;
        let newE = self.entries@;
        let last = newE.len() - 1;
        prev.lemma_entry_is_view(k);
        assert forall|t: int| 0 <= t < last implies newE[t] == (if t < k {
            oldE[t]
        } else {
            oldE[t + 1]
        }) by {
            assert(newE[t] == oldE.remove(k)[t]);
            assert(oldE.remove(k)[t] == (if t < k {
                oldE[t]
            } else {
                oldE[t + 1]
            }));
        }
        assert forall|k1: int, k2: int|
            #![trigger newE[k1], newE[k2]]
            0 <= k1 < k2 < newE.len() implies newE[k1].0 != newE[k2].0 by {
            let o1 = if k1 < k {
                k1
            } else {
                k1 + 1
            };
            if k2 == last {
                assert(newE[k1] == oldE[o1]);
                assert(o1 != k);
                assert(oldE[o1].0 != oldE[k].0);
            } else {
                let o2 = if k2 < k {
                    k2
                } else {
                    k2 + 1
                };
                assert(newE[k1] == oldE[o1]);
                assert(newE[k2] == oldE[o2]);
                assert(oldE[o1].0 != oldE[o2].0);
            }
        }
        assert forall|y: u32|
            self@.dom().contains(y) == (y == year || prev@.dom().contains(y)) by {
            if y == year {
                assert(newE[last].0 == year);
                assert(self@.dom().contains(y));
                assert(oldE[k].0 == year);
            } else {
                if self@.dom().contains(y) {
                    let t = choose|t: int| 0 <= t < newE.len() && newE[t].0 == y;
                    let o = if t < k {
                        t
                    } else {
                        t + 1
                    };
                    assert(t != last);
                    assert(oldE[o] == newE[t]);
                }
                if prev@.dom().contains(y) {
                    let o = choose|o: int| 0 <= o < oldE.len() && oldE[o].0 == y;
                    assert(o != k);
                    let t = if o < k {
                        o
                    } else {
                        o - 1
                    };
                    assert(newE[t] == oldE[o]);
                }
            }
        }
        assert forall|y: u32| self@.dom().contains(y) implies self@[y] == (if y == year {
            rows_or_empty(prev@, year).push(date_key)
        } else {
            prev@[y]
        }) by {
            if y == year {
                self.lemma_entry_is_view(last);
                assert(newE[last].1@ == oldE[k].1@.push(date_key));
            } else {
                let t = choose|t: int| 0 <= t < newE.len() && newE[t].0 == y;
                self.lemma_entry_is_view(t);
                assert(t != last);
                let o = if t < k {
                    t
                } else {
                    t + 1
                };
                assert(oldE[o] == newE[t]);
                prev.lemma_entry_is_view(o);
            }
        }
        assert(self@ =~= prev@.insert(year, rows_or_empty(prev@, year).push(date_key)));
    }
}

} // verus!
