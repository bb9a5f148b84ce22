//! The tag index: one growable bit set per (year, field, tag value),
//! recording which rows of the year carry that tag.  Entries are created
//! lazily on a tag's first occurrence and only ever gain bits.

use crate::bitmap::{bit_of, with_bit, BitMap};
use crate::text::{split_whitespace_tokens, tokens_of};
use vstd::prelude::*;

verus! {

/// The bits stored under (year, field, value), or the empty bit sequence
/// where that key has never been indexed.
pub open spec fn bits_or_empty(
    m: Map<(u32, Seq<char>, Seq<char>), Seq<bool>>,
    year: u32,
    field: Seq<char>,
    value: Seq<char>,
) -> Seq<bool> {
    if m.dom().contains((year, field, value)) {
        m[(year, field, value)]
    } else {
        Seq::empty()
    }
}

/// One tag's update: the key's bit set gains bit `row`.
pub open spec fn add_tag_spec(
    m: Map<(u32, Seq<char>, Seq<char>), Seq<bool>>,
    year: u32,
    field: Seq<char>,
    value: Seq<char>,
    row: int,
) -> Map<(u32, Seq<char>, Seq<char>), Seq<bool>> {
    m.insert((year, field, value), with_bit(bits_or_empty(m, year, field, value), row))
}

/// Indexing a list of tokens in order under one field: each token's bit
/// set gains bit `row`.
pub open spec fn index_tokens_spec(
    m: Map<(u32, Seq<char>, Seq<char>), Seq<bool>>,
    year: u32,
    field: Seq<char>,
    toks: Seq<Seq<char>>,
    row: int,
) -> Map<(u32, Seq<char>, Seq<char>), Seq<bool>>
    decreases toks.len(),
{
    if toks.len() == 0 {
        m
    } else {
        index_tokens_spec(
            add_tag_spec(m, year, field, toks[0], row),
            year,
            field,
            toks.drop_first(),
            row,
        )
    }
}

struct TagEntry {
    year: u32,
    field: String,
    value: String,
    bits: BitMap,
}

spec fn entry_key(e: TagEntry) -> (u32, Seq<char>, Seq<char>) {
    (e.year, e.field@, e.value@)
}

/// Maps (year, field, tag value) to the bit set of the year's rows that
/// carry the tag.
pub struct TagIndex {
    entries: Vec<TagEntry>,
}

impl View for TagIndex {
    type V = Map<(u32, Seq<char>, Seq<char>), Seq<bool>>;

    closed spec fn view(&self) -> Map<(u32, Seq<char>, Seq<char>), Seq<bool>> {
        Map::new(
            |key: (u32, Seq<char>, Seq<char>)|
                exists|k: int|
                    0 <= k < self.entries@.len() && entry_key(#[trigger] self.entries@[k])
                        == key,
            |key: (u32, Seq<char>, Seq<char>)|
                self.entries@[choose|k: int|
                    0 <= k < self.entries@.len() && entry_key(#[trigger] self.entries@[k])
                        == key].bits@,
        )
    }
}

impl TagIndex {
    /// Keys are pairwise distinct and every stored bit set is canonical.
    pub closed spec fn wf(&self) -> bool {
        &&& forall|k1: int, k2: int|
            #![trigger self.entries@[k1], self.entries@[k2]]
            0 <= k1 < k2 < self.entries@.len() ==> entry_key(self.entries@[k1]) != entry_key(
                self.entries@[k2],
            )
        &&& forall|k: int|
            0 <= k < self.entries@.len() ==> (#[trigger] self.entries@[k]).bits.wf()
    }

    /// The entry at a valid position is what the view maps its key to.
    proof fn lemma_entry_is_view(&self, k: int)
        requires
            self.wf(),
            0 <= k < self.entries@.len(),
        ensures
            self@.dom().contains(entry_key(self.entries@[k])),
            self@[entry_key(self.entries@[k])] == self.entries@[k].bits@,
    {
        let key = entry_key(self.entries@[k]);
        assert(0 <= k < self.entries@.len() && entry_key(self.entries@[k]) == key);
        assert(self@.dom().contains(key));
        let k2 = choose|k2: int|
            0 <= k2 < self.entries@.len() && entry_key(self.entries@[k2]) == key;
        if k2 != k {
            assert(entry_key(self.entries@[k2]) != entry_key(self.entries@[k]));
            assert(false);
        }
    }

    /// An index with no entries.
    pub fn new() -> (r: TagIndex)
        ensures
            r.wf(),
            r@ =~= Map::<(u32, Seq<char>, Seq<char>), Seq<bool>>::empty(),
    {
        TagIndex { entries: Vec::new() }
    }

    /// The position of the key's entry, if the key has been indexed.
    fn find(&self, year: u32, field: &String, value: &String) -> (r: Option<usize>)
        requires
            self.wf(),
        ensures
            match r {
                Some(k) => k < self.entries@.len() && entry_key(self.entries@[k as int]) == (
                    year,
                    field@,
                    value@,
                ),
                None => !self@.dom().contains((year, field@, value@)),
            },
    {
        let mut k: usize = 0;
        while k < self.entries.len()
            invariant
                k <= self.entries@.len(),
                forall|t: int|
                    0 <= t < k ==> entry_key(#[trigger] self.entries@[t]) != (
                        year,
                        field@,
                        value@,
                    ),
            decreases self.entries@.len() - k,
        {
            let e = &self.entries[k];
            if e.year == year && e.field.eq(field) && e.value.eq(value) {
                return Some(k);
            }
            k += 1;
        }
        None
    }

    /// The stored bit set for (year, field, value), or an empty bit set
    /// where the key has never been indexed: absence only means that no
    /// row carries the tag.
    pub fn lookup(&self, year: u32, field: &str, value: &str) -> (r: BitMap)
        requires
            self.wf(),
        ensures
            r.wf(),
            r@ == bits_or_empty(self@, year, field@, value@),
    {
        let f = field.to_owned();
        let v = value.to_owned();
        match self.find(year, &f, &v) {
            Some(k) => {
                proof {
                    self.lemma_entry_is_view(k as int);
                }
                self.entries[k].bits.clone()
            },
            None => BitMap::new(),
        }
    }

    /// Sets bit `row` in the key's bit set, creating the entry on the
    /// key's first occurrence.
    pub fn add_tag(&mut self, year: u32, field: &str, value: &str, row: usize)
        requires
            old(self).wf(),
            row < usize::MAX,
        ensures
            final(self).wf(),
            final(self)@ =~= add_tag_spec(old(self)@, year, field@, value@, row as int),
    {
        let f = field.to_owned();
        let v = value.to_owned();
        let found = self.find(year, &f, &v);
        match found {
            Some(k) => {
                proof {
                    self.lemma_entry_is_view(k as int);
                }
                let mut entry = self.entries.remove(k);
                entry.bits.set(row);
                self.entries.push(entry);
                proof {
                    self.lemma_update_existing(*old(self), k as int);
                    assert(self@ =~= add_tag_spec(old(self)@, year, field@, value@, row as int));
                }
            },
            None => {
                let mut bits = BitMap::new();
                bits.set(row);
                self.entries.push(TagEntry { year, field: f, value: v, bits });
                proof {
                    let oldE = old(self).entries@;
                    let newE = self.entries@;
                    let key = (year, field@, value@);
                    assert forall|k1: int, k2: int|
                        #![trigger newE[k1], newE[k2]]
                        0 <= k1 < k2 < newE.len() implies entry_key(newE[k1]) != entry_key(
                        newE[k2],
                    ) by {
                        if k2 == newE.len() - 1 {
                            assert(newE[k1] == oldE[k1]);
                            assert(!old(self)@.dom().contains(key));
                        }
                    }
                    assert forall|key2: (u32, Seq<char>, Seq<char>)|
                        self@.dom().contains(key2) == (key2 == key || old(self)@.dom().contains(
                            key2,
                        )) by {
                        if key2 == key {
                            assert(entry_key(newE[newE.len() - 1]) == key);
                            assert(self@.dom().contains(key2));
                        } else {
                            if self@.dom().contains(key2) {
                                let t = choose|t: int|
                                    0 <= t < newE.len() && entry_key(#[trigger] newE[t])
                                        == key2;
                                assert(oldE[t] == newE[t]);
                            }
                            if old(self)@.dom().contains(key2) {
                                let t = choose|t: int|
                                    0 <= t < oldE.len() && entry_key(#[trigger] oldE[t])
                                        == key2;
                                assert(newE[t] == oldE[t]);
                            }
                        }
                    }
                    assert forall|key2: (u32, Seq<char>, Seq<char>)|
                        self@.dom().contains(key2) implies self@[key2] == (if key2 == key {
                        with_bit(bits_or_empty(old(self)@, year, field@, value@), row as int)
                    } else {
                        old(self)@[key2]
                    }) by {
                        if key2 == key {
                            self.lemma_entry_is_view(newE.len() - 1);
                        } else {
                            let t = choose|t: int|
                                0 <= t < newE.len() && entry_key(#[trigger] newE[t]) == key2;
                            self.lemma_entry_is_view(t);
                            assert(oldE[t] == newE[t]);
                            old(self).lemma_entry_is_view(t);
                        }
                    }
                    assert(self@ =~= add_tag_spec(old(self)@, year, field@, value@, row as int));
                }
            },
        }
    }

    /// View change of an update that found the key at position `k`: the
    /// entry moves to the back with a new well-formed bit set; all else
    /// is unchanged.
    proof fn lemma_update_existing(&self, prev: TagIndex, k: int)
        requires
            prev.wf(),
            0 <= k < prev.entries@.len(),
            self.entries@.len() == prev.entries@.len(),
            forall|t: int|
                0 <= t < self.entries@.len() - 1 ==> #[trigger] self.entries@[t]
                    == prev.entries@.remove(k)[t],
            entry_key(self.entries@[self.entries@.len() - 1]) == entry_key(prev.entries@[k]),
            self.entries@[self.entries@.len() - 1].bits.wf(),
        ensures
            self.wf(),
            self@ =~= prev@.insert(
                entry_key(prev.entries@[k]),
                self.entries@[self.entries@.len() - 1].bits@,
            ),
    {
        let oldE = prev.entries@;
        let newE = self.entries@;
        let last = newE.len() - 1;
        let key = entry_key(oldE[k]);
        prev.lemma_entry_is_view(k);
        assert forall|t: int| 0 <= t < last implies newE[t] == (if t < k {
            oldE[t]
        } else {
            oldE[t + 1]
        }) by {
            assert(newE[t] == oldE.remove(k)[t]);
            assert(oldE.remove(k)[t] == (if t < k {
                oldE[t]
            } else {
                oldE[t + 1]
            }));
        }
        assert forall|k1: int, k2: int|
            #![trigger newE[k1], newE[k2]]
            0 <= k1 < k2 < newE.len() implies entry_key(newE[k1]) != entry_key(newE[k2]) by {
            let o1 = if k1 < k {
                k1
            } else {
                k1 + 1
            };
            if k2 == last {
                assert(newE[k1] == oldE[o1]);
                assert(o1 != k);
                assert(entry_key(oldE[o1]) != entry_key(oldE[k]));
            } else {
                let o2 = if k2 < k {
                    k2
                } else {
                    k2 + 1
                };
                assert(newE[k1] == oldE[o1]);
                assert(newE[k2] == oldE[o2]);
                assert(entry_key(oldE[o1]) != entry_key(oldE[o2]));
            }
        }
        assert forall|key2: (u32, Seq<char>, Seq<char>)|
            self@.dom().contains(key2) == (key2 == key || prev@.dom().contains(key2)) by {
            if key2 == key {
                assert(entry_key(newE[last]) == key);
                assert(self@.dom().contains(key2));
            } else {
                if self@.dom().contains(key2) {
                    let t = choose|t: int|
                        0 <= t < newE.len() && entry_key(#[trigger] newE[t]) == key2;
                    let o = if t < k {
                        t
                    } else {
                        t + 1
                    };
                    assert(t != last);
                    assert(oldE[o] == newE[t]);
                }
                if prev@.dom().contains(key2) {
                    let o = choose|o: int|
                        0 <= o < oldE.len() && entry_key(#[trigger] oldE[o]) == key2;
                    assert(o != k);
                    let t = if o < k {
                        o
                    } else {
                        o - 1
                    };
                    assert(newE[t] == oldE[o]);
                }
            }
        }
        assert forall|key2: (u32, Seq<char>, Seq<char>)|
            self@.dom().contains(key2) implies self@[key2] == (if key2 == key {
            newE[last].bits@
        } else {
            prev@[key2]
        }) by {
            if key2 == key {
                self.lemma_entry_is_view(last);
            } else {
                let t = choose|t: int|
                    0 <= t < newE.len() && entry_key(#[trigger] newE[t]) == key2;
                self.lemma_entry_is_view(t);
                assert(t != last);
                let o = if t < k {
                    t
                } else {
                    t + 1
                };
                assert(oldE[o] == newE[t]);
                prev.lemma_entry_is_view(o);
            }
        }
        assert(self@ =~= prev@.insert(key, newE[last].bits@));
    }

    /// Stores a whole bit set under (year, field, value), replacing any
    /// previous one: how a loaded entry is put back into an index.
    pub fn insert_entry(&mut self, year: u32, field: &str, value: &str, bits: BitMap)
        requires
            old(self).wf(),
            bits.wf(),
        ensures
            final(self).wf(),
            final(self)@ =~= old(self)@.insert((year, field@, value@), bits@),
    {
        let f = field.to_owned();
        let v = value.to_owned();
        let found = self.find(year, &f, &v);
        match found {
            Some(k) => {
                proof {
                    self.lemma_entry_is_view(k as int);
                }
                let mut entry = self.entries.remove(k);
                entry.bits = bits;
                self.entries.push(entry);
                proof {
                    self.lemma_update_existing(*old(self), k as int);
                }
            },
            None => {
                self.entries.push(TagEntry { year, field: f, value: v, bits });
                proof {
                    let oldE = old(self).entries@;
                    let newE = self.entries@;
                    let key = (year, field@, value@);
                    assert forall|k1: int, k2: int|
                        #![trigger newE[k1], newE[k2]]
                        0 <= k1 < k2 < newE.len() implies entry_key(newE[k1]) != entry_key(
                        newE[k2],
                    ) by {
                        if k2 == newE.len() - 1 {
                            assert(newE[k1] == oldE[k1]);
                            assert(!old(self)@.dom().contains(key));
                        }
                    }
                    assert forall|key2: (u32, Seq<char>, Seq<char>)|
                        self@.dom().contains(key2) == (key2 == key || old(self)@.dom().contains(
                            key2,
                        )) by {
                        if key2 == key {
                            assert(entry_key(newE[newE.len() - 1]) == key);
                            assert(self@.dom().contains(key2));
                        } else {
                            if self@.dom().contains(key2) {
                                let t = choose|t: int|
                                    0 <= t < newE.len() && entry_key(#[trigger] newE[t])
                                        == key2;
                                assert(oldE[t] == newE[t]);
                            }
                            if old(self)@.dom().contains(key2) {
                                let t = choose|t: int|
                                    0 <= t < oldE.len() && entry_key(#[trigger] oldE[t])
                                        == key2;
                                assert(newE[t] == oldE[t]);
                            }
                        }
                    }
                    assert forall|key2: (u32, Seq<char>, Seq<char>)|
                        self@.dom().contains(key2) implies self@[key2] == (if key2 == key {
                        newE[newE.len() - 1].bits@
                    } else {
                        old(self)@[key2]
                    }) by {
                        if key2 == key {
                            self.lemma_entry_is_view(newE.len() - 1);
                        } else {
                            let t = choose|t: int|
                                0 <= t < newE.len() && entry_key(#[trigger] newE[t]) == key2;
                            self.lemma_entry_is_view(t);
                            assert(oldE[t] == newE[t]);
                            old(self).lemma_entry_is_view(t);
                        }
                    }
                    assert(self@ =~= old(self)@.insert(key, bits@));
                }
            },
        }
    }

    /// Splits `tags` on whitespace and sets bit `row` for every resulting
    /// token under (year, field).  This is the sole ingestion path; a tag
    /// string with no tokens indexes nothing.
    pub fn tokenize_and_index(&mut self, year: u32, field: &str, tags: &str, row: usize)
        requires
            old(self).wf(),
            row < usize::MAX,
        ensures
            final(self).wf(),
            final(self)@ =~= index_tokens_spec(
                old(self)@,
                year,
                field@,
                tokens_of(tags@),
                row as int,
            ),
    {
        let toks = split_whitespace_tokens(tags);
        let ghost full = tokens_of(tags@);
        let mut j: usize = 0;
        proof {
            assert(full.skip(0) =~= full);
        }
        while j < toks.len()
            invariant
                self.wf(),
                j <= toks@.len(),
                toks@.map_values(|t: String| t@) == full,
                row < usize::MAX,
                index_tokens_spec(self@, year, field@, full.skip(j as int), row as int)
                    == index_tokens_spec(old(self)@, year, field@, full, row as int),
            decreases toks@.len() - j,
        {
            let ghost before = self@;
            let tok = &toks[j];
            self.add_tag(year, field, tok.as_str(), row);
            proof {
                let rest = full.skip(j as int);
                assert(rest[0] == full[j as int]);
                assert(full[j as int] == toks@[j as int]@);
                assert(rest.drop_first() =~= full.skip(j as int + 1));
                assert(self@ =~= add_tag_spec(before, year, field@, rest[0], row as int));
                assert(index_tokens_spec(before, year, field@, rest, row as int)
                    == index_tokens_spec(self@, year, field@, rest.drop_first(), row as int));
            }
            j += 1;
        }
        proof {
            assert(full.skip(toks@.len() as int) =~= Seq::<Seq<char>>::empty());
        }
    }
}

/// For every token in the list, indexing the list under (year, field)
/// leaves the token's bit set with bit `row` set; no other row's bit
/// changes anywhere in the index; keys outside the list are untouched;
/// and a bit already set at `row` stays set.
pub proof fn lemma_index_tokens_complete(
    m: Map<(u32, Seq<char>, Seq<char>), Seq<bool>>,
    year: u32,
    field: Seq<char>,
    toks: Seq<Seq<char>>,
    row: int,
)
    requires
        0 <= row,
    ensures
        forall|t: int|
            0 <= t < toks.len() ==> bit_of(
                bits_or_empty(
                    index_tokens_spec(m, year, field, toks, row),
                    year,
                    field,
                    #[trigger] toks[t],
                ),
                row,
            ),
        forall|y2: u32, f2: Seq<char>, v2: Seq<char>, j: int|
            #![trigger bit_of(bits_or_empty(index_tokens_spec(m, year, field, toks, row), y2, f2, v2), j)]
            j != row ==> bit_of(
                bits_or_empty(index_tokens_spec(m, year, field, toks, row), y2, f2, v2),
                j,
            ) == bit_of(bits_or_empty(m, y2, f2, v2), j),
        forall|y2: u32, f2: Seq<char>, v2: Seq<char>|
            !(y2 == year && f2 == field && toks.contains(v2)) ==> #[trigger] bits_or_empty(
                index_tokens_spec(m, year, field, toks, row),
                y2,
                f2,
                v2,
            ) == bits_or_empty(m, y2, f2, v2),
        forall|y2: u32, f2: Seq<char>, v2: Seq<char>|
            bit_of(bits_or_empty(m, y2, f2, v2), row) ==> bit_of(
                #[trigger] bits_or_empty(
                    index_tokens_spec(m, year, field, toks, row),
                    y2,
                    f2,
                    v2,
                ),
                row,
            ),
    decreases toks.len(),
{
    if toks.len() == 0 {
    } else {
        let m1 = add_tag_spec(m, year, field, toks[0], row);
        let rest = toks.drop_first();
        lemma_index_tokens_complete(m1, year, field, rest, row);
        let result = index_tokens_spec(m, year, field, toks, row);
        assert(result == index_tokens_spec(m1, year, field, rest, row));
        assert(bit_of(bits_or_empty(m1, year, field, toks[0]), row));
        assert forall|t: int|
            0 <= t < toks.len() implies bit_of(
            bits_or_empty(result, year, field, #[trigger] toks[t]),
            row,
        ) by {
            if t == 0 {
                assert(bit_of(bits_or_empty(m1, year, field, toks[0]), row));
            } else {
                assert(toks[t] == rest[t - 1]);
            }
        }
        assert forall|y2: u32, f2: Seq<char>, v2: Seq<char>|
            !(y2 == year && f2 == field && toks.contains(v2)) implies #[trigger] bits_or_empty(
            result,
            y2,
            f2,
            v2,
        ) == bits_or_empty(m, y2, f2, v2) by {
            if y2 == year && f2 == field {
                assert(!rest.contains(v2)) by {
                    if rest.contains(v2) {
                        let t = choose|t: int| 0 <= t < rest.len() && rest[t] == v2;
                        assert(toks[t + 1] == v2);
                    }
                }
                assert(v2 != toks[0]) by {
                    if v2 == toks[0] {
                        assert(toks.contains(v2));
                    }
                }
            }
            assert(bits_or_empty(m1, y2, f2, v2) == bits_or_empty(m, y2, f2, v2));
        }
    }
}

} // verus!
