//! Insertion and predicate evaluation over the row ledger and the tag
//! index.  A query starts from an all-ones universe of
//! `MAX_ROWS_PER_YEAR` bits, folds each predicate's bit set into it in
//! order, and resolves the surviving row indices to date keys.

use crate::bitmap::{bit_of, ones_of, BitMap};
use crate::index::{bits_or_empty, index_tokens_spec, lemma_index_tokens_complete, TagIndex};
use crate::ledger::{rows_or_empty, RowLedger};
use crate::msg::Predicate;
use crate::text::tokens_of;
use crate::types::Lunar;
use vstd::prelude::*;

verus! {

/// Upper bound on rows per year: one record per calendar day, leap years
/// included.
pub const MAX_ROWS_PER_YEAR: usize = 366;

/// Why an evaluation returned no rows.
#[derive(Clone, Copy, Debug, PartialEq, Eq, Structural)]
pub enum EvalError {
    /// The year has no ledger entry.
    YearNotFound,
    /// A bit set looked up for the query carried a row at or beyond the
    /// year's ledger: the index and the ledger diverged.  Fatal for the
    /// call, raised fast, never silently skipped.
    RowResolutionFault,
}

/// Whether row `j` carries at least one of the listed (field, value)
/// tags of `year`.
pub open spec fn group_bit(
    m: Map<(u32, Seq<char>, Seq<char>), Seq<bool>>,
    year: u32,
    pairs: Seq<(String, String)>,
    j: int,
) -> bool {
    exists|k: int|
        0 <= k < pairs.len() && bit_of(
            bits_or_empty(m, year, (#[trigger] pairs[k]).0@, pairs[k].1@),
            j,
        )
}

/// The (field, value) pairs a predicate names.
pub open spec fn pairs_of(p: Predicate) -> Seq<(String, String)> {
    match p {
        Predicate::And(pairs) => pairs@,
        Predicate::AndNot(pairs) => pairs@,
    }
}

/// Whether the index and the ledger have diverged for this query: some
/// bit set looked up for the predicates' (field, value) pairs has a set
/// bit at or beyond the year's row count `rc`.
pub open spec fn index_diverged(
    m: Map<(u32, Seq<char>, Seq<char>), Seq<bool>>,
    year: u32,
    preds: Seq<Predicate>,
    rc: int,
) -> bool {
    exists|p: int, j: int|
        #![trigger group_bit(m, year, pairs_of(preds[p]), j)]
        0 <= p < preds.len() && rc <= j && group_bit(m, year, pairs_of(preds[p]), j)
}

/// Whether row `j` satisfies the predicate.
pub open spec fn pred_holds(
    m: Map<(u32, Seq<char>, Seq<char>), Seq<bool>>,
    year: u32,
    p: Predicate,
    j: int,
) -> bool {
    match p {
        Predicate::And(pairs) => group_bit(m, year, pairs@, j),
        Predicate::AndNot(pairs) => !group_bit(m, year, pairs@, j),
    }
}

/// Whether universe row `j` survives the whole predicate list.
pub open spec fn survives(
    m: Map<(u32, Seq<char>, Seq<char>), Seq<bool>>,
    year: u32,
    preds: Seq<Predicate>,
    j: int,
) -> bool {
    &&& 0 <= j < MAX_ROWS_PER_YEAR
    &&& forall|p: int| 0 <= p < preds.len() ==> pred_holds(m, year, #[trigger] preds[p], j)
}

/// The rows an evaluation resolves: universe rows that survive every
/// predicate and exist in the year's ledger of `rc` rows.  Universe
/// bits at or beyond `rc` stand for no record and are dropped.
pub open spec fn resolved_bits(
    m: Map<(u32, Seq<char>, Seq<char>), Seq<bool>>,
    year: u32,
    preds: Seq<Predicate>,
    rc: int,
) -> Seq<bool> {
    Seq::new(MAX_ROWS_PER_YEAR as nat, |j: int| survives(m, year, preds, j) && j < rc)
}

/// The OR of the stored bit sets of all listed (field, value) pairs: the
/// rows carrying at least one of the group's tags.
fn match_any(index: &TagIndex, year: u32, any_of: &Vec<(String, String)>) -> (r: BitMap)
    requires
        index.wf(),
    ensures
        r.wf(),
        forall|j: int| #[trigger] bit_of(r@, j) == group_bit(index@, year, any_of@, j),
{
    let mut bm = BitMap::new();
    let mut k: usize = 0;
    proof {
        assert forall|j: int| !#[trigger] bit_of(bm@, j) by {}
    }
    while k < any_of.len()
        invariant
            index.wf(),
            bm.wf(),
            k <= any_of@.len(),
            forall|j: int|
                #[trigger] bit_of(bm@, j) == group_bit(index@, year, any_of@.take(k as int), j),
        decreases any_of@.len() - k,
    {
        let ghost prev = bm@;
        let pair = &any_of[k];
        let g = index.lookup(year, pair.0.as_str(), pair.1.as_str());
        bm.or(g);
        proof {
            let pre = any_of@.take(k as int);
            let pre1 = any_of@.take(k as int + 1);
            assert forall|j: int|
                #[trigger] bit_of(bm@, j) == group_bit(index@, year, pre1, j) by {
                assert(bit_of(bm@, j) == (bit_of(prev, j) || bit_of(g@, j)));
                if bit_of(bm@, j) {
                    if bit_of(prev, j) {
                        let t = choose|t: int|
                            0 <= t < pre.len() && bit_of(
                                bits_or_empty(index@, year, (#[trigger] pre[t]).0@, pre[t].1@),
                                j,
                            );
                        assert(pre1[t] == pre[t]);
                        assert(group_bit(index@, year, pre1, j));
                    } else {
                        assert(pre1[k as int] == any_of@[k as int]);
                        assert(group_bit(index@, year, pre1, j));
                    }
                } else {
                    if group_bit(index@, year, pre1, j) {
                        let t = choose|t: int|
                            0 <= t < pre1.len() && bit_of(
                                bits_or_empty(
                                    index@,
                                    year,
                                    (#[trigger] pre1[t]).0@,
                                    pre1[t].1@,
                                ),
                                j,
                            );
                        if t < k as int {
                            assert(pre[t] == pre1[t]);
                            assert(group_bit(index@, year, pre, j));
                        } else {
                            assert(pre1[t] == any_of@[k as int]);
                            assert(bit_of(g@, j));
                        }
                    }
                }
            }
        }
        k += 1;
    }
    proof {
        assert(any_of@.take(any_of@.len() as int) =~= any_of@);
    }
    bm
}

/// Evaluates an ordered predicate list against a year.
///
/// Fails with `YearNotFound` exactly where the year has no ledger entry.
/// Each predicate's group bit set is checked against the year's row
/// count: a set bit at or beyond it means the index and the ledger have
/// diverged, and the call fails fast with `RowResolutionFault`.
/// Otherwise the all-ones universe is folded with each group — AND for
/// inclusion, AND-NOT for exclusion — the result is intersected with the
/// year's row range (universe bits beyond the rows stand for no record
/// and are dropped), and every surviving row is resolved to its date
/// key, in ascending row order.
pub fn evaluate(
    ledger: &RowLedger,
    index: &TagIndex,
    year: u32,
    predicates: &Vec<Predicate>,
) -> (r: Result<Vec<u64>, EvalError>)
    requires
        ledger.wf(),
        index.wf(),
    ensures
        !ledger@.dom().contains(year) ==> r == Err::<Vec<u64>, EvalError>(
            EvalError::YearNotFound,
        ),
        ledger@.dom().contains(year) && index_diverged(
            index@,
            year,
            predicates@,
            ledger@[year].len() as int,
        ) ==> r == Err::<Vec<u64>, EvalError>(EvalError::RowResolutionFault),
        ledger@.dom().contains(year) && !index_diverged(
            index@,
            year,
            predicates@,
            ledger@[year].len() as int,
        ) ==> (r matches Ok(v) && v@ == ones_of(
            resolved_bits(index@, year, predicates@, ledger@[year].len() as int),
        ).map_values(|j: int| ledger@[year][j])),
{
    if !ledger.contains_year(year) {
        return Err(EvalError::YearNotFound);
    }
    let rc = ledger.row_count(year);
    let mut running = BitMap::ones(MAX_ROWS_PER_YEAR);
    let mut p: usize = 0;
    while p < predicates.len()
        invariant
            ledger.wf(),
            index.wf(),
            running.wf(),
            ledger@.dom().contains(year),
            rc == ledger@[year].len(),
            p <= predicates@.len(),
            forall|j: int|
                #[trigger] bit_of(running@, j) == (0 <= j < MAX_ROWS_PER_YEAR && forall|q: int|
                    0 <= q < p ==> pred_holds(index@, year, #[trigger] predicates@[q], j)),
            forall|q: int, j: int|
                #![trigger group_bit(index@, year, pairs_of(predicates@[q]), j)]
                0 <= q < p && rc <= j ==> !group_bit(index@, year, pairs_of(predicates@[q]), j),
        decreases predicates@.len() - p,
    {
        let ghost prev = running@;
        let pred = &predicates[p];
        let any_of = match pred {
            Predicate::And(pairs) => pairs,
            Predicate::AndNot(pairs) => pairs,
        };
        let g = match_any(index, year, any_of);
        let ghost gv = g@;
        proof {
            assert(pairs_of(predicates@[p as int]) == any_of@);
        }
        if g.has_bit_at_or_above(rc) {
            proof {
                let j = choose|j: int| rc <= j && bit_of(gv, j);
                assert(group_bit(index@, year, pairs_of(predicates@[p as int]), j));
                assert(index_diverged(index@, year, predicates@, rc as int));
            }
            return Err(EvalError::RowResolutionFault);
        }
        match pred {
            Predicate::And(_) => {
                running.and(g);
                proof {
                    assert forall|j: int|
                        #[trigger] bit_of(running@, j) == (bit_of(prev, j) && pred_holds(
                            index@,
                            year,
                            predicates@[p as int],
                            j,
                        )) by {
                        assert(bit_of(running@, j) == (bit_of(prev, j) && bit_of(gv, j)));
                    }
                }
            },
            Predicate::AndNot(_) => {
                running.and_not(g);
                proof {
                    assert forall|j: int|
                        #[trigger] bit_of(running@, j) == (bit_of(prev, j) && pred_holds(
                            index@,
                            year,
                            predicates@[p as int],
                            j,
                        )) by {
                        assert(bit_of(running@, j) == (bit_of(prev, j) && !bit_of(gv, j)));
                    }
                }
            },
        }
        proof {
            assert forall|q: int, j: int|
                #![trigger group_bit(index@, year, pairs_of(predicates@[q]), j)]
                0 <= q < p + 1 && rc <= j implies !group_bit(
                index@,
                year,
                pairs_of(predicates@[q]),
                j,
            ) by {
                if q == p {
                    assert(!bit_of(gv, j));
                    assert(group_bit(index@, year, any_of@, j) == bit_of(gv, j));
                }
            }
            assert forall|j: int|
                #[trigger] bit_of(running@, j) == (0 <= j < MAX_ROWS_PER_YEAR && forall|q: int|
                    0 <= q < p + 1 ==> pred_holds(index@, year, #[trigger] predicates@[q], j)) by {
                if bit_of(running@, j) {
                    assert(bit_of(prev, j));
                    assert forall|q: int|
                        0 <= q < p + 1 implies pred_holds(
                        index@,
                        year,
                        #[trigger] predicates@[q],
                        j,
                    ) by {
                        if q < p {
                            assert(pred_holds(index@, year, predicates@[q], j));
                        }
                    }
                } else {
                    if 0 <= j < MAX_ROWS_PER_YEAR && forall|q: int|
                        0 <= q < p + 1 ==> pred_holds(index@, year, #[trigger] predicates@[q], j) {
                        assert(pred_holds(index@, year, predicates@[p as int], j));
                        assert(bit_of(prev, j));
                        assert(false);
                    }
                }
            }
        }
        p += 1;
    }
    proof {
        if index_diverged(index@, year, predicates@, rc as int) {
            let (p0, j0) = choose|p0: int, j0: int|
                #![trigger group_bit(index@, year, pairs_of(predicates@[p0]), j0)]
                0 <= p0 < predicates@.len() && rc <= j0 && group_bit(
                    index@,
                    year,
                    pairs_of(predicates@[p0]),
                    j0,
                );
            assert(!group_bit(index@, year, pairs_of(predicates@[p0]), j0));
            assert(false);
        }
    }
    running.and(BitMap::ones(rc));
    let ghost bits = resolved_bits(index@, year, predicates@, rc as int);
    let ghost js = ones_of(bits);
    proof {
        assert forall|j: int| bit_of(running@, j) == bit_of(bits, j) by {
            if 0 <= j < MAX_ROWS_PER_YEAR {
                assert(bit_of(bits, j) == (survives(index@, year, predicates@, j) && j < rc));
            }
        }
        crate::bitmap::lemma_ones_of_ext(running@, bits);
    }
    let idxs = running.iter_ones();
    let ghost rows = ledger@[year];
    let mut out: Vec<u64> = Vec::new();
    let mut t: usize = 0;
    while t < idxs.len()
        invariant
            ledger.wf(),
            ledger@.dom().contains(year),
            rows == ledger@[year],
            rows.len() == rc,
            js == ones_of(resolved_bits(index@, year, predicates@, rc as int)),
            t <= idxs@.len(),
            idxs@.map_values(|u: usize| u as int) == js,
            out@.len() == t,
            forall|m: int| 0 <= m < t ==> out@[m] == rows[#[trigger] idxs@[m] as int],
        decreases idxs@.len() - t,
    {
        let idx = idxs[t];
        match ledger.resolve(year, idx) {
            Some(d) => {
                out.push(d);
            },
            None => {
                // Divergence was ruled out when the groups were checked,
                // and a surviving row is always below the year's row
                // count, so resolution cannot miss.
                proof {
                    let clipped = resolved_bits(index@, year, predicates@, rc as int);
                    crate::bitmap::lemma_ones_of_membership(clipped);
                    assert(js[t as int] == idxs@[t as int] as int);
                    assert(bit_of(clipped, js[t as int]));
                    assert(false);
                }
                return Err(EvalError::RowResolutionFault);
            },
        }
        t += 1;
    }
    proof {
        assert forall|t2: int| 0 <= t2 < js.len() implies out@[t2] == rows[#[trigger] js[t2]] by {
            assert(js[t2] == idxs@[t2] as int);
        }
        assert(out@ =~= js.map_values(|j: int| ledger@[year][j]));
    }
    Ok(out)
}

/// Indexing each (field, tag string) pair in order for one new row.
pub open spec fn index_fields_spec(
    m: Map<(u32, Seq<char>, Seq<char>), Seq<bool>>,
    year: u32,
    fields: Seq<(Seq<char>, Seq<char>)>,
    row: int,
) -> Map<(u32, Seq<char>, Seq<char>), Seq<bool>>
    decreases fields.len(),
{
    if fields.len() == 0 {
        m
    } else {
        index_fields_spec(
            index_tokens_spec(m, year, fields[0].0, tokens_of(fields[0].1), row),
            year,
            fields.drop_first(),
            row,
        )
    }
}

/// The views of a list of owned (field, tag string) pairs.
pub open spec fn field_views(fields: Seq<(String, String)>) -> Seq<(Seq<char>, Seq<char>)> {
    fields.map_values(|p: (String, String)| (p.0@, p.1@))
}

/// Inserts a record under `year`: appends `date_key` to the year's
/// ledger, then indexes every whitespace token of every field's tag
/// string for the new row.  Returns the assigned row index.  Duplicate
/// date keys are not deduplicated: each insert is a distinct row.
pub fn insert_record(
    ledger: &mut RowLedger,
    index: &mut TagIndex,
    year: u32,
    date_key: u64,
    fields: &Vec<(String, String)>,
) -> (r: usize)
    requires
        old(ledger).wf(),
        old(index).wf(),
    ensures
        final(ledger).wf(),
        final(index).wf(),
        final(ledger)@ == old(ledger)@.insert(
            year,
            rows_or_empty(old(ledger)@, year).push(date_key),
        ),
        r == rows_or_empty(old(ledger)@, year).len(),
        final(index)@ == index_fields_spec(old(index)@, year, field_views(fields@), r as int),
{
    let row = ledger.append(year, date_key);
    let ghost fv = field_views(fields@);
    let mut f: usize = 0;
    proof {
        assert(fv.skip(0) =~= fv);
    }
    while f < fields.len()
        invariant
            index.wf(),
            f <= fields@.len(),
            row < usize::MAX,
            fv == field_views(fields@),
            index_fields_spec(index@, year, fv.skip(f as int), row as int)
                == index_fields_spec(old(index)@, year, fv, row as int),
        decreases fields@.len() - f,
    {
        let ghost before = index@;
        let pair = &fields[f];
        index.tokenize_and_index(year, pair.0.as_str(), pair.1.as_str(), row);
        proof {
            let rest = fv.skip(f as int);
            assert(rest[0] == fv[f as int]);
            assert(fv[f as int] == (fields@[f as int].0@, fields@[f as int].1@));
            assert(rest.drop_first() =~= fv.skip(f as int + 1));
            assert(index@ =~= index_tokens_spec(
                before,
                year,
                rest[0].0,
                tokens_of(rest[0].1),
                row as int,
            ));
            assert(index_fields_spec(before, year, rest, row as int) == index_fields_spec(
                index@,
                year,
                rest.drop_first(),
                row as int,
            ));
        }
        f += 1;
    }
    proof {
        assert(fv.skip(fields@.len() as int) =~= Seq::<(Seq<char>, Seq<char>)>::empty());
    }
    row
}

/// Inserts one date's lunar record.  The year key is the date key's
/// leading digits (`yyyymmdd / 10000`); the `good_for` and `bad_for` tag
/// strings are tokenized and indexed for the new row.
pub fn create_lunar(
    ledger: &mut RowLedger,
    index: &mut TagIndex,
    yyyymmdd: u64,
    lunar: &Lunar,
) -> (r: usize)
    requires
        old(ledger).wf(),
        old(index).wf(),
        yyyymmdd / 10000 <= u32::MAX as u64,
    ensures
        final(ledger).wf(),
        final(index).wf(),
        final(ledger)@ == old(ledger)@.insert(
            (yyyymmdd / 10000) as u32,
            rows_or_empty(old(ledger)@, (yyyymmdd / 10000) as u32).push(yyyymmdd),
        ),
        r == rows_or_empty(old(ledger)@, (yyyymmdd / 10000) as u32).len(),
        final(index)@ == index_tokens_spec(
            index_tokens_spec(
                old(index)@,
                (yyyymmdd / 10000) as u32,
                "good_for"@,
                tokens_of(lunar.good_for@),
                r as int,
            ),
            (yyyymmdd / 10000) as u32,
            "bad_for"@,
            tokens_of(lunar.bad_for@),
            r as int,
        ),
{
    let year: u32 = (yyyymmdd / 10000) as u32;
    let row = ledger.append(year, yyyymmdd);
    index.tokenize_and_index(year, "good_for", lunar.good_for.as_str(), row);
    index.tokenize_and_index(year, "bad_for", lunar.bad_for.as_str(), row);
    row
}

/// Index completeness for one insert: after indexing a row's fields,
/// every whitespace token of every field's tag string has the row's bit
/// set under (year, field, token); no other row's bit changes anywhere
/// in the index; and a bit already set at the row stays set.
pub proof fn lemma_insert_record_index_complete(
    m: Map<(u32, Seq<char>, Seq<char>), Seq<bool>>,
    year: u32,
    fields: Seq<(Seq<char>, Seq<char>)>,
    row: int,
)
    requires
        0 <= row,
    ensures
        forall|i: int, t: int|
            #![trigger tokens_of(fields[i].1)[t]]
            0 <= i < fields.len() && 0 <= t < tokens_of(fields[i].1).len() ==> bit_of(
                bits_or_empty(
                    index_fields_spec(m, year, fields, row),
                    year,
                    fields[i].0,
                    tokens_of(fields[i].1)[t],
                ),
                row,
            ),
        forall|y2: u32, f2: Seq<char>, v2: Seq<char>, j: int|
            #![trigger bit_of(bits_or_empty(index_fields_spec(m, year, fields, row), y2, f2, v2), j)]
            j != row ==> bit_of(
                bits_or_empty(index_fields_spec(m, year, fields, row), y2, f2, v2),
                j,
            ) == bit_of(bits_or_empty(m, y2, f2, v2), j),
        forall|y2: u32, f2: Seq<char>, v2: Seq<char>|
            bit_of(bits_or_empty(m, y2, f2, v2), row) ==> bit_of(
                #[trigger] bits_or_empty(
                    index_fields_spec(m, year, fields, row),
                    y2,
                    f2,
                    v2,
                ),
                row,
            ),
    decreases fields.len(),
{
    if fields.len() != 0 {
        let toks0 = tokens_of(fields[0].1);
        let m1 = index_tokens_spec(m, year, fields[0].0, toks0, row);
        let rest = fields.drop_first();
        let result = index_fields_spec(m, year, fields, row);
        lemma_index_tokens_complete(m, year, fields[0].0, toks0, row);
        lemma_insert_record_index_complete(m1, year, rest, row);
        assert(result == index_fields_spec(m1, year, rest, row));
        assert forall|i: int, t: int|
            #![trigger tokens_of(fields[i].1)[t]]
            0 <= i < fields.len() && 0 <= t < tokens_of(fields[i].1).len() implies bit_of(
            bits_or_empty(result, year, fields[i].0, tokens_of(fields[i].1)[t]),
            row,
        ) by {
            if i == 0 {
                assert(toks0.contains(toks0[t]));
                assert(bit_of(bits_or_empty(m1, year, fields[0].0, toks0[t]), row));
                assert(bit_of(bits_or_empty(result, year, fields[0].0, toks0[t]), row));
            } else {
                assert(rest[i - 1] == fields[i]);
                assert(bit_of(
                    bits_or_empty(result, year, rest[i - 1].0, tokens_of(rest[i - 1].1)[t]),
                    row,
                ));
            }
        }
        assert forall|y2: u32, f2: Seq<char>, v2: Seq<char>, j: int|
            #![trigger bit_of(bits_or_empty(result, y2, f2, v2), j)]
            j != row implies bit_of(bits_or_empty(result, y2, f2, v2), j) == bit_of(
            bits_or_empty(m, y2, f2, v2),
            j,
        ) by {
            assert(bit_of(bits_or_empty(m1, y2, f2, v2), j) == bit_of(
                bits_or_empty(m, y2, f2, v2),
                j,
            ));
        }
        assert forall|y2: u32, f2: Seq<char>, v2: Seq<char>|
            bit_of(bits_or_empty(m, y2, f2, v2), row) implies bit_of(
            #[trigger] bits_or_empty(result, y2, f2, v2),
            row,
        ) by {
            assert(bit_of(bits_or_empty(m1, y2, f2, v2), row));
        }
    }
}

/// Insert monotonicity: one append grows the year's row count by exactly
/// one and leaves every other year's rows unchanged, so a year's length
/// never decreases and equals the number of inserts made under it.
pub proof fn lemma_insert_monotone(m: Map<u32, Seq<u64>>, year: u32, date_key: u64)
    ensures
        rows_or_empty(m.insert(year, rows_or_empty(m, year).push(date_key)), year).len()
            == rows_or_empty(m, year).len() + 1,
        forall|y2: u32|
            y2 != year ==> rows_or_empty(
                m.insert(year, rows_or_empty(m, year).push(date_key)),
                y2,
            ) == rows_or_empty(m, y2),
{
}

/// AND/AND-NOT semantics: under an inclusion predicate on one group
/// followed by an exclusion predicate on another, exactly the universe
/// rows carrying at least one tag of the first group and no tag of the
/// second survive.  In particular no returned row carries a tag of the
/// excluded group.
pub proof fn lemma_and_andnot_semantics(
    m: Map<(u32, Seq<char>, Seq<char>), Seq<bool>>,
    year: u32,
    p1: Predicate,
    p2: Predicate,
    j: int,
)
    ensures
        p1 matches Predicate::And(g1) ==> (p2 matches Predicate::AndNot(g2) ==> (survives(
            m,
            year,
            seq![p1, p2],
            j,
        ) <==> (0 <= j < MAX_ROWS_PER_YEAR && group_bit(m, year, g1@, j) && !group_bit(
            m,
            year,
            g2@,
            j,
        )))),
{
    let preds = seq![p1, p2];
    assert(preds[0] == p1);
    assert(preds[1] == p2);
    match (p1, p2) {
        (Predicate::And(g1), Predicate::AndNot(g2)) => {
            if 0 <= j < MAX_ROWS_PER_YEAR && group_bit(m, year, g1@, j) && !group_bit(
                m,
                year,
                g2@,
                j,
            ) {
                assert forall|p: int| 0 <= p < preds.len() implies pred_holds(
                    m,
                    year,
                    #[trigger] preds[p],
                    j,
                ) by {
                    if p == 0 {
                        assert(pred_holds(m, year, p1, j));
                    } else {
                        assert(pred_holds(m, year, p2, j));
                    }
                }
            }
            if survives(m, year, preds, j) {
                assert(pred_holds(m, year, preds[0], j));
                assert(pred_holds(m, year, preds[1], j));
            }
        },
        _ => {},
    }
}

/// A row index stands in the list that `evaluate` resolves exactly
/// where the row exists in the year's ledger and survives every
/// predicate.  With `lemma_and_andnot_semantics` this says of an
/// inclusion predicate followed by an exclusion predicate that no
/// returned row carries an excluded tag and every returned row carries
/// an included one.
pub proof fn lemma_result_membership(
    m: Map<(u32, Seq<char>, Seq<char>), Seq<bool>>,
    year: u32,
    preds: Seq<Predicate>,
    rc: int,
)
    ensures
        forall|j: int|
            #[trigger] ones_of(resolved_bits(m, year, preds, rc)).contains(j) <==> (survives(
                m,
                year,
                preds,
                j,
            ) && j < rc),
{
    let bits = resolved_bits(m, year, preds, rc);
    crate::bitmap::lemma_ones_of_membership(bits);
    assert forall|j: int|
        #[trigger] ones_of(bits).contains(j) <==> (survives(m, year, preds, j) && j < rc) by {
        if ones_of(bits).contains(j) {
            let t = choose|t: int| 0 <= t < ones_of(bits).len() && ones_of(bits)[t] == j;
            assert(bit_of(bits, ones_of(bits)[t]));
        }
        if survives(m, year, preds, j) && j < rc {
            assert(bit_of(bits, j));
        }
    }
}

/// An empty predicate list excludes nothing: every universe row
/// survives, and an evaluation of a year with `rc` rows resolves rows
/// `0` to `rc - 1` — every row inserted for the year, in insertion
/// order.
pub proof fn lemma_empty_predicates(
    m: Map<(u32, Seq<char>, Seq<char>), Seq<bool>>,
    year: u32,
    rc: int,
)
    requires
        0 <= rc <= MAX_ROWS_PER_YEAR,
    ensures
        forall|j: int|
            #[trigger] survives(m, year, Seq::<Predicate>::empty(), j) <==> 0 <= j
                < MAX_ROWS_PER_YEAR,
        ones_of(resolved_bits(m, year, Seq::<Predicate>::empty(), rc)) == Seq::new(
            rc as nat,
            |t: int| t,
        ),
{
    let bits = resolved_bits(m, year, Seq::<Predicate>::empty(), rc);
    assert forall|i: int| 0 <= i < bits.len() implies bits[i] == (i < rc) by {}
    lemma_ones_of_prefix(bits, rc);
}

/// The one positions of a bit sequence whose ones are exactly the
/// positions below `rc` are `0` to `rc - 1`, in order.
proof fn lemma_ones_of_prefix(s: Seq<bool>, rc: int)
    requires
        0 <= rc <= s.len(),
        forall|i: int| 0 <= i < s.len() ==> s[i] == (i < rc),
    ensures
        ones_of(s) == Seq::new(rc as nat, |t: int| t),
    decreases s.len(),
{
    if s.len() == 0 {
        assert(ones_of(s) =~= Seq::new(0, |t: int| t));
    } else {
        let d = s.drop_last();
        if rc == s.len() {
            assert forall|i: int| 0 <= i < d.len() implies d[i] == (i < rc - 1) by {
                assert(d[i] == s[i]);
            }
            lemma_ones_of_prefix(d, rc - 1);
            assert(s.last());
            assert(ones_of(s) =~= Seq::new(rc as nat, |t: int| t));
        } else {
            assert forall|i: int| 0 <= i < d.len() implies d[i] == (i < rc) by {
                assert(d[i] == s[i]);
            }
            lemma_ones_of_prefix(d, rc);
            assert(!s.last());
            assert(ones_of(d) + Seq::<int>::empty() =~= ones_of(d));
            assert(ones_of(s) =~= Seq::new(rc as nat, |t: int| t));
        }
    }
}

} // verus!
