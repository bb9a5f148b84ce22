//! Message shapes of the record store's interface, and the predicate
//! language of tag queries.

use crate::text::{field_of, has_eq, split_field_value, value_of};
use crate::types::Lunar;
use vstd::prelude::*;

verus! {

/// The instantiation message carries nothing.
#[derive(Clone, Debug, PartialEq)]
pub struct InstantiateMsg {}

/// Mutating operations: insert one date's record.
#[derive(Clone, Debug, PartialEq)]
pub enum ExecuteMsg {
    CreateLunar { yyyymmdd: u64, lunar: Lunar },
}

/// Read-only operations: fetch one date, or search a year by predicates.
#[derive(Clone, Debug, PartialEq)]
pub enum QueryMsg {
    GetLunar { yyyymmdd: u64 },
    FindLunar { year: u32, predicates: Vec<Predicate> },
}

/// Response to a single-date fetch.
#[derive(Clone, Debug, PartialEq)]
pub struct GetLunarResponse {
    pub lunar: Lunar,
}

/// Response to a predicate search: the matching records in row order.
#[derive(Clone, Debug, PartialEq)]
pub struct FindLunarResponse {
    pub result: Vec<Lunar>,
}

/// A boolean filter over tags: matching rows must carry at least one of
/// the listed (field, value) tags, or none of them.
#[derive(Clone, Debug, PartialEq)]
pub enum Predicate {
    And(Vec<(String, String)>),
    AndNot(Vec<(String, String)>),
}

/// Whether each listed pair is the field and the value of the
/// corresponding `field=value` string.
pub open spec fn pairs_match(ps: Seq<(String, String)>, strs: Seq<&str>) -> bool {
    &&& ps.len() == strs.len()
    &&& forall|i: int|
        0 <= i < ps.len() ==> (#[trigger] ps[i]).0@ == field_of(strs[i]@) && ps[i].1@
            == value_of(strs[i]@)
}

impl Predicate {
    /// An inclusion predicate from `field=value` strings.
    pub fn and(any_of: Vec<&str>) -> (r: Self)
        requires
            forall|i: int| 0 <= i < any_of@.len() ==> has_eq(#[trigger] any_of@[i]@),
        ensures
            r matches Predicate::And(ps) && pairs_match(ps@, any_of@),
    {
        Predicate::And(into_tuples(any_of))
    }

    /// An exclusion predicate from `field=value` strings.
    pub fn and_not(any_of: Vec<&str>) -> (r: Self)
        requires
            forall|i: int| 0 <= i < any_of@.len() ==> has_eq(#[trigger] any_of@[i]@),
        ensures
            r matches Predicate::AndNot(ps) && pairs_match(ps@, any_of@),
    {
        Predicate::AndNot(into_tuples(any_of))
    }
}

/// Splits each `field=value` string at its first equals sign into an
/// owned (field, value) pair.
pub fn into_tuples(any_of: Vec<&str>) -> (r: Vec<(String, String)>)
    requires
        forall|i: int| 0 <= i < any_of@.len() ==> has_eq(#[trigger] any_of@[i]@),
    ensures
        pairs_match(r@, any_of@),
{
    let mut out: Vec<(String, String)> = Vec::new();
    let mut k: usize = 0;
    while k < any_of.len()
        invariant
            k <= any_of@.len(),
            out@.len() == k,
            forall|i: int| 0 <= i < any_of@.len() ==> has_eq(#[trigger] any_of@[i]@),
            forall|i: int|
                0 <= i < k ==> (#[trigger] out@[i]).0@ == field_of(any_of@[i]@) && out@[i].1@
                    == value_of(any_of@[i]@),
        decreases any_of@.len() - k,
    {
        let pair = split_field_value(any_of[k]);
        out.push(pair);
        k += 1;
    }
    out
}

} // verus!
