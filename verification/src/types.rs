//! The record payload: one calendar date's lunar facts.

use vstd::prelude::*;

verus! {

/// One calendar date's lunar facts: the Gregorian date string, the lunar
/// date as numbers, descriptive texts, and the two whitespace-tokenized
/// tag strings `good_for` and `bad_for` that the tag index ingests.
#[derive(Debug, PartialEq)]
pub struct Lunar {
    pub date: String,
    pub lunar_number: (u64, u64, u64),
    pub lunar: String,
    pub eight_words: String,
    pub god_direction: String,
    pub good_for: String,
    pub bad_for: String,
}

impl Lunar {
    /// Builds a record from string slices.
    pub fn new(
        date: &str,
        lunar_number: (u64, u64, u64),
        lunar: &str,
        eight_words: &str,
        god_direction: &str,
        good_for: &str,
        bad_for: &str,
    ) -> (r: Lunar)
        ensures
            r.date@ == date@,
            r.lunar_number == lunar_number,
            r.lunar@ == lunar@,
            r.eight_words@ == eight_words@,
            r.god_direction@ == god_direction@,
            r.good_for@ == good_for@,
            r.bad_for@ == bad_for@,
    {
        Lunar {
            date: date.to_owned(),
            lunar_number,
            lunar: lunar.to_owned(),
            eight_words: eight_words.to_owned(),
            god_direction: god_direction.to_owned(),
            good_for: good_for.to_owned(),
            bad_for: bad_for.to_owned(),
        }
    }
}

impl Clone for Lunar {
    /// A clone is equal to the record it was made from.
    fn clone(&self) -> (r: Self)
        ensures
            r == *self,
    {
        Lunar {
            date: self.date.clone(),
            lunar_number: self.lunar_number,
            lunar: self.lunar.clone(),
            eight_words: self.eight_words.clone(),
            god_direction: self.god_direction.clone(),
            good_for: self.good_for.clone(),
            bad_for: self.bad_for.clone(),
        }
    }
}

impl Default for Lunar {
    /// The default record has empty texts and a zero lunar date.
    fn default() -> (r: Self)
        ensures
            r.date@ =~= Seq::<char>::empty(),
            r.lunar_number == (0u64, 0u64, 0u64),
            r.lunar@ =~= Seq::<char>::empty(),
            r.eight_words@ =~= Seq::<char>::empty(),
            r.god_direction@ =~= Seq::<char>::empty(),
            r.good_for@ =~= Seq::<char>::empty(),
            r.bad_for@ =~= Seq::<char>::empty(),
    {
        proof {
            reveal_strlit("");
        }
        Lunar::new("", (0, 0, 0), "", "", "", "", "")
    }
}

} // verus!
