//! Host-chain binding shapes: the custom message that announces an
//! insert and the custom query that fetches one date's record.

use crate::types::Lunar;
use vstd::prelude::*;

verus! {

/// Custom messages the host chain understands.
#[derive(Clone, Debug, PartialEq)]
pub enum ZodiaticMsg {
    CreateLunar { creator: String, yyyymmdd: u64, lunar: Lunar },
}

impl ZodiaticMsg {
    /// Builds the insert announcement message.
    pub fn create_lunar(creator: String, yyyymmdd: u64, lunar: Lunar) -> (r: Self)
        ensures
            r == (ZodiaticMsg::CreateLunar { creator, yyyymmdd, lunar }),
    {
        ZodiaticMsg::CreateLunar { creator, yyyymmdd, lunar }
    }
}

/// Custom queries the host chain answers.
#[derive(Clone, Debug, PartialEq)]
pub enum ZodiaticQuery {
    Lunar { yyyymmdd: u64 },
}

impl ZodiaticQuery {
    /// Builds the single-date query.
    pub fn lunar(yyyymmdd: u64) -> (r: Self)
        ensures
            r == (ZodiaticQuery::Lunar { yyyymmdd }),
    {
        ZodiaticQuery::Lunar { yyyymmdd }
    }
}

/// The host chain's answer to a single-date query.
#[derive(Clone, Debug, PartialEq)]
pub struct LunarResponse {
    pub lunar: Lunar,
}

} // verus!
