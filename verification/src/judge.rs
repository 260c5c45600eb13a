//! The contract judge: mapping the running point totals to a verdict, and
//! the two camps that contest the contract.

use vstd::prelude::*;
use crate::cards::Declaration;

verus! {

#[derive(Debug, Clone, Copy, PartialEq, Eq, Structural)]
pub enum Camp {
    NAPOLEONIC,
    ALLIED,
    UNSETTLED,
}

pub open spec fn spec_opposite_party(belonging: Camp) -> Camp {
    match belonging {
        Camp::NAPOLEONIC => Camp::ALLIED,
        Camp::ALLIED => Camp::NAPOLEONIC,
        _ => Camp::UNSETTLED,
    }
}

pub open spec fn spec_camp_name(camp: Camp) -> Seq<char> {
    match camp {
        Camp::NAPOLEONIC => "ナポレオン"@,
        Camp::ALLIED => "平民"@,
        _ => ""@,
    }
}

impl Camp {
    pub fn opposite_party(belonging: Self) -> (opposite: Self)
        ensures
            opposite == spec_opposite_party(belonging),
    {
        match belonging {
            Self::NAPOLEONIC => Self::ALLIED,
            Self::ALLIED => Self::NAPOLEONIC,
            _ => Self::UNSETTLED,
        }
    }

    pub fn to_string(self) -> (name: String)
        ensures
            name@ == spec_camp_name(self),
    {
        (match self {
            Self::NAPOLEONIC => "ナポレオン",
            Self::ALLIED => "平民",
            _ => "",
        }).to_owned()
    }
}

/// The verdict on (contract, declarer points, defender points). The
/// defenders win once the declarers can no longer reach the contract, or
/// once a full declarer sweep falls under a sub-20 contract; the declarers
/// win once the contract is met, a clean 20-point sweep counting only for a
/// contract of 20; anything else is still open.
pub open spec fn spec_judge(contract: int, declarer: int, defender: int) -> Camp {
    if defender > 20 - contract || (declarer == 20 && contract < 20) {
        Camp::ALLIED
    } else if declarer >= contract && (defender > 0 || contract == 20) {
        Camp::NAPOLEONIC
    } else {
        Camp::UNSETTLED
    }
}

pub fn judge(contract: Declaration, declarer: Declaration, defender: Declaration) -> (winner:
    Camp)
    requires
        contract <= 20,
    ensures
        winner == spec_judge(contract as int, declarer as int, defender as int),
{
    if defender > 20 - contract || declarer == 20 && contract < 20 {
        Camp::ALLIED
    } else if declarer >= contract && (defender > 0 || contract == 20) {
        Camp::NAPOLEONIC
    } else {
        Camp::UNSETTLED
    }
}

/// Raising the defenders' total, within the 20 points the deal holds, never
/// takes a declaring-coalition win away.
pub proof fn lemma_judge_monotonic_defender(contract: int, declarer: int, low: int, high: int)
    requires
        0 <= contract <= 20,
        0 <= low <= high,
        declarer + high <= 20,
        spec_judge(contract, declarer, low) == Camp::NAPOLEONIC,
    ensures
        spec_judge(contract, declarer, high) == Camp::NAPOLEONIC,
{
}

/// Raising the declarers' total, within the 20 points the deal holds, never
/// turns a defending-coalition win into a declaring one.
pub proof fn lemma_judge_monotonic_declarer(contract: int, low: int, high: int, defender: int)
    requires
        0 <= contract <= 20,
        0 <= low <= high,
        0 <= defender,
        high + defender <= 20,
        spec_judge(contract, low, defender) == Camp::ALLIED,
    ensures
        spec_judge(contract, high, defender) == Camp::ALLIED,
{
    if !(defender > 20 - contract) {
        assert(low == 20 && contract < 20);
        assert(high == 20);
    }
}

/// Once one side's total is fixed and the other side holds the whole rest of
/// the 20 points, the verdict is never left open.
pub proof fn lemma_judge_settled(contract: int, declarer: int, defender: int)
    requires
        0 <= contract <= 20,
        0 <= declarer,
        0 <= defender,
        declarer + defender == 20,
    ensures
        spec_judge(contract, declarer, defender) != Camp::UNSETTLED,
{
}

} // verus!
