//! Resource-side fencing of lock tenures.
use vstd::prelude::*;
use vstd::string::*;

use crate::decimal::{digits, push_number};

verus! {

/// Monotonic identity of one lock tenure.
#[derive(Clone, Copy, Debug, PartialEq, Eq, PartialOrd, Ord, Hash, Structural)]
pub struct FenceToken(u64);

impl View for FenceToken {
    type V = u64;

    closed spec fn view(&self) -> u64 {
        self.0
    }
}

impl FenceToken {
    /// The token with this value.
    pub fn new(value: u64) -> (token: FenceToken)
        ensures
            token@ == value,
    {
        FenceToken(value)
    }

    /// The token's value.
    pub fn get(self) -> (value: u64)
        ensures
            value == self@,
    {
        self.0
    }

    /// The token, as a text.
    pub fn to_string(&self) -> (text: String)
        ensures
            text@ == "fence:"@ + digits(self@ as nat),
    {
        let mut text: String = "fence:".to_owned();
        push_number(&mut text, self.0);
        text
    }
}

/// High-water mark by which a resource turns away stale holders.
#[derive(Debug)]
pub struct Fence {
    high_water: u64,
}

impl View for Fence {
    type V = u64;

    closed spec fn view(&self) -> u64 {
        self.high_water
    }
}

impl Default for Fence {
    fn default() -> (fence: Fence)
        ensures
            fence@ == 0,
    {
        Fence { high_water: 0 }
    }
}

impl Fence {
    /// A fence that has seen no tenure.
    pub fn new() -> (fence: Fence)
        ensures
            fence@ == 0,
    {
        Fence { high_water: 0 }
    }

    /// A fence that has seen tenures up to this token.
    pub fn with_high_water(token: u64) -> (fence: Fence)
        ensures
            fence@ == token,
    {
        Fence { high_water: token }
    }

    /// Admits a tenure unless a newer one was seen before.
    pub fn admits(&mut self, token: FenceToken) -> (admitted: bool)
        ensures
            admitted == (token@ >= old(self)@),
            final(self)@ == (if token@ >= old(self)@ {
                token@
            } else {
                old(self)@
            }),
    {
        let previous: u64 = self.high_water;
        if token.0 > previous {
            self.high_water = token.0;
        }
        token.0 >= previous
    }

    /// The newest tenure seen.
    pub fn high_water(&self) -> (token: u64)
        ensures
            token == self@,
    {
        self.high_water
    }
}

/// The mark that a fence has after it was shown a token.
pub open spec fn after_admit(mark: u64, token: u64) -> u64 {
    if token >= mark {
        token
    } else {
        mark
    }
}

/// The mark that a fence has after it was shown these tokens in order.
pub open spec fn after_all(mark: u64, tokens: Seq<u64>) -> u64
    decreases tokens.len(),
{
    if tokens.len() == 0 {
        mark
    } else {
        after_admit(after_all(mark, tokens.drop_last()), tokens.last())
    }
}

/// The mark never falls, so a tenure that is older than one seen before is
/// turned away for ever.
pub proof fn law_stale_tenure_stays_out(mark: u64, tokens: Seq<u64>, seen: int, stale: u64)
    requires
        0 <= seen < tokens.len(),
        stale < tokens[seen],
    ensures
        after_all(mark, tokens) >= tokens[seen],
        !(stale >= after_all(mark, tokens)),
    decreases tokens.len(),
{
    if seen < tokens.len() - 1 {
        law_stale_tenure_stays_out(mark, tokens.drop_last(), seen, stale);
    }
}

/// The mark of a fence is the newest token that it was shown, or the one it began with:
/// it is none that it was not shown, and none that it was shown is above it.
pub proof fn law_mark_is_the_newest_token(mark: u64, tokens: Seq<u64>)
    ensures
        after_all(mark, tokens) >= mark,
        forall|i: int|
            0 <= i < tokens.len() ==> #[trigger] tokens[i] <= after_all(mark, tokens),
        after_all(mark, tokens) == mark || tokens.contains(after_all(mark, tokens)),
    decreases tokens.len(),
{
    if tokens.len() > 0 {
        let shorter = tokens.drop_last();
        law_mark_is_the_newest_token(mark, shorter);
        assert forall|i: int| 0 <= i < tokens.len() implies #[trigger] tokens[i] <= after_all(
            mark,
            tokens,
        ) by {
            if i < tokens.len() - 1 {
                assert(shorter[i] == tokens[i]);
            }
        }
        assert(tokens.last() == tokens[tokens.len() - 1]);
        if shorter.contains(after_all(mark, shorter)) {
            let i = choose|i: int|
                0 <= i < shorter.len() && shorter[i] == after_all(mark, shorter);
            assert(tokens[i] == after_all(mark, shorter));
        }
    }
}

} // verus!
