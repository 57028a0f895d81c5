//! The time at which a sample claims to have been captured.
//!
//! A ring's counter says where a write landed; an epoch says when its content
//! was taken.
use vstd::prelude::*;

use crate::decimal::{digits, push_number};

verus! {

/// Milliseconds since the Unix epoch, carried in the version of a frame.
#[derive(Clone, Copy, Debug, PartialEq, Eq, Structural, PartialOrd, Ord, Hash)]
pub struct OrbitEpoch(pub u64);

impl OrbitEpoch {
    /// The epoch of a clock that shows this many milliseconds since the Unix
    /// epoch, or a time before it.
    pub fn from_system_time(since_unix_ms: Option<u128>) -> (epoch: OrbitEpoch)
        ensures
            epoch.0 == match since_unix_ms {
                Some(millis) => if millis <= u64::MAX {
                    millis as u64
                } else {
                    u64::MAX
                },
                None => 0,
            },
    {
        match since_unix_ms {
            Some(millis) => if millis <= u64::MAX as u128 {
                OrbitEpoch(millis as u64)
            } else {
                OrbitEpoch(u64::MAX)
            },
            None => OrbitEpoch(0),
        }
    }

    /// The epoch of this many milliseconds.
    pub fn from_unix_ms(epoch_ms: u64) -> (epoch: OrbitEpoch)
        ensures
            epoch.0 == epoch_ms,
    {
        OrbitEpoch(epoch_ms)
    }

    /// The milliseconds.
    pub fn as_unix_ms(self) -> (epoch_ms: u64)
        ensures
            epoch_ms == self.0,
    {
        self.0
    }

    /// How old the sample is at a time, in milliseconds.
    pub open spec fn age(self, now: OrbitEpoch) -> int {
        if now.0 > self.0 {
            now.0 - self.0
        } else {
            0
        }
    }

    /// How old the sample is at a time, in milliseconds. A sample from the
    /// future is new.
    pub fn age_at(self, now: OrbitEpoch) -> (age_ms: u64)
        ensures
            age_ms == self.age(now),
    {
        now.0.saturating_sub(self.0)
    }

    /// True when the sample is no older than `max_age_ns` nanoseconds at a time.
    pub fn is_fresh_at(self, now: OrbitEpoch, max_age_ns: u128) -> (fresh: bool)
        ensures
            fresh == (self.age(now) * 1_000_000 <= max_age_ns),
    {
        self.age_at(now) as u128 * 1_000_000 <= max_age_ns
    }

    /// The milliseconds, as a text.
    pub fn to_string(&self) -> (text: String)
        ensures
            text@ == digits(self.0 as nat),
    {
        let mut text: String = String::new();
        push_number(&mut text, self.0);
        assert(text@ =~= digits(self.0 as nat));
        text
    }
}

impl Default for OrbitEpoch {
    /// The Unix epoch itself.
    fn default() -> (epoch: OrbitEpoch)
        ensures
            epoch.0 == 0,
    {
        OrbitEpoch(0)
    }
}

impl From<u64> for OrbitEpoch {
    fn from(value: u64) -> (epoch: OrbitEpoch) {
        OrbitEpoch(value)
    }
}

impl vstd::std_specs::convert::FromSpecImpl<u64> for OrbitEpoch {
    open spec fn obeys_from_spec() -> bool {
        true
    }

    open spec fn from_spec(value: u64) -> OrbitEpoch {
        OrbitEpoch(value)
    }
}

impl From<OrbitEpoch> for u64 {
    fn from(value: OrbitEpoch) -> (epoch_ms: u64) {
        value.0
    }
}

impl vstd::std_specs::convert::FromSpecImpl<OrbitEpoch> for u64 {
    open spec fn obeys_from_spec() -> bool {
        true
    }

    open spec fn from_spec(value: OrbitEpoch) -> u64 {
        value.0
    }
}

/// A sample only ages: once it is not fresh any more, it stays so.
pub proof fn law_stale_stays_stale(
    epoch: OrbitEpoch,
    now: OrbitEpoch,
    later: OrbitEpoch,
    max_age_ns: u128,
)
    requires
        now.0 <= later.0,
        epoch.age(now) * 1_000_000 > max_age_ns,
    ensures
        epoch.age(later) * 1_000_000 > max_age_ns,
{
}

/// The age of a time is what has passed since; a time that is still to come has none.
pub proof fn law_age_is_what_has_passed(epoch: OrbitEpoch, now: OrbitEpoch)
    ensures
        epoch.0 <= now.0 ==> epoch.0 + epoch.age(now) == now.0,
        epoch.0 > now.0 ==> epoch.age(now) == 0,
{
}

} // verus!
