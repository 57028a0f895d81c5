//! The decisions behind turning a shared change into readiness of a descriptor.
//!
//! Readiness coalesces: a token says that something may have changed, never
//! what or how much. Whoever performs the reads, writes and waits hands back
//! how each one went, and is told what to do next.
use vstd::prelude::*;

use crate::numbers::min_of;

verus! {

/// How one attempt to read a token went.
#[derive(Clone, Copy, Debug, PartialEq, Eq, Structural)]
pub enum TokenRead {
    /// A whole counter was read.
    Counter(u64),
    /// Something shorter than a counter was read.
    Partial,
    /// The other end is closed.
    Closed,
    /// A signal came in between.
    Interrupted,
    /// There is nothing to read.
    WouldBlock,
    /// The read failed.
    Failed,
}

/// What a drain does next.
#[derive(Clone, Copy, Debug, PartialEq, Eq, Structural)]
pub enum DrainStep {
    /// Read again, with this many tokens so far.
    Again(u64),
    /// The descriptor is empty, and gave this many tokens.
    Drained(u64),
    /// The descriptor was closed.
    Closed,
    /// The descriptor gave part of a counter.
    Partial,
    /// The read's own error is the answer.
    Failed,
}

/// What a drain that has taken `total` tokens does after a read.
pub open spec fn drain_step(total: u64, read: TokenRead) -> DrainStep {
    match read {
        TokenRead::Counter(value) => DrainStep::Again(
            min_of(total + value, u64::MAX as int) as u64,
        ),
        TokenRead::Partial => DrainStep::Partial,
        TokenRead::Closed => DrainStep::Closed,
        TokenRead::Interrupted => DrainStep::Again(total),
        TokenRead::WouldBlock => DrainStep::Drained(total),
        TokenRead::Failed => DrainStep::Failed,
    }
}

/// What a drain that has taken `total` tokens does after a read.
pub fn after_read(total: u64, read: TokenRead) -> (step: DrainStep)
    ensures
        step == drain_step(total, read),
{
    match read {
        TokenRead::Counter(value) => DrainStep::Again(total.saturating_add(value)),
        TokenRead::Partial => DrainStep::Partial,
        TokenRead::Closed => DrainStep::Closed,
        TokenRead::Interrupted => DrainStep::Again(total),
        TokenRead::WouldBlock => DrainStep::Drained(total),
        TokenRead::Failed => DrainStep::Failed,
    }
}

/// How one attempt to write a token went.
#[derive(Clone, Copy, Debug, PartialEq, Eq, Structural)]
pub enum TokenWrite {
    /// The whole token was written.
    Whole,
    /// Part of the token was written.
    Partial,
    /// A signal came in between.
    Interrupted,
    /// The descriptor is full.
    WouldBlock,
    /// The write failed.
    Failed,
}

/// What a signal does next.
#[derive(Clone, Copy, Debug, PartialEq, Eq, Structural)]
pub enum SignalStep {
    /// Write again.
    Again,
    /// The other end is readable.
    Signalled,
    /// The descriptor took part of a token.
    Partial,
    /// The write's own error is the answer.
    Failed,
}

/// What a signal does after a write. A full descriptor is readable already, so
/// no signal is lost.
pub fn after_write(write: TokenWrite) -> (step: SignalStep)
    ensures
        step == match write {
            TokenWrite::Whole => SignalStep::Signalled,
            TokenWrite::Partial => SignalStep::Partial,
            TokenWrite::Interrupted => SignalStep::Again,
            TokenWrite::WouldBlock => SignalStep::Signalled,
            TokenWrite::Failed => SignalStep::Failed,
        },
{
    match write {
        TokenWrite::Whole => SignalStep::Signalled,
        TokenWrite::Partial => SignalStep::Partial,
        TokenWrite::Interrupted => SignalStep::Again,
        TokenWrite::WouldBlock => SignalStep::Signalled,
        TokenWrite::Failed => SignalStep::Failed,
    }
}

/// What the driver of a ring's readiness does next.
#[derive(Clone, Copy, Debug, PartialEq, Eq, Structural)]
pub enum DriverStep {
    /// The subscriber is gone.
    Stop,
    /// The ring has a new generation: signal the subscriber, and remember it.
    Signal(u32),
    /// Nothing is new: wait until the generation is another one.
    Wait(u32),
}

/// What the driver does that has observed one generation and finds another, or
/// the same.
pub open spec fn driver_step(observed: u32, current: u32, stop: bool) -> DriverStep {
    if stop {
        DriverStep::Stop
    } else if current != observed {
        DriverStep::Signal(current)
    } else {
        DriverStep::Wait(observed)
    }
}

/// What the driver does that has observed one generation and finds another, or
/// the same.
pub fn next_driver_step(observed: u32, current: u32, stop: bool) -> (step: DriverStep)
    ensures
        step == driver_step(observed, current, stop),
{
    if stop {
        DriverStep::Stop
    } else if current != observed {
        DriverStep::Signal(current)
    } else {
        DriverStep::Wait(observed)
    }
}

/// How one wait on a shared word went.
#[derive(Clone, Copy, Debug, PartialEq, Eq, Structural)]
pub enum WordWait {
    /// Another one woke the waiter.
    Woken,
    /// The word held something else already.
    Moved,
    /// A signal came in between.
    Interrupted,
    /// The time was up.
    TimedOut,
    /// The wait failed.
    Failed,
}

/// What a bounded wait answers: whether something may have changed, or nothing
/// where it failed. The caller looks at the word again in either case.
pub fn wait_answer(wait: WordWait) -> (changed: Option<bool>)
    ensures
        changed == match wait {
            WordWait::Woken | WordWait::Moved | WordWait::Interrupted => Some(true),
            WordWait::TimedOut => Some(false),
            WordWait::Failed => None,
        },
{
    match wait {
        WordWait::Woken | WordWait::Moved | WordWait::Interrupted => Some(true),
        WordWait::TimedOut => Some(false),
        WordWait::Failed => None,
    }
}

/// The seconds and nanoseconds of a timeout. The seconds stop at the largest
/// `i64`.
pub fn timeout_parts(nanos: u128) -> (parts: (i64, i64))
    ensures
        parts.0 == min_of(nanos as int / 1_000_000_000, i64::MAX as int),
        parts.1 == nanos % 1_000_000_000,
{
    let seconds: u128 = nanos / 1_000_000_000;
    let rest: u128 = nanos % 1_000_000_000;
    let whole: i64 = if seconds <= i64::MAX as u128 {
        seconds as i64
    } else {
        i64::MAX
    };
    (whole, rest as i64)
}

/// The systems that a build can run on.
#[derive(Clone, Copy, Debug, PartialEq, Eq, Structural)]
pub enum Platform {
    Linux,
    FreeBsd,
    /// macOS, with or without waits on shared addresses.
    MacOs { shared_waits: bool },
    Other,
}

/// True when a build can park on a shared word at all.
pub fn supported(platform: Platform) -> (supported: bool)
    ensures
        supported == match platform {
            Platform::Linux => true,
            Platform::FreeBsd => true,
            Platform::MacOs { shared_waits } => shared_waits,
            Platform::Other => false,
        },
{
    match platform {
        Platform::Linux => true,
        Platform::FreeBsd => true,
        Platform::MacOs { shared_waits } => shared_waits,
        Platform::Other => false,
    }
}

/// What a drain answers after these reads, where none of them ends it.
pub open spec fn drained(reads: Seq<TokenRead>) -> u64
    decreases reads.len(),
{
    if reads.len() == 0 {
        0
    } else {
        match drain_step(drained(reads.drop_last()), reads.last()) {
            DrainStep::Again(total) => total,
            _ => drained(reads.drop_last()),
        }
    }
}

/// The tokens that reads gave.
pub open spec fn tokens(reads: Seq<TokenRead>) -> nat
    decreases reads.len(),
{
    if reads.len() == 0 {
        0
    } else {
        tokens(reads.drop_last()) + match reads.last() {
            TokenRead::Counter(value) => value as nat,
            _ => 0,
        }
    }
}

/// A drain answers with all the tokens that its reads gave, up to the largest
/// `u64`.
pub proof fn law_drain_takes_every_token(reads: Seq<TokenRead>)
    ensures
        drained(reads) == min_of(tokens(reads) as int, u64::MAX as int),
    decreases reads.len(),
{
    if reads.len() > 0 {
        law_drain_takes_every_token(reads.drop_last());
    }
}

/// The driver never waits while the ring has a generation that it has not
/// signalled, and never signals one twice in a row.
pub proof fn law_driver_misses_no_change(observed: u32, current: u32, stop: bool)
    ensures
        driver_step(observed, current, stop) is Wait ==> current == observed,
        driver_step(observed, current, stop) matches DriverStep::Signal(next) ==> {
            &&& next == current
            &&& driver_step(next, current, stop) is Wait
        },
        stop ==> driver_step(observed, current, stop) is Stop,
{
}

/// A drain goes on exactly while there may be more tokens: what was read counts, an
/// interrupted read counts nothing. It ends with what was counted where nothing is left.
pub proof fn law_drain_goes_on_while_there_may_be_more(total: u64, read: TokenRead)
    ensures
        drain_step(total, read) is Again <==> read is Counter || read is Interrupted,
        read is Interrupted ==> drain_step(total, read) == DrainStep::Again(total),
        read matches TokenRead::Counter(value) ==> total + value <= u64::MAX ==> drain_step(
            total,
            read,
        ) == DrainStep::Again((total + value) as u64),
        read is WouldBlock ==> drain_step(total, read) == DrainStep::Drained(total),
        drain_step(total, read) is Drained ==> read is WouldBlock,
{
}

/// A driver stops when it is told to, signals every change that it has not seen, and
/// waits only where there is none.
pub proof fn law_driver_waits_only_where_nothing_changed(observed: u32, current: u32, stop: bool)
    ensures
        driver_step(observed, current, stop) is Stop <==> stop,
        driver_step(observed, current, stop) is Signal <==> !stop && current != observed,
        driver_step(observed, current, stop) matches DriverStep::Signal(seen) ==> seen == current,
        driver_step(observed, current, stop) matches DriverStep::Wait(seen) ==> seen == observed
            && seen == current,
{
}

} // verus!
