use orbitive::readiness::{
    after_read, after_write, next_driver_step, supported, timeout_parts, wait_answer, DrainStep,
    DriverStep, Platform, SignalStep, TokenRead, TokenWrite, WordWait,
};
use orbitive::OrbitEpoch;

#[test]
fn clocks_are_clamped() {
    assert_eq!(OrbitEpoch::from_system_time(Some(5)).as_unix_ms(), 5);
    assert_eq!(OrbitEpoch::from_system_time(None).as_unix_ms(), 0);
    assert_eq!(
        OrbitEpoch::from_system_time(Some(u128::MAX)).as_unix_ms(),
        u64::MAX
    );
    assert_eq!(OrbitEpoch::default(), OrbitEpoch::from_unix_ms(0));
    assert_eq!(u64::from(OrbitEpoch::from(9)), 9);
    assert_eq!(OrbitEpoch::from_unix_ms(1_234).to_string(), "1234");
}

#[test]
fn samples_get_older() {
    let epoch = OrbitEpoch::from_unix_ms(1_000);
    let now = OrbitEpoch::from_unix_ms(1_250);
    assert_eq!(epoch.age_at(now), 250);
    assert_eq!(now.age_at(epoch), 0);
    assert!(epoch.is_fresh_at(now, 250_000_000));
    assert!(!epoch.is_fresh_at(now, 249_999_999));
    assert!(now.is_fresh_at(epoch, 0));
}

fn drain(reads: &[TokenRead]) -> DrainStep {
    let mut total = 0;
    for read in reads {
        match after_read(total, *read) {
            DrainStep::Again(sum) => total = sum,
            end => return end,
        }
    }
    DrainStep::Again(total)
}

#[test]
fn drains_take_every_token() {
    assert_eq!(drain(&[TokenRead::WouldBlock]), DrainStep::Drained(0));
    assert_eq!(
        drain(&[
            TokenRead::Counter(2),
            TokenRead::Interrupted,
            TokenRead::Counter(3),
            TokenRead::WouldBlock
        ]),
        DrainStep::Drained(5)
    );
    assert_eq!(
        drain(&[
            TokenRead::Counter(u64::MAX),
            TokenRead::Counter(1),
            TokenRead::WouldBlock
        ]),
        DrainStep::Drained(u64::MAX)
    );
    assert_eq!(
        drain(&[TokenRead::Counter(1), TokenRead::Closed]),
        DrainStep::Closed
    );
    assert_eq!(drain(&[TokenRead::Partial]), DrainStep::Partial);
    assert_eq!(drain(&[TokenRead::Failed]), DrainStep::Failed);
}

#[test]
fn a_full_descriptor_is_signalled_already() {
    assert_eq!(after_write(TokenWrite::Whole), SignalStep::Signalled);
    assert_eq!(after_write(TokenWrite::WouldBlock), SignalStep::Signalled);
    assert_eq!(after_write(TokenWrite::Interrupted), SignalStep::Again);
    assert_eq!(after_write(TokenWrite::Partial), SignalStep::Partial);
    assert_eq!(after_write(TokenWrite::Failed), SignalStep::Failed);
}

#[test]
fn the_driver_signals_each_generation_once() {
    assert_eq!(next_driver_step(1, 1, false), DriverStep::Wait(1));
    assert_eq!(next_driver_step(1, 4, false), DriverStep::Signal(4));
    assert_eq!(next_driver_step(4, 4, false), DriverStep::Wait(4));
    assert_eq!(next_driver_step(1, 4, true), DriverStep::Stop);
}

#[test]
fn waits_are_answered() {
    assert_eq!(wait_answer(WordWait::Woken), Some(true));
    assert_eq!(wait_answer(WordWait::Moved), Some(true));
    assert_eq!(wait_answer(WordWait::Interrupted), Some(true));
    assert_eq!(wait_answer(WordWait::TimedOut), Some(false));
    assert_eq!(wait_answer(WordWait::Failed), None);
    assert_eq!(timeout_parts(1_500_000_000), (1, 500_000_000));
    assert_eq!(timeout_parts(u128::MAX).0, i64::MAX);
}

#[test]
fn platforms_differ() {
    assert!(supported(Platform::Linux));
    assert!(supported(Platform::FreeBsd));
    assert!(supported(Platform::MacOs { shared_waits: true }));
    assert!(!supported(Platform::MacOs { shared_waits: false }));
    assert!(!supported(Platform::Other));
}
