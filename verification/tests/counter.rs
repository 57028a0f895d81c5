use orbitive::counter::{
    counter_header, Counter, Error, COUNTER_CAPACITY, COUNTER_KEY_MAX,
};
use orbitive::table::{HeaderFault, StateHeader};

#[test]
fn missing_key_starts_at_zero_for_updates() {
    let mut counter = Counter::new();

    assert_eq!(counter.get("hits").expect("get"), None);
    assert_eq!(counter.increment("hits", 2).expect("increment"), 2);
    assert_eq!(counter.decrement("hits", 5).expect("decrement"), -3);
    assert_eq!(counter.get("hits").expect("get"), Some(-3));
}

fn from_elsewhere(counter: &mut Counter) -> Result<i64, Error> {
    counter.increment("shared", 4)
}

#[test]
fn clones_share_atomic_values() {
    let mut counter = Counter::new();

    assert_eq!(counter.increment("shared", 1).expect("increment"), 1);
    assert_eq!(from_elsewhere(&mut counter).expect("increment"), 5);
    assert_eq!(counter.get("shared").expect("get"), Some(5));
}

#[test]
fn reset_retains_key_at_zero() {
    let mut counter = Counter::new();

    counter.increment("reset", 9).expect("increment");
    counter.reset("reset").expect("reset");
    assert_eq!(counter.get("reset").expect("get"), Some(0));
    counter.reset("missing").expect("missing reset");
    assert_eq!(counter.get("missing").expect("get"), Some(0));
}

#[test]
fn overflow_keeps_previous_value() {
    let mut counter = Counter::new();

    counter.increment("max", i64::MAX).expect("initialize max");
    assert!(matches!(counter.increment("max", 1), Err(Error::Overflow)));
    assert_eq!(counter.get("max").expect("get"), Some(i64::MAX));
}

#[test]
fn negative_amount_is_rejected() {
    let mut counter = Counter::new();

    assert!(matches!(
        counter.increment("bad", -1),
        Err(Error::NegativeAmount(-1))
    ));
    assert_eq!(counter.get("bad").expect("get"), None);
}

#[test]
fn keys_have_a_length() {
    let mut counter = Counter::new();
    assert_eq!(counter.get(""), Err(Error::KeyEmpty));
    let longest = "k".repeat(COUNTER_KEY_MAX);
    assert_eq!(counter.increment(&longest, 1), Ok(1));
    let longer = "k".repeat(COUNTER_KEY_MAX + 1);
    assert_eq!(
        counter.reset(&longer),
        Err(Error::KeyTooLarge {
            len: COUNTER_KEY_MAX + 1,
            max: COUNTER_KEY_MAX
        })
    );
    assert_eq!(counter.decrement("low", -5), Err(Error::NegativeAmount(-5)));
}

#[test]
fn a_full_table_keeps_its_keys() {
    let mut counter = Counter::new();
    for n in 0..COUNTER_CAPACITY {
        assert_eq!(counter.increment(&format!("key-{n}"), n as i64), Ok(n as i64));
    }
    let full = Error::StateFull {
        capacity: COUNTER_CAPACITY,
    };
    assert_eq!(counter.increment("another", 1), Err(full));
    assert_eq!(counter.reset("another"), Err(full));
    assert_eq!(counter.get("another"), Ok(None));
    assert_eq!(counter.decrement("key-7", 7), Ok(0));
    assert_eq!(counter.get("key-1000"), Ok(Some(1_000)));
    counter.reset_all();
    assert_eq!(counter.get("key-7"), Ok(None));
    assert_eq!(counter.increment("another", 1), Ok(1));
}

#[test]
fn what_was_counted_up_can_be_counted_down() {
    let mut counter = Counter::new();
    counter.increment("a", 40).unwrap();
    counter.increment("b", 1).unwrap();
    counter.increment("a", 2).unwrap();
    counter.decrement("a", 2).unwrap();
    assert_eq!(counter.get("a"), Ok(Some(40)));
    assert_eq!(counter.get("b"), Ok(Some(1)));
}

#[test]
fn table_headers_are_checked() {
    let header = counter_header();
    assert_eq!(header.check(&counter_header()), Ok(()));
    assert_eq!(header.segment_size(), 64 + 1_024 * 320);
    let other = StateHeader { magic: 0x4345_4C4C, ..header };
    let fault = HeaderFault::WrongMagic {
        found: 0x4345_4C4C,
        expected: 0x4343_4E54,
    };
    assert_eq!(other.check(&header), Err(fault));
    assert_eq!(
        fault.to_string("/orbit-x-230-0", "counter-state"),
        "SHM segment /orbit-x-230-0 has wrong magic 0x43454C4C (expected 0x43434E54)"
    );
    let smaller = StateHeader { capacity: 8, ..header };
    assert_eq!(smaller.check(&header), Err(HeaderFault::Incompatible));
    assert_eq!(
        HeaderFault::Incompatible.to_string("s", "counter-state"),
        "SHM segment s has an incompatible counter-state layout"
    );
}

#[test]
fn counter_errors_are_told_in_words() {
    assert_eq!(Error::KeyEmpty.to_string(), "counter key must not be empty");
    assert_eq!(
        Error::NegativeAmount(-12).to_string(),
        "counter amount must not be negative: -12"
    );
    assert_eq!(
        Error::NegativeAmount(i64::MIN).to_string(),
        "counter amount must not be negative: -9223372036854775808"
    );
    assert_eq!(
        Error::KeyTooLarge { len: 241, max: 240 }.to_string(),
        "counter key is too large: len=241 max=240"
    );
    assert_eq!(
        Error::Overflow.to_string(),
        "counter value is outside the signed 64-bit range"
    );
    assert_eq!(
        Error::StateFull { capacity: 1_024 }.to_string(),
        "counter state table is full: capacity=1024"
    );
}
