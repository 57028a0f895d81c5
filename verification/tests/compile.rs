use orbitive::compile::{decimal_usize, usize_from_env, ValueFault};

#[test]
fn parses_decimal_values_and_separators() {
    assert_eq!(usize_from_env(None, 512), 512);
    assert_eq!(usize_from_env(Some("1024"), 0), 1_024);
    assert_eq!(usize_from_env(Some("16_384"), 0), 16_384);
}

#[test]
fn rejects_non_decimal_values() {
    assert_eq!(decimal_usize("1KiB"), Err(ValueFault::NotDecimal));
    assert_eq!(decimal_usize("+5"), Err(ValueFault::NotDecimal));
    assert_eq!(decimal_usize(""), Err(ValueFault::Empty));
}

#[test]
fn rejects_invalid_separators() {
    assert_eq!(decimal_usize("_512"), Err(ValueFault::InvalidSeparator));
    assert_eq!(decimal_usize("512_"), Err(ValueFault::InvalidSeparator));
    assert_eq!(decimal_usize("5__12"), Err(ValueFault::InvalidSeparator));
}

#[test]
fn rejects_values_that_do_not_fit() {
    let largest = usize::MAX.to_string();
    assert_eq!(decimal_usize(&largest), Ok(usize::MAX));
    assert_eq!(
        decimal_usize(&format!("{largest}0")),
        Err(ValueFault::Overflow)
    );
    assert_eq!(decimal_usize("0007"), Ok(7));
}
