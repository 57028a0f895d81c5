use orbitive::lock::fence::{Fence, FenceToken};

#[test]
fn admits_current_and_newer_tenures_but_rejects_stale_ones() {
    let mut fence = Fence::new();
    assert!(fence.admits(FenceToken::new(5)));
    assert!(fence.admits(FenceToken::new(5)));
    assert!(fence.admits(FenceToken::new(9)));
    assert!(!fence.admits(FenceToken::new(7)));
    assert_eq!(fence.high_water(), 9);
}

#[test]
fn restored_high_water_keeps_rejecting_older_tenures() {
    let mut fence = Fence::with_high_water(42);
    assert!(!fence.admits(FenceToken::new(41)));
    assert!(fence.admits(FenceToken::new(42)));
    assert!(fence.admits(FenceToken::new(100)));
}

#[test]
fn a_token_is_told_in_words() {
    assert_eq!(FenceToken::new(42).to_string(), "fence:42");
}
