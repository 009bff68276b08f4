use klotski::guard::BoolGuard;
use std::sync::atomic::{AtomicBool, Ordering};

#[test]
fn lock_raises_a_lowered_flag_and_drop_lowers_it() {
    let flag = AtomicBool::new(false);
    {
        let guard = BoolGuard::lock(&flag);
        assert!(guard.is_some());
        assert!(flag.load(Ordering::Relaxed));
        // While the guard lives nobody else gets one.
        assert!(BoolGuard::lock(&flag).is_none());
        assert!(flag.load(Ordering::Relaxed));
    }
    assert!(!flag.load(Ordering::Relaxed));
    assert!(BoolGuard::lock(&flag).is_some());
}

#[test]
fn lock_leaves_a_raised_flag_alone() {
    let flag = AtomicBool::new(true);
    assert!(BoolGuard::lock(&flag).is_none());
    assert!(flag.load(Ordering::Relaxed));
}

#[test]
fn claim_decides_by_the_value_that_was_read() {
    let flag = AtomicBool::new(false);
    assert!(BoolGuard::claim(&flag, true).is_none());
    assert!(!flag.load(Ordering::Relaxed));
    {
        let guard = BoolGuard::claim(&flag, false);
        assert!(guard.is_some());
        assert!(flag.load(Ordering::Relaxed));
    }
    assert!(!flag.load(Ordering::Relaxed));
}
