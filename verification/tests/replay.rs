use pcpvpn::replay::{ReplayWindow, WINDOW};

#[test]
fn accepts_increasing_rejects_duplicates() {
    let mut w = ReplayWindow::new();
    for c in 0..10u64 {
        assert!(w.check(c), "should accept {c}");
        w.accept(c);
        assert!(!w.check(c), "duplicate {c} should be rejected");
    }
}

#[test]
fn accepts_in_window_reorder() {
    let mut w = ReplayWindow::new();
    w.accept(10);
    assert!(w.check(5));
    w.accept(5);
    assert!(!w.check(5));
}

#[test]
fn rejects_too_old() {
    let mut w = ReplayWindow::new();
    w.accept(100);
    assert!(!w.check(100 - WINDOW));
    assert!(!w.check(10));
}

#[test]
fn accepted_counter_stays_rejected_after_the_window_moves_on() {
    let mut w = ReplayWindow::new();
    w.accept(7);
    for c in 8..200u64 {
        w.accept(c);
        assert!(!w.check(7));
    }
}

#[test]
fn a_jump_beyond_the_window_forgets_only_what_is_too_old() {
    let mut w = ReplayWindow::new();
    w.accept(1);
    w.accept(1000);
    assert!(!w.check(1));
    assert!(!w.check(1000));
    assert!(w.check(999));
    assert!(!w.check(1000 - WINDOW));
    assert!(w.check(1000 - WINDOW + 1));
    assert!(w.check(1001));
}

#[test]
fn check_after_any_accepts_follows_the_highest_and_the_accepted_set() {
    let accepted = [70u64, 5, 120, 90, 119];
    let mut w = ReplayWindow::new();
    for c in accepted {
        w.accept(c);
    }
    let max = 120u64;
    for c in 0..200u64 {
        let expected = c > max || (max - c < WINDOW && !accepted.contains(&c));
        assert_eq!(w.check(c), expected, "counter {c}");
    }
}
