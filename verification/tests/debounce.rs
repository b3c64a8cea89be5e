use run_on_filechange::DEBOUNCE_MS;
use run_on_filechange::accepts;

#[test]
fn first_trigger_always_accepted() {
    assert!(accepts(None, 0));
    assert!(accepts(None, 123_456));
    assert!(accepts(None, u64::MAX));
}

#[test]
fn quiet_window_boundary() {
    assert!(!accepts(Some(0), DEBOUNCE_MS - 1));
    assert!(accepts(Some(0), DEBOUNCE_MS));
    assert!(!accepts(Some(1000), 1000 + DEBOUNCE_MS - 1));
    assert!(accepts(Some(1000), 1000 + DEBOUNCE_MS));
    assert!(accepts(Some(1000), u64::MAX));
}

#[test]
fn candidate_before_last_rejected() {
    assert!(!accepts(Some(100), 50));
    assert!(!accepts(Some(100), 100));
}
