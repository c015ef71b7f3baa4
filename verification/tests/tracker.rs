use orbitkeys::focus_tracker::FocusTracker;
use orbitkeys::focus_tracker::TrackerEvent;
use orbitkeys::focus_tracker::is_activated;

fn discovered(ext_id: u32, state_id: u32) -> TrackerEvent {
    TrackerEvent::Discovered { ext_id, state_id }
}

fn app_id(ext_id: u32, id: &str) -> TrackerEvent {
    TrackerEvent::AppIdReceived {
        ext_id,
        app_id: id.to_string(),
    }
}

fn state(state_id: u32, bytes: &[u8]) -> TrackerEvent {
    TrackerEvent::StateChanged {
        state_id,
        state_bits: bytes.to_vec(),
    }
}

#[test]
fn activation_reports_identity() {
    let mut t = FocusTracker::new();
    assert_eq!(t.handle_event(discovered(1, 10)), None);
    assert_eq!(t.handle_event(app_id(1, "firefox")), None);
    let r = t.handle_event(state(10, &[2, 0, 0, 0]));
    assert_eq!(r, Some("firefox".to_string()));
    assert_eq!(t.last_focused(), &Some("firefox".to_string()));
}

#[test]
fn debounce_suppresses_repeat_activation() {
    let mut t = FocusTracker::new();
    t.handle_event(discovered(1, 10));
    t.handle_event(app_id(1, "firefox"));
    assert_eq!(
        t.handle_event(state(10, &[2, 0, 0, 0])),
        Some("firefox".to_string())
    );
    assert_eq!(t.handle_event(state(10, &[2, 0, 0, 0])), None);
    assert_eq!(t.handle_event(state(10, &[1, 0, 0, 0, 2, 0, 0, 0])), None);
}

#[test]
fn debounce_is_per_identity_not_per_window() {
    let mut t = FocusTracker::new();
    t.handle_event(discovered(1, 10));
    t.handle_event(app_id(1, "term"));
    t.handle_event(discovered(2, 20));
    t.handle_event(app_id(2, "term"));
    assert_eq!(t.handle_event(state(10, &[2, 0, 0, 0])), Some("term".to_string()));
    // the other window resolves to the same identity: no second signal
    assert_eq!(t.handle_event(state(20, &[2, 0, 0, 0])), None);
}

#[test]
fn identity_arriving_late_yields_placeholder_then_identity() {
    let mut t = FocusTracker::new();
    t.handle_event(discovered(1, 10));
    // activated before the identity event arrived: the placeholder is reported
    assert_eq!(
        t.handle_event(state(10, &[2, 0, 0, 0])),
        Some("unknown".to_string())
    );
    t.handle_event(app_id(1, "editor"));
    assert_eq!(
        t.handle_event(state(10, &[2, 0, 0, 0])),
        Some("editor".to_string())
    );
}

#[test]
fn deactivation_is_not_surfaced() {
    let mut t = FocusTracker::new();
    t.handle_event(discovered(1, 10));
    t.handle_event(app_id(1, "firefox"));
    assert_eq!(t.handle_event(state(10, &[0, 0, 0, 0])), None);
    assert_eq!(t.handle_event(state(10, &[1, 0, 0, 0, 4, 0, 0, 0])), None);
    assert_eq!(t.last_focused(), &None);
}

#[test]
fn discovery_close_removes_correlation() {
    let mut t = FocusTracker::new();
    t.handle_event(discovered(1, 10));
    t.handle_event(app_id(1, "firefox"));
    t.handle_event(TrackerEvent::DiscoveryClosed { ext_id: 1 });
    // the state-side object no longer resolves to the closed window
    assert_eq!(
        t.handle_event(state(10, &[2, 0, 0, 0])),
        Some("unknown".to_string())
    );
}

#[test]
fn close_order_discovery_first_then_state() {
    let mut t = FocusTracker::new();
    t.handle_event(discovered(1, 10));
    t.handle_event(app_id(1, "a"));
    t.handle_event(TrackerEvent::DiscoveryClosed { ext_id: 1 });
    t.handle_event(TrackerEvent::StateClosed { state_id: 10 });
    // a fresh window with recycled identifiers behaves as if nothing leaked
    t.handle_event(discovered(1, 10));
    t.handle_event(app_id(1, "b"));
    assert_eq!(t.handle_event(state(10, &[2, 0, 0, 0])), Some("b".to_string()));
}

#[test]
fn close_order_state_first_then_discovery() {
    let mut t = FocusTracker::new();
    t.handle_event(discovered(1, 10));
    t.handle_event(app_id(1, "a"));
    t.handle_event(TrackerEvent::StateClosed { state_id: 10 });
    t.handle_event(TrackerEvent::DiscoveryClosed { ext_id: 1 });
    t.handle_event(discovered(1, 10));
    t.handle_event(app_id(1, "b"));
    assert_eq!(t.handle_event(state(10, &[2, 0, 0, 0])), Some("b".to_string()));
}

#[test]
fn close_of_absent_handles_is_a_no_op() {
    let mut t = FocusTracker::new();
    t.handle_event(TrackerEvent::DiscoveryClosed { ext_id: 7 });
    t.handle_event(TrackerEvent::StateClosed { state_id: 7 });
    t.handle_event(discovered(1, 10));
    t.handle_event(app_id(1, "x"));
    assert_eq!(t.handle_event(state(10, &[2, 0, 0, 0])), Some("x".to_string()));
}

#[test]
fn state_close_does_not_retract_last_focused() {
    let mut t = FocusTracker::new();
    t.handle_event(discovered(1, 10));
    t.handle_event(app_id(1, "firefox"));
    t.handle_event(state(10, &[2, 0, 0, 0]));
    t.handle_event(TrackerEvent::StateClosed { state_id: 10 });
    assert_eq!(t.last_focused(), &Some("firefox".to_string()));
}

#[test]
fn bitfield_with_two_anywhere_is_activated() {
    assert!(is_activated(&vec![2, 0, 0, 0]));
    assert!(is_activated(&vec![1, 0, 0, 0, 2, 0, 0, 0]));
    assert!(is_activated(&vec![1, 0, 0, 0, 4, 0, 0, 0, 2, 0, 0, 0]));
}

#[test]
fn bitfield_with_only_other_values_is_not_activated() {
    assert!(!is_activated(&vec![1, 0, 0, 0]));
    assert!(!is_activated(&vec![4, 0, 0, 0]));
    assert!(!is_activated(&vec![1, 0, 0, 0, 4, 0, 0, 0]));
    assert!(!is_activated(&vec![]));
}

#[test]
fn incomplete_trailing_chunk_is_ignored() {
    // three bytes are not a chunk, so the 2 does not count
    assert!(!is_activated(&vec![2, 0, 0]));
    // the complete chunk counts, the trailing bytes do not
    assert!(is_activated(&vec![2, 0, 0, 0, 2, 0]));
    // 2 must be the chunk's value, not merely a byte of it
    assert!(!is_activated(&vec![0, 2, 0, 0]));
}

#[test]
fn identity_can_be_overwritten() {
    let mut t = FocusTracker::new();
    t.handle_event(discovered(1, 10));
    t.handle_event(app_id(1, "before"));
    t.handle_event(app_id(1, "after"));
    assert_eq!(t.handle_event(state(10, &[2, 0, 0, 0])), Some("after".to_string()));
}
