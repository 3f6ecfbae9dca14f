use xsuspend::machine::{
    apply_event, classify, evaluate, should_inhibit, tick, LockEvent, TickAction, TimerState,
};

fn idle_state() -> TimerState {
    TimerState { lock_timer: None, suspended_marker: false }
}

#[test]
fn classify_finds_the_lock_marker() {
    assert_eq!(classify("LOCK Fri Jan 01 00:00:00 2021"), LockEvent::LockOccurred);
    assert_eq!(classify("BLANK Fri Jan 01 00:00:00 2021"), LockEvent::Other);
    assert_eq!(classify("UNBLANK"), LockEvent::Other);
    assert_eq!(classify(""), LockEvent::Other);
    // The test is a plain substring match, so UNLOCK also counts as a lock.
    assert_eq!(classify("UNLOCK"), LockEvent::LockOccurred);
    // And it is case-sensitive.
    assert_eq!(classify("lock"), LockEvent::Other);
}

#[test]
fn other_events_collapse_the_state() {
    // However the state stood, a non-lock event empties it, repeatedly.
    let s = TimerState { lock_timer: Some(7), suspended_marker: true };
    let s1 = apply_event(s, LockEvent::Other, 10);
    assert_eq!(s1, idle_state());
    let s2 = apply_event(s1, LockEvent::Other, 11);
    assert_eq!(s2, idle_state());
}

#[test]
fn repeated_locks_keep_the_marker() {
    let s = TimerState { lock_timer: Some(3), suspended_marker: true };
    let s1 = apply_event(s, LockEvent::LockOccurred, 5);
    assert_eq!(s1, TimerState { lock_timer: Some(5), suspended_marker: true });
    let s2 = apply_event(s1, LockEvent::LockOccurred, 9);
    assert_eq!(s2, TimerState { lock_timer: Some(9), suspended_marker: true });
}

#[test]
fn idle_threshold_fires_strictly_after_the_threshold() {
    let armed = TimerState { lock_timer: Some(100), suspended_marker: false };
    // Exactly at the threshold: nothing fires.
    let (s_at, a_at) = evaluate(armed, 110, 10, 4);
    assert_eq!(a_at, TickAction::Nothing);
    assert_eq!(s_at, armed);
    // One unit past the threshold: one suspend, marker set.
    let (s_over, a_over) = evaluate(armed, 111, 10, 4);
    assert_eq!(a_over, TickAction::SuspendIdleElapsed);
    assert_eq!(s_over, TimerState { lock_timer: None, suspended_marker: true });
}

#[test]
fn password_threshold_uses_three_times_the_raw_timeout() {
    let rearmed = TimerState { lock_timer: Some(0), suspended_marker: true };
    // The effective threshold is 3 * 4 = 12.
    let (_, a_at) = evaluate(rearmed, 12, 100, 4);
    assert_eq!(a_at, TickAction::Nothing);
    let (s_over, a_over) = evaluate(rearmed, 13, 100, 4);
    assert_eq!(a_over, TickAction::SuspendPasswordElapsed);
    assert_eq!(s_over, TimerState { lock_timer: None, suspended_marker: true });
}

#[test]
fn woken_but_not_unlocked_rearms_the_timer() {
    let suspended = TimerState { lock_timer: None, suspended_marker: true };
    let (s, a) = evaluate(suspended, 50, 10, 4);
    assert_eq!(a, TickAction::Rearm);
    assert_eq!(s, TimerState { lock_timer: Some(50), suspended_marker: true });
}

#[test]
fn scenario_lock_then_silence_suspends_once_and_rearms() {
    // A lock, then nothing past the idle threshold of 10.
    let (s, a) = tick(idle_state(), Some("LOCK"), 0, 10, 4);
    assert_eq!(a, TickAction::Nothing);
    assert_eq!(s, TimerState { lock_timer: Some(0), suspended_marker: false });
    // At the threshold, still nothing.
    let (s, a) = tick(s, None, 10, 10, 4);
    assert_eq!(a, TickAction::Nothing);
    // Past the threshold: exactly one suspend.
    let (s, a) = tick(s, None, 11, 10, 4);
    assert_eq!(a, TickAction::SuspendIdleElapsed);
    assert_eq!(s, TimerState { lock_timer: None, suspended_marker: true });
    // The following tick re-arms the timer to the new time.
    let (s, a) = tick(s, None, 12, 10, 4);
    assert_eq!(a, TickAction::Rearm);
    assert_eq!(s, TimerState { lock_timer: Some(12), suspended_marker: true });
}

#[test]
fn scenario_unlock_after_suspend_stops_further_suspends() {
    // Lock, suspend after the idle threshold, then a non-lock line.
    let (s, _) = tick(idle_state(), Some("LOCK"), 0, 10, 4);
    let (s, a) = tick(s, None, 11, 10, 4);
    assert_eq!(a, TickAction::SuspendIdleElapsed);
    let (s, a) = tick(s, Some("UNBLANK"), 12, 10, 4);
    assert_eq!(a, TickAction::Nothing);
    assert_eq!(s, idle_state());
    // No further suspends without a new lock, however long it idles.
    let (s, a) = tick(s, None, 1000, 10, 4);
    assert_eq!(a, TickAction::Nothing);
    assert_eq!(s, idle_state());
}

#[test]
fn scenario_inhibited_suspend_still_transitions_the_timers() {
    // The marker was touched one hour ago, within the eight-hour window,
    // so the suspend command is suppressed ...
    let now_secs: u64 = 36000;
    assert!(should_inhibit(Some(now_secs - 3600), now_secs));
    // ... while the state machine transitions exactly as if it had run.
    let (s, a) = tick(idle_state(), Some("LOCK"), 0, 10, 4);
    assert_eq!(a, TickAction::Nothing);
    let (s, a) = tick(s, None, 11, 10, 4);
    assert_eq!(a, TickAction::SuspendIdleElapsed);
    assert_eq!(s, TimerState { lock_timer: None, suspended_marker: true });
}

#[test]
fn inhibit_window_boundaries() {
    let eight_hours: u64 = 8 * 60 * 60;
    // Exactly at the edge of the window: still inhibited.
    assert!(should_inhibit(Some(1000), 1000 + eight_hours));
    // One second older than the window: not inhibited.
    assert!(!should_inhibit(Some(1000), 1001 + eight_hours));
    // A marker that could not be read never inhibits.
    assert!(!should_inhibit(None, 1000));
    // Early clocks sit inside the window whenever the marker exists.
    assert!(should_inhibit(Some(0), 100));
}

#[test]
fn event_in_the_same_tick_preempts_a_stale_suspend() {
    // The timer is far past the threshold, but a non-lock line arrives
    // in the same iteration: the reset wins and nothing fires.
    let armed = TimerState { lock_timer: Some(0), suspended_marker: false };
    let (s, a) = tick(armed, Some("UNBLANK"), 1000, 10, 4);
    assert_eq!(a, TickAction::Nothing);
    assert_eq!(s, idle_state());
}

#[test]
fn new_state_is_idle() {
    assert_eq!(TimerState::new(), idle_state());
}
