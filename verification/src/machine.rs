//! The timing state machine: classifies event lines, tracks the lock
//! timer and the suspended marker, and decides when suspension is due.

use vstd::prelude::*;

use crate::config::contains_pat;
use crate::config::contains_seq;
use crate::config::str_to_chars;

verus! {

/// An event line from the screen-lock event source, classified two ways:
/// a line announcing a lock, or anything else (which resets the state).
#[derive(Clone, Copy, Debug, PartialEq, Eq, Structural)]
pub enum LockEvent {
    LockOccurred,
    Other,
}

/// The state owned by the control loop: when the current lock session
/// started (if one is in progress), and whether a suspend decision has
/// already been taken for it.
#[derive(Clone, Copy, Debug, PartialEq, Eq, Structural)]
pub struct TimerState {
    /// Set to the arming time when a lock event is observed; cleared on
    /// any other event and once a suspend decision fires.
    pub lock_timer: Option<u64>,
    /// True once a suspend decision has been taken for the current lock
    /// session; cleared only by a non-lock event.
    pub suspended_marker: bool,
}

/// What one evaluation of the state decided: nothing, a suspension
/// (with the threshold that elapsed), or a re-arm of the lock timer
/// after waking without an unlock.
#[derive(Clone, Copy, Debug, PartialEq, Eq, Structural)]
pub enum TickAction {
    Nothing,
    SuspendIdleElapsed,
    SuspendPasswordElapsed,
    Rearm,
}

impl TimerState {
    /// The initial, idle state.
    pub fn new() -> (s: TimerState)
        ensures
            s == (TimerState { lock_timer: None, suspended_marker: false }),
    {
        TimerState { lock_timer: None, suspended_marker: false }
    }

    /// The lock timer, if armed, was armed no later than `now`.
    pub open spec fn timer_at_most(self, now: u64) -> bool {
        self.lock_timer matches Some(t) ==> t <= now
    }
}

/// How an incoming event changes the state: a lock event arms the lock
/// timer to the event's time and leaves the suspended marker alone; any
/// other event clears both.
pub open spec fn spec_apply_event(s: TimerState, e: LockEvent, now: u64) -> TimerState {
    match e {
        LockEvent::LockOccurred => TimerState {
            lock_timer: Some(now),
            suspended_marker: s.suspended_marker,
        },
        LockEvent::Other => TimerState { lock_timer: None, suspended_marker: false },
    }
}

/// The evaluation table: with the timer armed and no suspend taken yet,
/// suspend once strictly more than `idle_threshold` has elapsed; with a
/// suspend already taken, suspend again once strictly more than three
/// times `raw_password_timeout` has elapsed; with the timer cleared but
/// the marker still set, re-arm the timer to `now`.
pub open spec fn spec_evaluate(
    s: TimerState,
    now: u64,
    idle_threshold: u64,
    raw_password_timeout: u64,
) -> (TimerState, TickAction) {
    match s.lock_timer {
        Some(t) => if !s.suspended_marker && now - t > idle_threshold {
            (
                TimerState { lock_timer: None, suspended_marker: true },
                TickAction::SuspendIdleElapsed,
            )
        } else if s.suspended_marker && now - t > 3 * raw_password_timeout {
            (
                TimerState { lock_timer: None, suspended_marker: true },
                TickAction::SuspendPasswordElapsed,
            )
        } else {
            (s, TickAction::Nothing)
        },
        None => if s.suspended_marker {
            (TimerState { lock_timer: Some(now), suspended_marker: true }, TickAction::Rearm)
        } else {
            (s, TickAction::Nothing)
        },
    }
}

/// Applies an incoming event to the state.
pub fn apply_event(s: TimerState, e: LockEvent, now: u64) -> (r: TimerState)
    ensures
        r == spec_apply_event(s, e, now),
{
    match e {
        LockEvent::LockOccurred => TimerState {
            lock_timer: Some(now),
            suspended_marker: s.suspended_marker,
        },
        LockEvent::Other => TimerState { lock_timer: None, suspended_marker: false },
    }
}

/// Evaluates the state against the thresholds, returning the next state
/// and what the caller must do: nothing, suspend, or log a re-arm.
pub fn evaluate(s: TimerState, now: u64, idle_threshold: u64, raw_password_timeout: u64) -> (r: (
    TimerState,
    TickAction,
))
    requires
        s.timer_at_most(now),
    ensures
        r == spec_evaluate(s, now, idle_threshold, raw_password_timeout),
        r.0.timer_at_most(now),
{
    match s.lock_timer {
        Some(t) => {
            let elapsed: u64 = now - t;
            if !s.suspended_marker && elapsed > idle_threshold {
                (
                    TimerState { lock_timer: None, suspended_marker: true },
                    TickAction::SuspendIdleElapsed,
                )
            } else if s.suspended_marker && (elapsed as u128) > 3 * (raw_password_timeout
                as u128) {
                (
                    TimerState { lock_timer: None, suspended_marker: true },
                    TickAction::SuspendPasswordElapsed,
                )
            } else {
                (s, TickAction::Nothing)
            }
        },
        None => {
            if s.suspended_marker {
                (TimerState { lock_timer: Some(now), suspended_marker: true }, TickAction::Rearm)
            } else {
                (s, TickAction::Nothing)
            }
        },
    }
}

/// The marker text that identifies a lock event line.
pub open spec fn lock_chars() -> Seq<char> {
    seq!['L', 'O', 'C', 'K']
}

/// How an event line is classified: a lock event exactly when the text
/// `LOCK` occurs in it, case-sensitively; everything else is `Other`.
pub open spec fn spec_classify(line: Seq<char>) -> LockEvent {
    if contains_seq(line, lock_chars()) {
        LockEvent::LockOccurred
    } else {
        LockEvent::Other
    }
}

fn lock_chars_vec() -> (r: Vec<char>)
    ensures
        r@ == lock_chars(),
{
    let v = str_to_chars("LOCK");
    proof {
        reveal_strlit("LOCK");
        assert(v@ =~= lock_chars());
    }
    v
}

/// Classifies one event line.
pub fn classify(line: &str) -> (e: LockEvent)
    ensures
        e == spec_classify(line@),
{
    let v = str_to_chars(line);
    let k = lock_chars_vec();
    if contains_pat(&v, &k) {
        LockEvent::LockOccurred
    } else {
        LockEvent::Other
    }
}

/// One iteration of the control loop: the new line, if any, is
/// classified and applied first, and only the resulting state is then
/// evaluated against the thresholds, so an event that clears the timer
/// preempts a suspend decision from stale state in the same pass.
pub open spec fn spec_tick(
    s: TimerState,
    line: Option<Seq<char>>,
    now: u64,
    idle_threshold: u64,
    raw_password_timeout: u64,
) -> (TimerState, TickAction) {
    let s1 = match line {
        Some(l) => spec_apply_event(s, spec_classify(l), now),
        None => s,
    };
    spec_evaluate(s1, now, idle_threshold, raw_password_timeout)
}

/// Runs one iteration of the control loop on an optional new event
/// line, returning the next state and the action owed by the caller.
pub fn tick(
    s: TimerState,
    line: Option<&str>,
    now: u64,
    idle_threshold: u64,
    raw_password_timeout: u64,
) -> (r: (TimerState, TickAction))
    requires
        s.timer_at_most(now),
    ensures
        r == spec_tick(
            s,
            match line {
                Some(l) => Some(l@),
                None => None::<Seq<char>>,
            },
            now,
            idle_threshold,
            raw_password_timeout,
        ),
        r.0.timer_at_most(now),
{
    let s1 = match line {
        Some(l) => apply_event(s, classify(l), now),
        None => s,
    };
    evaluate(s1, now, idle_threshold, raw_password_timeout)
}

/// Whether a suspend must be skipped: the inhibitor marker was touched
/// within the lookback window of eight hours before `now` (both in
/// seconds); an unreadable marker never inhibits.
pub open spec fn spec_inhibit(modified: Option<u64>, now: u64) -> bool {
    match modified {
        Some(m) => m + 8 * 60 * 60 >= now,
        None => false,
    }
}

/// Decides whether the inhibitor marker suppresses a suspend, from the
/// marker's modification time (if it could be read) and the current
/// time, both in seconds.
pub fn should_inhibit(modified: Option<u64>, now: u64) -> (r: bool)
    ensures
        r == spec_inhibit(modified, now),
{
    match modified {
        Some(m) => {
            if now <= 8 * 60 * 60 {
                true
            } else {
                m >= now - 8 * 60 * 60
            }
        },
        None => false,
    }
}

/// Law: any non-lock line resets the state to idle and decides
/// nothing, whatever the state was — so repeated non-lock lines always
/// leave the machine idle.
pub proof fn lemma_other_resets(
    s: TimerState,
    line: Seq<char>,
    now: u64,
    idle_threshold: u64,
    raw_password_timeout: u64,
)
    requires
        !contains_seq(line, lock_chars()),
    ensures
        spec_tick(s, Some(line), now, idle_threshold, raw_password_timeout) == (
            (TimerState { lock_timer: None, suspended_marker: false }),
            TickAction::Nothing,
        ),
{
}

/// Law: a lock line arms the lock timer to the current time, keeps the
/// suspended marker exactly as it was, and decides nothing in the same
/// pass.
pub proof fn lemma_lock_keeps_marker(
    s: TimerState,
    line: Seq<char>,
    now: u64,
    idle_threshold: u64,
    raw_password_timeout: u64,
)
    requires
        contains_seq(line, lock_chars()),
    ensures
        spec_tick(s, Some(line), now, idle_threshold, raw_password_timeout) == (
            (TimerState { lock_timer: Some(now), suspended_marker: s.suspended_marker }),
            TickAction::Nothing,
        ),
{
}

/// Law: two lock lines in a row time the session from the later line
/// and still keep the suspended marker as it stood before both.
pub proof fn lemma_repeated_lock(
    s: TimerState,
    l1: Seq<char>,
    l2: Seq<char>,
    n1: u64,
    n2: u64,
    idle_threshold: u64,
    raw_password_timeout: u64,
)
    requires
        contains_seq(l1, lock_chars()),
        contains_seq(l2, lock_chars()),
    ensures
        spec_tick(
            spec_tick(s, Some(l1), n1, idle_threshold, raw_password_timeout).0,
            Some(l2),
            n2,
            idle_threshold,
            raw_password_timeout,
        ).0 == (TimerState { lock_timer: Some(n2), suspended_marker: s.suspended_marker }),
{
}

/// Law: a suspend decision never fires twice in a row: whatever state
/// an evaluation that suspended left behind, the very next evaluation
/// can only re-arm the timer, so waking without an unlock never
/// suspends again at once.
pub proof fn lemma_no_immediate_resuspend(
    s: TimerState,
    n1: u64,
    n2: u64,
    idle_threshold: u64,
    raw_password_timeout: u64,
)
    requires
        spec_evaluate(s, n1, idle_threshold, raw_password_timeout).1
            == TickAction::SuspendIdleElapsed || spec_evaluate(
            s,
            n1,
            idle_threshold,
            raw_password_timeout,
        ).1 == TickAction::SuspendPasswordElapsed,
    ensures
        spec_evaluate(
            spec_evaluate(s, n1, idle_threshold, raw_password_timeout).0,
            n2,
            idle_threshold,
            raw_password_timeout,
        ).1 == TickAction::Rearm,
{
}

/// Law: with the timer armed and no suspend yet taken, one evaluation
/// fires exactly when strictly more than the idle threshold has
/// elapsed: one unit past the threshold suspends once and sets the
/// marker, while exactly at the threshold nothing fires.
pub proof fn lemma_idle_threshold_boundary(
    t: u64,
    now_over: u64,
    now_at: u64,
    idle_threshold: u64,
    raw_password_timeout: u64,
)
    requires
        t <= now_at,
        now_at - t == idle_threshold,
        t <= now_over,
        now_over - t == idle_threshold + 1,
    ensures
        spec_evaluate(
            (TimerState { lock_timer: Some(t), suspended_marker: false }),
            now_over,
            idle_threshold,
            raw_password_timeout,
        ) == ((TimerState { lock_timer: None, suspended_marker: true }), TickAction::SuspendIdleElapsed),
        spec_evaluate(
            (TimerState { lock_timer: Some(t), suspended_marker: false }),
            now_at,
            idle_threshold,
            raw_password_timeout,
        ) == ((TimerState { lock_timer: Some(t), suspended_marker: false }), TickAction::Nothing),
{
}

} // verus!
