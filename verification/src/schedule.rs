//! Scheduling decisions for the notification loop.
//!
//! The loop itself (clock sampling, one-second sleeps, the network calls)
//! lives outside the library; each tick it feeds the current second-of-day
//! in and acts on the decision handed back.  One extra step before the
//! first tick covers the startup cycle that the debug flag asks for.
use vstd::prelude::*;
use crate::config::Config;
use crate::decimal::char_of_digit;
use crate::decimal::push_digit_char;

verus! {

/// Number of seconds in a day; valid seconds-of-day lie strictly below it.
pub const SECONDS_PER_DAY: u32 = 86400;

/// The current second-of-day, computed from a wall-clock reading.
pub fn second_of_day(hour: u32, minute: u32, second: u32) -> (r: u32)
    requires
        hour < 24,
        minute < 60,
        second < 60,
    ensures
        r == hour * 3600 + minute * 60 + second,
        r < SECONDS_PER_DAY,
{
    hour * 3600 + minute * 60 + second
}

/// Whether `s` is one of the configured times.
pub open spec fn times_contain(times: Seq<u32>, s: u32) -> bool {
    exists|i: int| 0 <= i < times.len() && times[i] == s
}

/// Whether a notification cycle is due: exactly when the current
/// second-of-day is one of the configured notification times.
pub fn should_notify(notification_times: &Vec<u32>, current_seconds: u32) -> (r: bool)
    ensures
        r == times_contain(notification_times@, current_seconds),
{
    let mut i: usize = 0;
    while i < notification_times.len()
        invariant
            0 <= i <= notification_times@.len(),
            forall|k: int| 0 <= k < i ==> #[trigger] notification_times@[k] != current_seconds,
        decreases notification_times@.len() - i,
    {
        if notification_times[i] == current_seconds {
            return true;
        }
        i = i + 1;
    }
    false
}

/// The next time of day a cycle will fire: the smallest configured time
/// strictly after `current_seconds`, or the smallest configured time
/// overall when none is left today (the daily cycle wraps around).
pub fn get_next_notification_time(current_seconds: u32, notification_times: &Vec<u32>) -> (r: u32)
    requires
        notification_times@.len() > 0,
    ensures
        times_contain(notification_times@, r),
        (exists|i: int|
            0 <= i < notification_times@.len() && #[trigger] notification_times@[i]
                > current_seconds) ==> r > current_seconds && forall|i: int|
            0 <= i < notification_times@.len() && #[trigger] notification_times@[i]
                > current_seconds ==> r <= notification_times@[i],
        !(exists|i: int|
            0 <= i < notification_times@.len() && #[trigger] notification_times@[i]
                > current_seconds) ==> forall|i: int|
            0 <= i < notification_times@.len() ==> r <= #[trigger] notification_times@[i],
{
    let mut min_all: u32 = notification_times[0];
    let mut best_above: Option<u32> = None;
    let mut i: usize = 0;
    while i < notification_times.len()
        invariant
            notification_times@.len() > 0,
            0 <= i <= notification_times@.len(),
            times_contain(notification_times@, min_all),
            forall|k: int| 0 <= k < i ==> min_all <= #[trigger] notification_times@[k],
            best_above is None ==> forall|k: int|
                0 <= k < i ==> #[trigger] notification_times@[k] <= current_seconds,
            best_above matches Some(v) ==> v > current_seconds && times_contain(
                notification_times@,
                v,
            ) && forall|k: int|
                0 <= k < i && #[trigger] notification_times@[k] > current_seconds ==> v
                    <= notification_times@[k],
        decreases notification_times@.len() - i,
    {
        let t = notification_times[i];
        if t < min_all {
            min_all = t;
        }
        if t > current_seconds {
            best_above = match best_above {
                None => Some(t),
                Some(v) => if t < v {
                    Some(t)
                } else {
                    Some(v)
                },
            };
        }
        i = i + 1;
    }
    match best_above {
        Some(v) => v,
        None => min_all,
    }
}

/// Two-digit zero-padded rendering of a value below one hundred.
pub open spec fn two_digit_chars(v: int) -> Seq<char> {
    seq![char_of_digit(v / 10), char_of_digit(v % 10)]
}

/// `HH:MM:SS` rendering of a second-of-day.
pub open spec fn time_string(secs: int) -> Seq<char> {
    two_digit_chars(secs / 3600) + seq![':'] + two_digit_chars(secs % 3600 / 60) + seq![':']
        + two_digit_chars(secs % 60)
}

/// A second-of-day as a clock reading, `HH:MM:SS`, each part zero-padded
/// to two digits.
pub fn seconds_to_time_string(seconds: u32) -> (r: String)
    requires
        seconds < SECONDS_PER_DAY,
    ensures
        r@ == time_string(seconds as int),
{
    let hours = seconds / 3600;
    let minutes = seconds % 3600 / 60;
    let secs = seconds % 60;
    let mut out = String::new();
    push_digit_char(&mut out, (hours / 10) as u8);
    push_digit_char(&mut out, (hours % 10) as u8);
    proof {
        reveal_strlit(":");
    }
    out.append(":");
    push_digit_char(&mut out, (minutes / 10) as u8);
    push_digit_char(&mut out, (minutes % 10) as u8);
    out.append(":");
    push_digit_char(&mut out, (secs / 10) as u8);
    push_digit_char(&mut out, (secs % 10) as u8);
    proof {
        assert(out@ =~= time_string(seconds as int));
    }
    out
}

/// What the loop is told to do at one step.
#[derive(Debug, Clone, Copy, PartialEq, Eq, Structural)]
pub enum SchedulerAction {
    /// Run a notification cycle because the debug flag asks for one at startup.
    RunStartupCycle,
    /// Run a notification cycle because a configured time was reached.
    RunScheduledCycle,
    /// Do nothing this second.
    Idle,
}

/// What the scheduler remembers between steps: whether the startup step
/// already happened.
#[derive(Debug, Clone, Copy, PartialEq, Eq, Structural)]
pub struct SchedulerState {
    pub startup_done: bool,
}

impl SchedulerState {
    /// The state before any step has run.
    pub fn initial() -> (r: SchedulerState)
        ensures
            !r.startup_done,
    {
        SchedulerState { startup_done: false }
    }
}

/// The decision of one scheduler step.  Before the startup step, the clock
/// is not consulted at all: a cycle runs exactly when the debug flag is
/// set.  From then on, a cycle runs exactly when the current second-of-day
/// is one of the configured times.
pub open spec fn step_action(
    debug_push: bool,
    startup_done: bool,
    times: Seq<u32>,
    current_seconds: u32,
) -> SchedulerAction {
    if !startup_done {
        if debug_push {
            SchedulerAction::RunStartupCycle
        } else {
            SchedulerAction::Idle
        }
    } else {
        if times_contain(times, current_seconds) {
            SchedulerAction::RunScheduledCycle
        } else {
            SchedulerAction::Idle
        }
    }
}

/// One step of the scheduler: the loop hands in the state and the current
/// second-of-day and receives the successor state and the action to take.
pub fn scheduler_step(config: &Config, state: SchedulerState, current_seconds: u32) -> (r: (
    SchedulerState,
    SchedulerAction,
))
    ensures
        r.0.startup_done,
        r.1 == step_action(
            config.debug_push,
            state.startup_done,
            config.notification_times@,
            current_seconds,
        ),
{
    if !state.startup_done {
        let action = if config.debug_push {
            SchedulerAction::RunStartupCycle
        } else {
            SchedulerAction::Idle
        };
        (SchedulerState { startup_done: true }, action)
    } else {
        let action = if should_notify(&config.notification_times, current_seconds) {
            SchedulerAction::RunScheduledCycle
        } else {
            SchedulerAction::Idle
        };
        (SchedulerState { startup_done: true }, action)
    }
}

/// Once started, a notification cycle fires if and only if the current
/// second-of-day is one of the configured notification times — an exact
/// match, not a range.
pub proof fn lemma_fires_iff_configured(debug_push: bool, times: Seq<u32>, current_seconds: u32)
    ensures
        step_action(debug_push, true, times, current_seconds) == SchedulerAction::RunScheduledCycle
            <==> times_contain(times, current_seconds),
{
}

/// With the debug flag set, the step before the first tick runs a startup
/// cycle whatever the clock shows, and no later step ever does; without
/// the flag, no startup cycle runs at all.  Since every step leaves the
/// startup flag set, exactly one startup cycle runs when — and only when —
/// the debug flag is set.
pub proof fn lemma_startup_cycle_exactly_once(
    debug_push: bool,
    times: Seq<u32>,
    s1: u32,
    s2: u32,
)
    ensures
        debug_push ==> step_action(debug_push, false, times, s1)
            == SchedulerAction::RunStartupCycle,
        !debug_push ==> step_action(debug_push, false, times, s1) != SchedulerAction::RunStartupCycle,
        step_action(debug_push, true, times, s2) != SchedulerAction::RunStartupCycle,
{
}

} // verus!
