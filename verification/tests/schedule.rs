use fr_notify::config::Config;
use fr_notify::schedule::get_next_notification_time;
use fr_notify::schedule::scheduler_step;
use fr_notify::schedule::second_of_day;
use fr_notify::schedule::seconds_to_time_string;
use fr_notify::schedule::should_notify;
use fr_notify::schedule::SchedulerAction;
use fr_notify::schedule::SchedulerState;

fn config(times: Vec<u32>, debug_push: bool) -> Config {
    Config::new(vec!["BTCUSDT".to_string()], times, debug_push).unwrap()
}

#[test]
fn second_of_day_combines_clock_parts() {
    assert_eq!(second_of_day(0, 0, 0), 0);
    assert_eq!(second_of_day(8, 0, 0), 28800);
    assert_eq!(second_of_day(23, 59, 59), 86399);
}

#[test]
fn cycle_fires_only_on_exact_match() {
    let times: Vec<u32> = vec![0, 28800, 57600];
    assert!(should_notify(&times, 0));
    assert!(should_notify(&times, 28800));
    assert!(should_notify(&times, 57600));
    assert!(!should_notify(&times, 1));
    assert!(!should_notify(&times, 28799));
    assert!(!should_notify(&times, 28801));
    assert!(!should_notify(&times, 86399));
}

#[test]
fn next_time_is_smallest_strictly_greater() {
    let times: Vec<u32> = vec![0, 28800, 57600];
    assert_eq!(get_next_notification_time(30000, &times), 57600);
    assert_eq!(get_next_notification_time(0, &times), 28800);
    assert_eq!(get_next_notification_time(28799, &times), 28800);
    assert_eq!(get_next_notification_time(28800, &times), 57600);
}

#[test]
fn next_time_wraps_to_smallest_overall() {
    let times: Vec<u32> = vec![0, 28800, 57600];
    assert_eq!(get_next_notification_time(60000, &times), 0);
    assert_eq!(get_next_notification_time(57600, &times), 0);
    let late: Vec<u32> = vec![57600, 28800];
    assert_eq!(get_next_notification_time(86399, &late), 28800);
}

#[test]
fn time_strings_are_zero_padded() {
    assert_eq!(seconds_to_time_string(0), "00:00:00");
    assert_eq!(seconds_to_time_string(28800), "08:00:00");
    assert_eq!(seconds_to_time_string(57600), "16:00:00");
    assert_eq!(seconds_to_time_string(86399), "23:59:59");
    assert_eq!(seconds_to_time_string(3661), "01:01:01");
}

#[test]
fn debug_flag_runs_one_startup_cycle_regardless_of_time() {
    let cfg = config(vec![28800], true);
    let state = SchedulerState::initial();
    // Far from any configured time, the first step still runs a cycle.
    let (state, action) = scheduler_step(&cfg, state, 12345);
    assert_eq!(action, SchedulerAction::RunStartupCycle);
    // Never a second startup cycle, whatever the clock shows.
    let (state, action) = scheduler_step(&cfg, state, 12346);
    assert_eq!(action, SchedulerAction::Idle);
    let (_, action) = scheduler_step(&cfg, state, 28800);
    assert_eq!(action, SchedulerAction::RunScheduledCycle);
}

#[test]
fn no_startup_cycle_without_debug_flag() {
    let cfg = config(vec![28800], false);
    let state = SchedulerState::initial();
    let (state, action) = scheduler_step(&cfg, state, 28800);
    assert_eq!(action, SchedulerAction::Idle);
    let (_, action) = scheduler_step(&cfg, state, 28800);
    assert_eq!(action, SchedulerAction::RunScheduledCycle);
}

#[test]
fn started_scheduler_fires_iff_configured() {
    let cfg = config(vec![0, 28800, 57600], false);
    let state = SchedulerState { startup_done: true };
    for (now, expected) in [
        (0u32, SchedulerAction::RunScheduledCycle),
        (1, SchedulerAction::Idle),
        (28800, SchedulerAction::RunScheduledCycle),
        (28801, SchedulerAction::Idle),
        (57600, SchedulerAction::RunScheduledCycle),
        (86399, SchedulerAction::Idle),
    ] {
        let (next, action) = scheduler_step(&cfg, state, now);
        assert_eq!(action, expected);
        assert!(next.startup_done);
    }
}
