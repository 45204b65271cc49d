use fr_notify::config::Config;
use fr_notify::config::ConfigError;

#[test]
fn empty_notification_times_are_rejected_at_load_time() {
    let r = Config::new(vec!["BTCUSDT".to_string()], vec![], false);
    assert!(matches!(r, Err(ConfigError::EmptyNotificationTimes)));
}

#[test]
fn out_of_range_time_is_rejected() {
    let r = Config::new(vec!["BTCUSDT".to_string()], vec![0, 86400], false);
    assert!(matches!(r, Err(ConfigError::NotificationTimeOutOfRange)));
}

#[test]
fn valid_configuration_keeps_its_values() {
    let cfg = Config::new(
        vec!["BTCUSDT".to_string(), "ETHUSDT".to_string()],
        vec![0, 28800, 57600],
        true,
    )
    .unwrap();
    assert_eq!(cfg.symbols, vec!["BTCUSDT".to_string(), "ETHUSDT".to_string()]);
    assert_eq!(cfg.notification_times, vec![0, 28800, 57600]);
    assert!(cfg.debug_push);
}

#[test]
fn last_valid_second_of_day_is_accepted() {
    let cfg = Config::new(vec!["BTCUSDT".to_string()], vec![86399], false).unwrap();
    assert_eq!(cfg.notification_times, vec![86399]);
}
