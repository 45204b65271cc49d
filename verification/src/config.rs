//! Validated configuration.
//!
//! The configuration names the symbols to watch, the seconds-of-day at which
//! to notify, and a debug flag.  Loading the file and decoding it happen
//! outside the library; the values come here for validation.  An empty
//! notification-times list is rejected at construction time — the wrap-around
//! search for the next notification time is undefined on it — as is a time
//! of day outside the valid range.
use vstd::prelude::*;
use crate::schedule::SECONDS_PER_DAY;

verus! {

/// Why a configuration was rejected.
#[derive(Debug, Clone, Copy, PartialEq, Eq, Structural)]
pub enum ConfigError {
    /// The notification-times list is empty.
    EmptyNotificationTimes,
    /// A notification time is not a second-of-day.
    NotificationTimeOutOfRange,
}

/// Every notification time is a second-of-day, and there is at least one.
pub open spec fn config_times_ok(times: Seq<u32>) -> bool {
    times.len() > 0 && forall|i: int| 0 <= i < times.len() ==> #[trigger] times[i] < SECONDS_PER_DAY
}

/// The fixed parameters of the notifier.
pub struct Config {
    /// Symbols to fetch a funding rate for, in notification order.
    pub symbols: Vec<String>,
    /// Seconds-of-day at which a notification cycle fires.
    pub notification_times: Vec<u32>,
    /// Whether one cycle runs immediately at startup.
    pub debug_push: bool,
}

impl Config {
    /// A configuration is well formed when its notification times are.
    pub open spec fn well_formed(&self) -> bool {
        config_times_ok(self.notification_times@)
    }

    /// Validated constructor.  An empty notification-times list and an
    /// out-of-range time are rejected here, at load time, so that the
    /// scheduler never sees them.
    pub fn new(symbols: Vec<String>, notification_times: Vec<u32>, debug_push: bool) -> (r: Result<
        Config,
        ConfigError,
    >)
        ensures
            r is Ok <==> config_times_ok(notification_times@),
            notification_times@.len() == 0 ==> r == Err::<Config, ConfigError>(
                ConfigError::EmptyNotificationTimes,
            ),
            notification_times@.len() > 0 && !config_times_ok(notification_times@) ==> r
                == Err::<Config, ConfigError>(ConfigError::NotificationTimeOutOfRange),
            r matches Ok(c) ==> c.symbols == symbols && c.notification_times == notification_times
                && c.debug_push == debug_push && c.well_formed(),
    {
        if notification_times.len() == 0 {
            return Err(ConfigError::EmptyNotificationTimes);
        }
        let mut i: usize = 0;
        while i < notification_times.len()
            invariant
                0 <= i <= notification_times@.len(),
                forall|k: int| 0 <= k < i ==> #[trigger] notification_times@[k] < SECONDS_PER_DAY,
            decreases notification_times@.len() - i,
        {
            if notification_times[i] >= SECONDS_PER_DAY {
                return Err(ConfigError::NotificationTimeOutOfRange);
            }
            i = i + 1;
        }
        Ok(Config { symbols, notification_times, debug_push })
    }
}

} // verus!
