//! Funding-rate notifier library.
//!
//! The verified core of a small system that polls an exchange's public
//! market-data endpoint for perpetual-futures funding rates and pushes
//! formatted alerts to a mobile-notification service at configured times
//! of day.  This crate holds the logic: configuration validation, the
//! scheduling decisions, market-data response validation, and the exact
//! decimal formatting of funding rates.  The surrounding binary performs
//! the clock reads, file reads and HTTP calls and feeds plain values in.
pub mod config;
pub mod decimal;
pub mod market;
pub mod notify;
pub mod schedule;
