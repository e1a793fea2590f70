//! Live gateway for Open Glider Network position reports: the verified core.
//!
//! The modules hold the logic of the gateway: the per-hour time buckets and the
//! reconstruction of report times, the compact binary record of the history
//! store, the geographic bounding boxes of subscriptions, the text protocol of
//! the live sessions, and the hub that routes reports to sessions.
//! Coordinates are held in microdegrees and times in UNIX seconds.
pub mod aprs;
pub mod codec;
pub mod ddb;
pub mod decimal;
pub mod gateway;
pub mod geo;
pub mod store;
pub mod text;
pub mod time_buckets;
pub mod units;
pub mod ws_client;
