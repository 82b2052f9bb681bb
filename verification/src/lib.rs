//! Verified core of the vigild service supervisor.
pub mod text;
pub mod process_util;
pub mod duration;
pub mod query;
pub mod identity;
pub mod auth;
pub mod kv;
pub mod alert;
pub mod logs;
pub mod plan;
pub mod check;
pub mod overlord;
pub mod service;
pub mod reaper;
pub mod server;
pub mod api;
pub mod alert_format;
pub mod metrics;
pub mod daemon;
pub mod layers;
