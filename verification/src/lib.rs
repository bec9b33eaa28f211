//! Verified core of a router and Internet connectivity monitor.
pub mod text;
pub mod errors;
pub mod decimal;
pub mod duration;
pub mod validation;
pub mod ping;
pub mod dns_monitor;
pub mod http_monitor;
pub mod https_monitor;
pub mod environment_monitor;
pub mod csv_writer;
pub mod event_log;
pub mod monitor;
pub mod cli;
pub mod background;
