//! Verified core of a read-only service that polls an Uptime Kuma status page, keeps a
//! heartbeat history and re-exposes monitors, uptime windows and incidents.
pub mod assoc;
pub mod error;
pub mod incidents;
pub mod runs;
pub mod poll;
pub mod uptime;
pub mod model;
pub mod text;
pub mod time;
pub mod status_page;
pub mod store;
pub mod cache;
pub mod config;
