use vstd::prelude::*;
use vstd::string::*;

use crate::store::Window;

verus! {

/// Service configuration (environment first, with an optional `config.toml` overlay).
pub struct Config {
    /// Uptime Kuma base URL (required). Env: `KUMA_BASE_URL`.
    pub kuma_base_url: String,
    /// Status-page slug, the primary data source (required). Env: `KUMA_STATUS_PAGE_SLUG`.
    pub kuma_status_page_slug: String,
    /// Poll interval in seconds. Env: `POLL_INTERVAL_SECONDS`.
    pub poll_interval_seconds: u64,
    /// Optional `/metrics` API key (fallback source). Env: `KUMA_METRICS_API_KEY`.
    pub kuma_metrics_api_key: Option<String>,
    /// Listen address. Env: `LISTEN_ADDR`.
    pub listen_addr: String,
    /// This service's own API key for `X-Api-Key` auth. Env: `API_KEY`.
    pub api_key: Option<String>,
    /// CORS allowed origins. Env: `CORS_ALLOWED_ORIGINS`.
    pub cors_allowed_origins: Vec<String>,
    /// SQLite database URL. Env: `DATABASE_URL`.
    pub database_url: String,
    /// Heartbeat retention in days. Env: `HISTORY_RETENTION_DAYS`.
    pub history_retention_days: u32,
    /// Redis URL; when unset, the in-memory cache is used. Env: `REDIS_URL`.
    pub redis_url: Option<String>,
}

/// Default retention of heartbeat history, in days.
pub open spec fn default_retention_spec() -> u32 {
    31
}

/// Default poll interval: 60 seconds (the upstream heartbeat endpoint is cached for about
/// a minute, so polling faster yields nothing fresher).
pub fn default_poll_interval() -> (s: u64)
    ensures
        s == 60,
{
    60
}

/// Default listen address.
pub fn default_listen_addr() -> (s: String)
    ensures
        s@ == "0.0.0.0:8080"@,
{
    String::from_str("0.0.0.0:8080")
}

/// Default SQLite database URL.
pub fn default_database_url() -> (s: String)
    ensures
        s@ == "sqlite://data/uptime.db"@,
{
    String::from_str("sqlite://data/uptime.db")
}

/// Default heartbeat retention in days.
pub fn default_retention_days() -> (d: u32)
    ensures
        d == default_retention_spec(),
        d == 31,
{
    31
}

/// The default retention keeps more history than the longest uptime window needs.
pub proof fn lemma_default_retention_exceeds_windows(w: Window)
    ensures
        default_retention_spec() > w.length_days(),
{
}

} // verus!
