use uptime_kuma_rs::config::{
    default_database_url, default_listen_addr, default_poll_interval, default_retention_days, Config,
};
use uptime_kuma_rs::error::AppError;

#[test]
fn config_defaults() {
    assert_eq!(default_poll_interval(), 60);
    assert_eq!(default_listen_addr(), "0.0.0.0:8080");
    assert_eq!(default_database_url(), "sqlite://data/uptime.db");
    assert_eq!(default_retention_days(), 31);
    let c = Config {
        kuma_base_url: "http://example".into(),
        kuma_status_page_slug: "homelab".into(),
        poll_interval_seconds: default_poll_interval(),
        kuma_metrics_api_key: None,
        listen_addr: default_listen_addr(),
        api_key: None,
        cors_allowed_origins: vec![],
        database_url: "sqlite://memory".into(),
        history_retention_days: default_retention_days(),
        redis_url: None,
    };
    assert_eq!(c.history_retention_days, 31);
}

#[test]
fn error_status_codes() {
    assert_eq!(AppError::Unauthorized.status_code(), 401);
    assert_eq!(AppError::NoSnapshot.status_code(), 503);
    assert_eq!(AppError::Upstream("x".into()).status_code(), 502);
    assert_eq!(AppError::Parse("x".into()).status_code(), 500);
    assert_eq!(AppError::Cache("x".into()).status_code(), 500);
    assert_eq!(AppError::Store("x".into()).status_code(), 500);
    assert_eq!(AppError::Config("x".into()).status_code(), 500);
}
