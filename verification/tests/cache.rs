use uptime_kuma_rs::cache::{require_snapshot, MemoryCache, RedisCache};
use uptime_kuma_rs::error::AppError;
use uptime_kuma_rs::model::{Monitor, MonitorStatus};

/// The uptime shape served by `/api/uptime`.
#[derive(Debug, Clone)]
struct UptimeWindow {
    monitor_id: i64,
    uptime_24h: f64,
    uptime_7d: f64,
    uptime_30d: f64,
    coverage_7d: f64,
    coverage_30d: f64,
}

/// The cached view served on the read path.
#[derive(Debug, Clone)]
struct Snapshot {
    monitors: Vec<Monitor>,
    uptime: Vec<UptimeWindow>,
}

fn window() -> UptimeWindow {
    UptimeWindow {
        monitor_id: 1,
        uptime_24h: 1.0,
        uptime_7d: 0.99,
        uptime_30d: 0.95,
        coverage_7d: 0.4,
        coverage_30d: 0.1,
    }
}

#[test]
fn returns_monitors_from_cache() {
    let mut cache: MemoryCache<Snapshot> = MemoryCache::new();
    let monitor = Monitor {
        id: 1,
        name: "service-a".into(),
        group: Some("Servizi".into()),
        status: MonitorStatus::Up,
        latency_ms: Some(7),
    };
    cache.put_snapshot(Snapshot { monitors: vec![monitor], uptime: vec![] });

    let body = require_snapshot(cache.get_snapshot()).unwrap().monitors.clone();
    assert_eq!(body.len(), 1);
    assert_eq!(body[0].name, "service-a");
    assert_eq!(body[0].group.as_deref(), Some("Servizi"));
}

#[test]
fn monitors_returns_no_snapshot_error_when_empty() {
    let cache: MemoryCache<Snapshot> = MemoryCache::new();
    let err = require_snapshot(cache.get_snapshot()).map(|s| s.monitors.clone()).unwrap_err();
    assert!(matches!(err, AppError::NoSnapshot));
}

#[test]
fn returns_uptime_from_cache() {
    let mut cache: MemoryCache<Snapshot> = MemoryCache::new();
    cache.put_snapshot(Snapshot { monitors: vec![], uptime: vec![window()] });

    let body = require_snapshot(cache.get_snapshot()).unwrap().uptime.clone();
    assert_eq!(body.len(), 1);
    assert_eq!(body[0].monitor_id, 1);
    assert_eq!(body[0].uptime_24h, 1.0);
    assert_eq!(body[0].coverage_30d, 0.1);
    assert_eq!(body[0].uptime_7d + body[0].uptime_30d + body[0].coverage_7d, 0.99 + 0.95 + 0.4);
}

#[test]
fn uptime_returns_no_snapshot_error_when_empty() {
    let cache: MemoryCache<Snapshot> = MemoryCache::new();
    let err = require_snapshot(cache.get_snapshot()).map(|s| s.uptime.clone()).unwrap_err();
    assert!(matches!(err, AppError::NoSnapshot));
    assert_eq!(err.status_code(), 503);
}

#[test]
fn later_write_replaces_earlier_snapshot() {
    let mut cache: MemoryCache<u32> = MemoryCache::new();
    assert!(cache.get_snapshot().is_none());
    cache.put_snapshot(1);
    assert_eq!(cache.get_snapshot(), Some(&1));
    cache.put_snapshot(2);
    assert_eq!(cache.get_snapshot(), Some(&2));
}

#[test]
fn redis_cache_keeps_its_url() {
    let c = RedisCache::new("redis://localhost:6379");
    assert_eq!(c.redis_url(), "redis://localhost:6379");
}
