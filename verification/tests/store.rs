use uptime_kuma_rs::config::{default_database_url, default_retention_days};
use uptime_kuma_rs::error::AppError;
use uptime_kuma_rs::store::{
    coverage_seconds, parent_dir_to_create, retention_cutoff, sqlite_file_path, sqlite_parent_dir,
    window_start, NoopStore, Window,
};
use uptime_kuma_rs::time::{fmt_time, Timestamp};

const NOW: i64 = 1_784_116_800;

fn now() -> Timestamp {
    Timestamp::new(NOW, 250_000_000).unwrap()
}

#[test]
fn window_lengths() {
    assert_eq!(Window::Day.days(), 1);
    assert_eq!(Window::Week.days(), 7);
    assert_eq!(Window::Month.days(), 30);
    assert_eq!(Window::Week.seconds(), 7 * 86_400);
    assert!(default_retention_days() > Window::Month.days());
}

#[test]
fn window_start_is_whole_days_back() {
    let start = window_start(now(), Window::Week).unwrap();
    assert_eq!(start, Timestamp::new(NOW - 7 * 86_400, 250_000_000).unwrap());
    let cutoff = retention_cutoff(now(), 31).unwrap();
    assert_eq!(cutoff.secs, NOW - 31 * 86_400);
    let min = Timestamp::new(uptime_kuma_rs::time::MIN_UTC_SECS, 0).unwrap();
    assert_eq!(retention_cutoff(min, 1), None);
    assert_eq!(retention_cutoff(min, 0), Some(min));
}

#[test]
fn empty_window_reports_zero_coverage() {
    let start = window_start(now(), Window::Month).unwrap();
    assert_eq!(coverage_seconds(now(), start, None), Ok(None));
}

#[test]
fn coverage_counts_from_oldest_beat() {
    let start = window_start(now(), Window::Week).unwrap();
    let oldest = fmt_time(Timestamp::new(NOW - 3 * 3600, 0).unwrap());
    assert_eq!(coverage_seconds(now(), start, Some(&oldest)), Ok(Some(3 * 3600)));
}

#[test]
fn coverage_is_capped_at_the_window_start() {
    let start = window_start(now(), Window::Week).unwrap();
    let oldest = fmt_time(Timestamp::new(NOW - 40 * 86_400, 0).unwrap());
    assert_eq!(coverage_seconds(now(), start, Some(&oldest)), Ok(Some(7 * 86_400)));
}

#[test]
fn coverage_of_a_beat_in_the_future_is_zero() {
    let start = window_start(now(), Window::Week).unwrap();
    let oldest = fmt_time(Timestamp::new(NOW + 60, 0).unwrap());
    assert_eq!(coverage_seconds(now(), start, Some(&oldest)), Ok(Some(0)));
}

#[test]
fn coverage_of_malformed_time_is_a_store_error() {
    let start = window_start(now(), Window::Week).unwrap();
    let err = coverage_seconds(now(), start, Some("yesterday")).unwrap_err();
    assert!(matches!(err, AppError::Store(_)));
}

#[test]
fn sqlite_paths() {
    assert_eq!(sqlite_file_path(&default_database_url()), Some("data/uptime.db".to_string()));
    assert_eq!(sqlite_file_path("sqlite:///data/uptime.db?mode=rwc"), Some("/data/uptime.db".to_string()));
    assert_eq!(sqlite_file_path("sqlite://:memory:"), None);
    assert_eq!(sqlite_file_path("sqlite://"), None);
    assert_eq!(sqlite_file_path("sqlite://?mode=memory"), None);
    assert_eq!(sqlite_file_path("uptime.db"), Some("uptime.db".to_string()));
    assert_eq!(sqlite_file_path("sqlite::memory:"), Some("sqlite::memory:".to_string()));
}

#[test]
fn noop_store_constructs() {
    let _store = NoopStore::new();
}

#[test]
fn parent_directory_to_create_before_connecting() {
    assert_eq!(sqlite_parent_dir(&default_database_url()), Some("data".to_string()));
    assert_eq!(sqlite_parent_dir("sqlite:///var/lib/kuma/uptime.db?mode=rwc"), Some("/var/lib/kuma".to_string()));
    assert_eq!(sqlite_parent_dir("sqlite://uptime.db"), None);
    assert_eq!(sqlite_parent_dir("uptime.db"), None);
    assert_eq!(sqlite_parent_dir("sqlite://:memory:"), None);
    assert_eq!(sqlite_parent_dir("sqlite://"), None);
    assert_eq!(parent_dir_to_create(Some("data".to_string())), Some("data".to_string()));
    assert_eq!(parent_dir_to_create(Some(String::new())), None);
    assert_eq!(parent_dir_to_create(None), None);
}

#[test]
fn parent_of_a_two_component_path() {
    assert_eq!(sqlite_parent_dir("sqlite://data/uptime.db?mode=rwc"), Some("data".to_string()));
    assert_eq!(sqlite_parent_dir("sqlite://db/x"), Some("db".to_string()));
}
