use uptime_kuma_rs::incidents::{reconstruct_incidents, select_transitions, HistoryRow};
use uptime_kuma_rs::error::AppError;
use uptime_kuma_rs::model::Incident;
use uptime_kuma_rs::time::{fmt_time, Timestamp};

/// A fixed "now": 2026-07-15T12:00:00Z.
const NOW: i64 = 1_784_116_800;

fn at(minutes_ago: i64) -> Timestamp {
    Timestamp::new(NOW - 60 * minutes_ago, 0).unwrap()
}

/// A stored row `minutes_ago` before `NOW`; status 0 = down, 1 = up, 2 = pending,
/// 3 = maintenance.
fn row(monitor_id: i64, minutes_ago: i64, status: i64) -> HistoryRow {
    HistoryRow { monitor_id, time: fmt_time(at(minutes_ago)), status }
}

/// The rows as the history query returns them: ordered by monitor, then time.
fn history(mut rows: Vec<HistoryRow>) -> Vec<HistoryRow> {
    rows.sort_by(|a, b| (a.monitor_id, a.time.clone()).cmp(&(b.monitor_id, b.time.clone())));
    rows
}

fn incidents(rows: Vec<HistoryRow>, since: Timestamp) -> Vec<Incident> {
    reconstruct_incidents(&history(rows), since).unwrap()
}

#[test]
fn closed_incident_has_started_resolved_and_duration() {
    let incidents = incidents(vec![row(1, 30, 1), row(1, 20, 0), row(1, 10, 1)], at(60));
    assert_eq!(incidents.len(), 1);
    let inc = &incidents[0];
    assert_eq!(inc.monitor_id, 1);
    assert_eq!(inc.started_at, at(20));
    assert_eq!(inc.resolved_at, Some(at(10)));
    assert_eq!(inc.duration_seconds, Some(600));
}

#[test]
fn ongoing_incident_has_no_resolved_at() {
    let incidents = incidents(vec![row(1, 30, 1), row(1, 20, 0)], at(60));
    assert_eq!(incidents.len(), 1);
    assert_eq!(incidents[0].resolved_at, None);
    assert_eq!(incidents[0].duration_seconds, None);
}

#[test]
fn first_ever_beat_down_still_opens_an_incident() {
    let incidents = incidents(vec![row(1, 5, 0)], at(60));
    assert_eq!(incidents.len(), 1);
    assert_eq!(incidents[0].resolved_at, None);
    assert_eq!(incidents[0].started_at, at(5));
}

#[test]
fn pending_and_maintenance_never_open_or_close_incidents() {
    let incidents = incidents(vec![row(1, 40, 1), row(1, 30, 2), row(1, 20, 3), row(1, 10, 1)], at(60));
    assert_eq!(incidents.len(), 0);
}

#[test]
fn since_excludes_incidents_resolved_before_it_but_keeps_ongoing_ones() {
    let incidents = incidents(
        vec![
            row(1, 500, 1),
            row(1, 490, 0),
            row(1, 480, 1),
            row(2, 60, 1),
            row(2, 50, 0),
        ],
        at(100),
    );
    assert_eq!(incidents.len(), 1);
    assert_eq!(incidents[0].monitor_id, 2);
}

#[test]
fn two_monitors_are_tracked_independently() {
    let mut incidents = incidents(
        vec![row(1, 30, 1), row(1, 20, 0), row(1, 10, 1), row(2, 25, 0), row(2, 15, 1)],
        at(60),
    );
    incidents.sort_by_key(|i| i.monitor_id);
    assert_eq!(incidents.len(), 2);
    assert_eq!(incidents[0].monitor_id, 1);
    assert_eq!(incidents[1].monitor_id, 2);
    assert!(incidents.iter().all(|i| i.resolved_at.is_some()));
}

#[test]
fn most_recent_start_first_and_down_to_pending_closes() {
    let incidents = incidents(
        vec![
            row(1, 90, 0),
            row(1, 80, 2),
            row(1, 70, 0),
            row(1, 69, 0),
            row(1, 60, 3),
            row(2, 75, 0),
        ],
        at(1000),
    );
    let starts: Vec<Timestamp> = incidents.iter().map(|i| i.started_at).collect();
    assert_eq!(starts, vec![at(70), at(75), at(90)]);
    assert_eq!(incidents[0].duration_seconds, Some(600));
    assert_eq!(incidents[1].resolved_at, None);
    assert_eq!(incidents[2].resolved_at, Some(at(80)));
    assert!(incidents.iter().all(|i| i.resolved_at.is_some() == i.duration_seconds.is_some()));
}

#[test]
fn resolved_exactly_at_since_is_kept() {
    let incidents = incidents(vec![row(1, 30, 0), row(1, 20, 1)], at(20));
    assert_eq!(incidents.len(), 1);
}

#[test]
fn interleaved_rows_select_per_monitor_transitions() {
    let rows = vec![row(1, 30, 0), row(2, 30, 1), row(1, 20, 0), row(2, 20, 0), row(1, 10, 1)];
    let trans = select_transitions(&rows);
    let picked: Vec<(i64, i64)> = trans.iter().map(|r| (r.monitor_id, r.status)).collect();
    assert_eq!(picked, vec![(1, 0), (2, 0), (1, 1)]);
}

#[test]
fn malformed_time_on_a_transition_is_a_store_error() {
    let rows = vec![
        HistoryRow { monitor_id: 1, time: "garbage".to_string(), status: 0 },
        row(1, 10, 1),
    ];
    let err = reconstruct_incidents(&rows, at(60)).unwrap_err();
    assert!(matches!(err, AppError::Store(_)));
    assert_eq!(err.status_code(), 500);
}

#[test]
fn malformed_time_off_the_transitions_is_ignored() {
    let rows = vec![
        row(1, 30, 1),
        HistoryRow { monitor_id: 1, time: "garbage".to_string(), status: 1 },
    ];
    assert_eq!(reconstruct_incidents(&rows, at(60)).unwrap().len(), 0);
}

#[test]
fn incidents_are_maximal_down_runs_per_monitor() {
    let rows = vec![
        row(1, 50, 0),
        row(2, 50, 1),
        row(1, 45, 0),
        row(1, 40, 2),
        row(2, 35, 0),
        row(1, 30, 0),
        row(2, 25, 3),
        row(1, 20, 1),
        row(2, 15, 1),
        row(1, 5, 0),
    ];
    let closed = |m: i64, start: i64, end: i64| Incident {
        monitor_id: m,
        started_at: at(start),
        resolved_at: Some(at(end)),
        duration_seconds: Some(60 * (start - end) as u64),
    };
    let expected = vec![
        Incident { monitor_id: 1, started_at: at(5), resolved_at: None, duration_seconds: None },
        closed(1, 30, 20),
        closed(2, 35, 25),
        closed(1, 50, 40),
    ];
    // interleaved in time order, or grouped by monitor: the same runs
    assert_eq!(reconstruct_incidents(&rows, at(60)).unwrap(), expected);
    assert_eq!(incidents(rows, at(60)), expected);
}
