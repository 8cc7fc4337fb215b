use vstd::prelude::*;

use crate::time::Timestamp;

verus! {

/// Current operational state of a monitor.
/// Uptime Kuma heartbeat `status` codes: 0 = down, 1 = up, 2 = pending, 3 = maintenance.
#[derive(Debug, Clone, Copy, PartialEq, Eq, Structural)]
pub enum MonitorStatus {
    Up,
    Down,
    Pending,
    Maintenance,
}

/// Current status and latency of a single monitor (the public API shape).
#[derive(Debug, Clone)]
pub struct Monitor {
    /// Monitor id as Uptime Kuma assigns it (small positive integers).
    pub id: i64,
    pub name: String,
    /// The status-page group that lists the monitor.
    pub group: Option<String>,
    pub status: MonitorStatus,
    /// `None` when the monitor is not up or its latency is unknown.
    pub latency_ms: Option<u32>,
}

/// A period during which a monitor was down, reconstructed from heartbeat history.
#[derive(Debug, Clone, Copy, PartialEq, Eq)]
pub struct Incident {
    pub monitor_id: i64,
    pub started_at: Timestamp,
    /// `None` while the incident is ongoing.
    pub resolved_at: Option<Timestamp>,
    /// Whole seconds from start to resolution; set exactly when `resolved_at` is.
    pub duration_seconds: Option<u64>,
}

/// The status that a heartbeat code denotes; codes outside 0..=3 read as pending.
pub open spec fn status_of_code(code: int) -> MonitorStatus {
    if code == 0 {
        MonitorStatus::Down
    } else if code == 1 {
        MonitorStatus::Up
    } else if code == 2 {
        MonitorStatus::Pending
    } else if code == 3 {
        MonitorStatus::Maintenance
    } else {
        MonitorStatus::Pending
    }
}

/// The integer code under which a status is stored.
pub open spec fn code_of_status(s: MonitorStatus) -> int {
    match s {
        MonitorStatus::Down => 0,
        MonitorStatus::Up => 1,
        MonitorStatus::Pending => 2,
        MonitorStatus::Maintenance => 3,
    }
}

/// Maps an Uptime Kuma heartbeat status code to a `MonitorStatus`.
pub fn status_from_code(code: u8) -> (s: MonitorStatus)
    ensures
        s == status_of_code(code as int),
        code == 0 ==> s == MonitorStatus::Down,
        code == 1 ==> s == MonitorStatus::Up,
        code == 2 ==> s == MonitorStatus::Pending,
        code == 3 ==> s == MonitorStatus::Maintenance,
        code > 3 ==> s == MonitorStatus::Pending,
{
    match code {
        0 => MonitorStatus::Down,
        1 => MonitorStatus::Up,
        2 => MonitorStatus::Pending,
        3 => MonitorStatus::Maintenance,
        _ => MonitorStatus::Pending,
    }
}

/// The integer code under which a status is stored in the heartbeat history.
pub fn status_to_i64(s: MonitorStatus) -> (code: i64)
    ensures
        code == code_of_status(s),
        s == MonitorStatus::Down ==> code == 0,
        s == MonitorStatus::Up ==> code == 1,
        s == MonitorStatus::Pending ==> code == 2,
        s == MonitorStatus::Maintenance ==> code == 3,
{
    match s {
        MonitorStatus::Down => 0,
        MonitorStatus::Up => 1,
        MonitorStatus::Pending => 2,
        MonitorStatus::Maintenance => 3,
    }
}

/// Storing a status and reading its code back gives the same status, and every code
/// in 0..=3 is the stored code of the status it reads as.
pub proof fn lemma_status_code_round_trip(s: MonitorStatus, code: int)
    ensures
        status_of_code(code_of_status(s)) == s,
        0 <= code_of_status(s) <= 3,
        0 <= code <= 3 ==> code_of_status(status_of_code(code)) == code,
{
}

/// The codes statuses are stored under are Uptime Kuma's own: down 0, up 1, pending 2,
/// maintenance 3.
pub proof fn lemma_code_of_status_values()
    ensures
        code_of_status(MonitorStatus::Down) == 0,
        code_of_status(MonitorStatus::Up) == 1,
        code_of_status(MonitorStatus::Pending) == 2,
        code_of_status(MonitorStatus::Maintenance) == 3,
{
}

/// What each heartbeat code denotes: 0 down, 1 up, 2 pending, 3 maintenance, and any
/// other code pending.
pub proof fn lemma_status_of_code_values(code: int)
    ensures
        status_of_code(0) == MonitorStatus::Down,
        status_of_code(1) == MonitorStatus::Up,
        status_of_code(2) == MonitorStatus::Pending,
        status_of_code(3) == MonitorStatus::Maintenance,
        !(0 <= code <= 3) ==> status_of_code(code) == MonitorStatus::Pending,
{
}

} // verus!
