use vstd::prelude::*;

use crate::assoc::{first_index_of, lemma_first_index_exists, lemma_first_index_found, position_of_id};
use crate::error::AppError;
use crate::model::Incident;
use crate::runs::{lemma_reported_incidents_are_down_runs, run_incident_count};
use crate::time::{delta_seconds, parse_stored_time, rfc3339_utc_parse, seconds_between, Timestamp};

verus! {

broadcast use vstd::seq_lib::group_to_multiset_ensures;

/// One stored heartbeat as the history table holds it: monitor id, stored time text and
/// status code (0 = down).
#[derive(Debug, Clone)]
pub struct HistoryRow {
    pub monitor_id: i64,
    pub time: String,
    pub status: i64,
}

/// The status code of the latest row of monitor `m` in `rows`, if it has one.
pub open spec fn last_status_of(rows: Seq<HistoryRow>, m: i64) -> Option<i64>
    decreases rows.len(),
{
    if rows.len() == 0 {
        None
    } else if rows.last().monitor_id == m {
        Some(rows.last().status)
    } else {
        last_status_of(rows.drop_last(), m)
    }
}

/// Row `k` changes its monitor's down state: it is down and the monitor's previous row is
/// not (or there is none), or the previous row is down and it is not.
pub open spec fn is_transition(rows: Seq<HistoryRow>, k: int) -> bool {
    let prev = last_status_of(rows.take(k), rows[k].monitor_id);
    (rows[k].status == 0 && prev != Some(0i64)) || (prev == Some(0i64) && rows[k].status != 0)
}

/// The rows that change their monitor's down state, in order.
pub open spec fn transitions(rows: Seq<HistoryRow>) -> Seq<HistoryRow>
    decreases rows.len(),
{
    if rows.len() == 0 {
        Seq::empty()
    } else {
        let rest = transitions(rows.drop_last());
        if is_transition(rows, rows.len() - 1) {
            rest.push(rows.last())
        } else {
            rest
        }
    }
}

/// The rows with their times parsed, or the parse error of the first row whose stored time
/// is malformed.
pub open spec fn parsed_rows(rows: Seq<HistoryRow>) -> Result<Seq<(i64, Timestamp, i64)>, Seq<char>>
    decreases rows.len(),
{
    if rows.len() == 0 {
        Ok(Seq::empty())
    } else {
        match parsed_rows(rows.drop_last()) {
            Err(e) => Err(e),
            Ok(events) => match rfc3339_utc_parse(rows.last().time@) {
                Err(e) => Err(e),
                Ok((secs, nanos)) => Ok(
                    events.push((rows.last().monitor_id, Timestamp { secs, nanos }, rows.last().status)),
                ),
            },
        }
    }
}

/// An incident still open.
pub open spec fn ongoing(monitor_id: i64, started_at: Timestamp) -> Incident {
    Incident { monitor_id, started_at, resolved_at: None, duration_seconds: None }
}

/// Whole seconds from `started_at` to `resolved_at`, never negative.
pub open spec fn duration_of(started_at: Timestamp, resolved_at: Timestamp) -> u64 {
    let d = delta_seconds(resolved_at, started_at);
    if d < 0 {
        0
    } else {
        d as u64
    }
}

/// An incident closed at `resolved_at`.
pub open spec fn closed(monitor_id: i64, started_at: Timestamp, resolved_at: Timestamp) -> Incident {
    Incident {
        monitor_id,
        started_at,
        resolved_at: Some(resolved_at),
        duration_seconds: Some(duration_of(started_at, resolved_at)),
    }
}

/// Replaying transitions in order: a down transition opens (or restarts) the monitor's
/// incident; any other transition closes the monitor's open incident, if there is one.
/// The state is the closed incidents in closing order and the open ones in opening order.
pub open spec fn replay(events: Seq<(i64, Timestamp, i64)>) -> (Seq<Incident>, Seq<(i64, Timestamp)>)
    decreases events.len(),
{
    if events.len() == 0 {
        (Seq::empty(), Seq::empty())
    } else {
        let (done, open) = replay(events.drop_last());
        let (m, t, status) = events.last();
        if status == 0 {
            match first_index_of(open, m) {
                Some(i) => (done, open.update(i, (m, t))),
                None => (done, open.push((m, t))),
            }
        } else {
            match first_index_of(open, m) {
                Some(i) => (done.push(closed(m, open[i].1, t)), open.remove(i)),
                None => (done, open),
            }
        }
    }
}

/// All incidents of a replay: the closed ones, then the open ones.
pub open spec fn replayed_incidents(events: Seq<(i64, Timestamp, i64)>) -> Seq<Incident> {
    let (done, open) = replay(events);
    done + open.map_values(|p: (i64, Timestamp)| ongoing(p.0, p.1))
}

/// Whether an incident is reported for `since`: ongoing, or resolved at or after `since`.
pub open spec fn reported_since(i: Incident, since: Timestamp) -> bool {
    match i.resolved_at {
        None => true,
        Some(r) => since.le(r),
    }
}

/// The incidents of `s` reported for `since`, in order.
pub open spec fn kept_since(s: Seq<Incident>, since: Timestamp) -> Seq<Incident>
    decreases s.len(),
{
    if s.len() == 0 {
        Seq::empty()
    } else {
        let rest = kept_since(s.drop_last(), since);
        if reported_since(s.last(), since) {
            rest.push(s.last())
        } else {
            rest
        }
    }
}

/// `resolved_at` and `duration_seconds` are set together.
pub open spec fn fields_paired(i: Incident) -> bool {
    i.resolved_at is Some <==> i.duration_seconds is Some
}

/// An incident's duration is the time it lasted: for a resolved incident, the whole seconds
/// from its start to its resolution (0 if the resolution comes first); none while ongoing.
pub open spec fn duration_is_elapsed(i: Incident) -> bool {
    match i.resolved_at {
        Some(r) => i.duration_seconds == Some(
            if delta_seconds(r, i.started_at) < 0 {
                0u64
            } else {
                delta_seconds(r, i.started_at) as u64
            },
        ),
        None => i.duration_seconds is None,
    }
}

/// Most recent start first.
pub open spec fn recent_first(s: Seq<Incident>) -> bool {
    forall|i: int, j: int| 0 <= i < j < s.len() ==> (#[trigger] s[j]).started_at.le((#[trigger] s[i]).started_at)
}

/// The rows of `rows` that change their monitor's down state, in order. For rows ordered by
/// monitor and time this is the `LAG(status)` transition query over the history table.
pub fn select_transitions(rows: &Vec<HistoryRow>) -> (res: Vec<HistoryRow>)
    ensures
        res@ == transitions(rows@),
{
    let mut out: Vec<HistoryRow> = Vec::new();
    let mut last: Vec<(i64, i64)> = Vec::new();
    let mut k: usize = 0;
    while k < rows.len()
        invariant
            k <= rows.len(),
            out@ == transitions(rows@.take(k as int)),
            forall|i: int, j: int| 0 <= i < j < last.len() ==> last@[i].0 != last@[j].0,
            forall|i: int|
                0 <= i < last.len() ==> last_status_of(rows@.take(k as int), #[trigger] last@[i].0)
                    == Some(last@[i].1),
            forall|m: i64|
                (#[trigger] last_status_of(rows@.take(k as int), m)) is Some ==> exists|i: int|
                    0 <= i < last.len() && last@[i].0 == m,
        decreases rows.len() - k,
    {
        let ghost pre = rows@.take(k as int);
        let ghost post = rows@.take(k + 1);
        assert(post.drop_last() =~= pre);
        assert(post.last() == rows@[k as int]);
        let row = &rows[k];
        let m = row.monitor_id;
        let pos = position_of_id(&last, m);
        let prev: Option<i64> = match pos {
            Some(p) => Some(last[p].1),
            None => None,
        };
        assert(prev == last_status_of(pre, m)) by {
            if pos is None {
                if last_status_of(pre, m) is Some {
                    let i = choose|i: int| 0 <= i < last.len() && last@[i].0 == m;
                    assert(last@[i].0 != m);
                }
            }
        }
        assert(post.take(k as int) =~= pre);
        let is_down = row.status == 0;
        let prev_down = match prev {
            Some(s) => s == 0,
            None => false,
        };
        if (is_down && !prev_down) || (prev_down && !is_down) {
            out.push(HistoryRow { monitor_id: m, time: row.time.clone(), status: row.status });
        }
        let ghost old_last = last@;
        match pos {
            Some(p) => {
                last.set(p, (m, row.status));
            },
            None => {
                last.push((m, row.status));
            },
        }
        assert forall|i: int| 0 <= i < last.len() implies last_status_of(
            post,
            #[trigger] last@[i].0,
        ) == Some(last@[i].1) by {
            if last@[i].0 != m {
                assert(last@[i] == old_last[i]);
            }
        }
        assert forall|i: int, j: int| 0 <= i < j < last.len() implies last@[i].0 != last@[j].0 by {
            if i < old_last.len() && j < old_last.len() {
                if pos is Some {
                    let p = pos.unwrap() as int;
                    if i != p && j != p {
                        assert(last@[i] == old_last[i] && last@[j] == old_last[j]);
                    } else if i == p {
                        assert(last@[j] == old_last[j]);
                        assert(old_last[p].0 == m);
                    } else {
                        assert(last@[i] == old_last[i]);
                        assert(old_last[p].0 == m);
                    }
                } else {
                    assert(last@[i] == old_last[i] && last@[j] == old_last[j]);
                }
            }
        }
        assert forall|x: i64| (#[trigger] last_status_of(post, x)) is Some implies exists|i: int|
            0 <= i < last.len() && last@[i].0 == x by {
            if x == m {
                match pos {
                    Some(p) => {
                        assert(last@[p as int].0 == x);
                    },
                    None => {
                        assert(last@[old_last.len() as int].0 == x);
                    },
                }
            } else {
                assert(last_status_of(post, x) == last_status_of(pre, x));
                let i = choose|i: int| 0 <= i < old_last.len() && old_last[i].0 == x;
                assert(last@[i].0 == x);
            }
        }
        k = k + 1;
    }
    assert(rows@.take(k as int) =~= rows@);
    out
}


proof fn lemma_parse_error_persists(rows: Seq<HistoryRow>, n: int)
    requires
        0 <= n <= rows.len(),
        parsed_rows(rows.take(n)) is Err,
    ensures
        parsed_rows(rows) == parsed_rows(rows.take(n)),
    decreases rows.len() - n,
{
    if n < rows.len() {
        assert(rows.take(n + 1).drop_last() =~= rows.take(n));
        lemma_parse_error_persists(rows, n + 1);
    } else {
        assert(rows.take(n) =~= rows);
    }
}

/// Parses the stored times of transition rows, in order; the first malformed time is a
/// storage error carrying chrono's message.
pub fn parse_transitions(trans: &Vec<HistoryRow>) -> (res: Result<Vec<(i64, Timestamp, i64)>, AppError>)
    ensures
        match (res, parsed_rows(trans@)) {
            (Ok(events), Ok(spec_events)) => events@ == spec_events,
            (Err(AppError::Store(m)), Err(e)) => m@ == e,
            _ => false,
        },
        res matches Ok(events) ==> forall|i: int| 0 <= i < events.len() ==> (#[trigger] events@[i]).1.wf(),
{
    let mut events: Vec<(i64, Timestamp, i64)> = Vec::new();
    let mut k: usize = 0;
    assert(trans@.take(0) =~= Seq::<HistoryRow>::empty());
    while k < trans.len()
        invariant
            k <= trans.len(),
            parsed_rows(trans@.take(k as int)) == Ok::<Seq<(i64, Timestamp, i64)>, Seq<char>>(events@),
            forall|i: int| 0 <= i < events.len() ==> (#[trigger] events@[i]).1.wf(),
        decreases trans.len() - k,
    {
        let ghost pre = trans@.take(k as int);
        let ghost post = trans@.take(k + 1);
        assert(post.drop_last() =~= pre);
        assert(post.last() == trans@[k as int]);
        let row = &trans[k];
        let t = match parse_stored_time(row.time.as_str()) {
            Ok(t) => t,
            Err(e) => {
                proof {
                    lemma_parse_error_persists(trans@, k + 1);
                }
                return Err(e);
            },
        };
        events.push((row.monitor_id, t, row.status));
        k = k + 1;
    }
    assert(trans@.take(k as int) =~= trans@);
    Ok(events)
}

/// Replays parsed transitions in order (see `replay`): the closed incidents in closing
/// order and the open ones in opening order.
pub fn replay_transitions(events: &Vec<(i64, Timestamp, i64)>) -> (res: (Vec<Incident>, Vec<(i64, Timestamp)>))
    requires
        forall|i: int| 0 <= i < events.len() ==> (#[trigger] events@[i]).1.wf(),
    ensures
        replay(events@) == (res.0@, res.1@),
        forall|i: int| 0 <= i < res.0.len() ==> fields_paired(#[trigger] res.0@[i]),
        forall|i: int| 0 <= i < res.0.len() ==> duration_is_elapsed(#[trigger] res.0@[i]),
{
    let mut done: Vec<Incident> = Vec::new();
    let mut open: Vec<(i64, Timestamp)> = Vec::new();
    let mut k: usize = 0;
    assert(events@.take(0) =~= Seq::<(i64, Timestamp, i64)>::empty());
    while k < events.len()
        invariant
            k <= events.len(),
            forall|i: int| 0 <= i < events.len() ==> (#[trigger] events@[i]).1.wf(),
            replay(events@.take(k as int)) == (done@, open@),
            forall|i: int| 0 <= i < open.len() ==> (#[trigger] open@[i]).1.wf(),
            forall|i: int| 0 <= i < done.len() ==> fields_paired(#[trigger] done@[i]),
        decreases events.len() - k,
    {
        assert(events@.take(k + 1).drop_last() =~= events@.take(k as int));
        assert(events@.take(k + 1).last() == events@[k as int]);
        let (m, t, status) = events[k];
        assert(t.wf());
        let pos = position_of_id(&open, m);
        if status == 0 {
            match pos {
                Some(i) => {
                    open.set(i, (m, t));
                },
                None => {
                    open.push((m, t));
                },
            }
        } else {
            match pos {
                Some(i) => {
                    let started_at = open[i].1;
                    let d = seconds_between(t, started_at);
                    let duration: u64 = if d < 0 {
                        0
                    } else {
                        d as u64
                    };
                    done.push(
                        Incident {
                            monitor_id: m,
                            started_at,
                            resolved_at: Some(t),
                            duration_seconds: Some(duration),
                        },
                    );
                    open.remove(i);
                },
                None => {},
            }
        }
        k = k + 1;
    }
    assert(events@.take(k as int) =~= events@);
    proof {
        lemma_replayed_durations_are_elapsed(events@);
        assert forall|i: int| 0 <= i < done.len() implies duration_is_elapsed(#[trigger] done@[i]) by {
            assert(replayed_incidents(events@)[i] == done@[i]);
        }
    }
    (done, open)
}

/// Whether an incident is reported for `since`.
pub fn is_reported_since(i: &Incident, since: Timestamp) -> (res: bool)
    ensures
        res == reported_since(*i, since),
{
    match i.resolved_at {
        None => true,
        Some(r) => !r.is_before(&since),
    }
}

/// Sorts incidents by start, most recent first.
pub fn sort_recent_first(items: Vec<Incident>) -> (res: Vec<Incident>)
    ensures
        recent_first(res@),
        res@.to_multiset() == items@.to_multiset(),
        (forall|i: int| 0 <= i < items.len() ==> fields_paired(#[trigger] items@[i])) ==> forall|
            i: int,
        | 0 <= i < res.len() ==> fields_paired(#[trigger] res@[i]),
{
    let mut sorted: Vec<Incident> = Vec::new();
    let mut k: usize = 0;
    while k < items.len()
        invariant
            k <= items.len(),
            recent_first(sorted@),
            sorted@.to_multiset() == items@.take(k as int).to_multiset(),
            (forall|i: int| 0 <= i < items.len() ==> fields_paired(#[trigger] items@[i])) ==> forall|
                i: int,
            | 0 <= i < sorted.len() ==> fields_paired(#[trigger] sorted@[i]),
        decreases items.len() - k,
    {
        let x = items[k];
        let mut p: usize = 0;
        while p < sorted.len() && !sorted[p].started_at.is_before(&x.started_at)
            invariant
                p <= sorted.len(),
                forall|q: int| 0 <= q < p ==> x.started_at.le((#[trigger] sorted@[q]).started_at),
            decreases sorted.len() - p,
        {
            p = p + 1;
        }
        let ghost old_sorted = sorted@;
        sorted.insert(p, x);
        assert(sorted@ == old_sorted.insert(p as int, x));
        assert((forall|i: int| 0 <= i < items.len() ==> fields_paired(#[trigger] items@[i])) ==> forall|
            i: int,
        | 0 <= i < sorted.len() ==> fields_paired(#[trigger] sorted@[i])) by {
            if forall|i: int| 0 <= i < items.len() ==> fields_paired(#[trigger] items@[i]) {
                assert(fields_paired(items@[k as int]));
                assert forall|i: int| 0 <= i < sorted.len() implies fields_paired(#[trigger] sorted@[i]) by {
                    if i < p {
                        assert(sorted@[i] == old_sorted[i]);
                    } else if i > p {
                        assert(sorted@[i] == old_sorted[i - 1]);
                    }
                }
            }
        }
        assert forall|i: int, j: int| 0 <= i < j < sorted.len() implies (#[trigger] sorted@[j]).started_at.le(
            (#[trigger] sorted@[i]).started_at,
        ) by {
            if j < p {
                assert(sorted@[i] == old_sorted[i] && sorted@[j] == old_sorted[j]);
            } else if j == p {
                assert(sorted@[i] == old_sorted[i]);
            } else if i == p {
                assert(sorted@[j] == old_sorted[j - 1]);
                assert(old_sorted[j - 1].started_at.le(old_sorted[p as int].started_at) || j - 1 == p);
            } else if i < p {
                assert(sorted@[i] == old_sorted[i] && sorted@[j] == old_sorted[j - 1]);
            } else {
                assert(sorted@[i] == old_sorted[i - 1] && sorted@[j] == old_sorted[j - 1]);
            }
        }
        assert(items@.take(k + 1) =~= items@.take(k as int).push(x));
        k = k + 1;
    }
    assert(items@.take(k as int) =~= items@);
    sorted
}

/// Incidents from parsed transitions: replayed into closed and ongoing incidents, those
/// resolved before `since` dropped (ongoing ones are always kept), the rest most recent
/// first.
pub fn incidents_from_transitions(events: &Vec<(i64, Timestamp, i64)>, since: Timestamp) -> (res: Vec<Incident>)
    requires
        forall|i: int| 0 <= i < events.len() ==> (#[trigger] events@[i]).1.wf(),
    ensures
        recent_first(res@),
        res@.to_multiset() == kept_since(replayed_incidents(events@), since).to_multiset(),
        forall|i: int| 0 <= i < res.len() ==> fields_paired(#[trigger] res@[i]),
        forall|i: int| 0 <= i < res.len() ==> duration_is_elapsed(#[trigger] res@[i]),
        forall|i: int| 0 <= i < res.len() ==> reported_since(#[trigger] res@[i], since),
{
    let (mut all, open) = replay_transitions(events);
    let ghost done = all@;
    let ghost ongoing_part = open@.map_values(|p: (i64, Timestamp)| ongoing(p.0, p.1));
    let mut j: usize = 0;
    while j < open.len()
        invariant
            j <= open.len(),
            all@ == done + ongoing_part.take(j as int),
            ongoing_part == open@.map_values(|p: (i64, Timestamp)| ongoing(p.0, p.1)),
            forall|i: int| 0 <= i < all.len() ==> fields_paired(#[trigger] all@[i]),
        decreases open.len() - j,
    {
        let (m, t) = open[j];
        all.push(Incident { monitor_id: m, started_at: t, resolved_at: None, duration_seconds: None });
        assert(ongoing_part.take(j + 1) =~= ongoing_part.take(j as int).push(ongoing(m, t)));
        j = j + 1;
    }
    assert(ongoing_part.take(j as int) =~= ongoing_part);
    let mut kept: Vec<Incident> = Vec::new();
    let mut k: usize = 0;
    while k < all.len()
        invariant
            k <= all.len(),
            kept@ == kept_since(all@.take(k as int), since),
            forall|i: int| 0 <= i < all.len() ==> fields_paired(#[trigger] all@[i]),
            forall|i: int| 0 <= i < kept.len() ==> fields_paired(#[trigger] kept@[i]),
        decreases all.len() - k,
    {
        assert(all@.take(k + 1).drop_last() =~= all@.take(k as int));
        if is_reported_since(&all[k], since) {
            kept.push(all[k]);
        }
        k = k + 1;
    }
    assert(all@.take(k as int) =~= all@);
    let res = sort_recent_first(kept);
    proof {
        lemma_replayed_durations_are_elapsed(events@);
        lemma_kept_durations(replayed_incidents(events@), since, res@);
        assert forall|i: int| 0 <= i < res.len() implies reported_since(#[trigger] res@[i], since) by {
            let x = res@[i];
            assert(res@.contains(x));
            assert(res@.to_multiset().count(x) > 0);
            lemma_kept_reported(replayed_incidents(events@), since, x);
        }
    }
    res
}

/// Reconstructs incident history from stored heartbeats: rows are taken in order (the
/// history table ordered by monitor and time), the transitions into and out of down are
/// replayed into closed and ongoing incidents, incidents resolved before `since` are
/// dropped (ongoing ones are always kept), and the rest are returned most recent first.
/// A malformed stored time among the transition rows is a storage error. Counted incident
/// by incident, the result holds exactly the maximal runs of down rows of each monitor that
/// are reported for `since` (`run_incident_count`).
pub fn reconstruct_incidents(rows: &Vec<HistoryRow>, since: Timestamp) -> (res: Result<Vec<Incident>, AppError>)
    ensures
        match (res, parsed_rows(transitions(rows@))) {
            (Ok(v), Ok(events)) => recent_first(v@) && v@.to_multiset() == kept_since(
                replayed_incidents(events),
                since,
            ).to_multiset(),
            (Err(AppError::Store(m)), Err(e)) => m@ == e,
            _ => false,
        },
        res matches Ok(v) ==> forall|i: int| 0 <= i < v.len() ==> fields_paired(#[trigger] v@[i]),
        res matches Ok(v) ==> forall|i: int|
            0 <= i < v.len() ==> ((#[trigger] v@[i]).resolved_at matches Some(r) ==> v@[i].duration_seconds
                == Some(
                if delta_seconds(r, v@[i].started_at) < 0 {
                    0u64
                } else {
                    delta_seconds(r, v@[i].started_at) as u64
                },
            )),
        res matches Ok(v) ==> forall|i: int, j: int|
            0 <= i < j < v.len() ==> !(#[trigger] v@[i]).started_at.lt((#[trigger] v@[j]).started_at),
        res matches Ok(v) ==> forall|i: int|
            0 <= i < v.len() ==> ((#[trigger] v@[i]).resolved_at matches Some(r) ==> since.secs < r.secs
                || (since.secs == r.secs && since.nanos <= r.nanos)),
        res matches Ok(v) ==> forall|x: Incident|
            #[trigger] v@.to_multiset().count(x) == run_incident_count(rows@, since, x),
{
    let trans = select_transitions(rows);
    match parse_transitions(&trans) {
        Ok(events) => {
            let v = incidents_from_transitions(&events, since);
            proof {
                lemma_reported_incidents_are_down_runs(rows@, since, events@, v@);
            }
            Ok(v)
        },
        Err(e) => Err(e),
    }
}

/// The rows of monitor `m`, in order.
pub open spec fn rows_of(rows: Seq<HistoryRow>, m: i64) -> Seq<HistoryRow>
    decreases rows.len(),
{
    if rows.len() == 0 {
        Seq::empty()
    } else if rows.last().monitor_id == m {
        rows_of(rows.drop_last(), m).push(rows.last())
    } else {
        rows_of(rows.drop_last(), m)
    }
}

/// A monitor's previous status is read from its own rows only.
pub proof fn lemma_previous_status_from_own_rows(rows: Seq<HistoryRow>, m: i64)
    ensures
        last_status_of(rows, m) == last_status_of(rows_of(rows, m), m),
    decreases rows.len(),
{
    if rows.len() > 0 {
        lemma_previous_status_from_own_rows(rows.drop_last(), m);
        if rows.last().monitor_id == m {
            let own = rows_of(rows, m);
            assert(own.last() == rows.last());
        }
    }
}

/// Monitors are tracked independently: the transitions of monitor `m` found in the whole
/// history are exactly the transitions found in `m`'s own rows.
pub proof fn lemma_monitors_independent(rows: Seq<HistoryRow>, m: i64)
    ensures
        rows_of(transitions(rows), m) == transitions(rows_of(rows, m)),
    decreases rows.len(),
{
    if rows.len() > 0 {
        let n = rows.len() - 1;
        let prev = rows.drop_last();
        lemma_monitors_independent(prev, m);
        assert(rows.take(n) =~= prev);
        let r = rows.last();
        if r.monitor_id == m {
            let own = rows_of(rows, m);
            assert(own.drop_last() =~= rows_of(prev, m));
            assert(own.take(own.len() - 1) =~= rows_of(prev, m));
            lemma_previous_status_from_own_rows(prev, m);
            assert(is_transition(rows, n) == is_transition(own, own.len() - 1));
            if is_transition(rows, n) {
                assert(transitions(rows).drop_last() =~= transitions(prev));
            }
        } else {
            if is_transition(rows, n) {
                assert(transitions(rows).drop_last() =~= transitions(prev));
            }
        }
    }
}

/// A history without any down row yields no incidents: pending, maintenance and up beats
/// never open or close one.
pub proof fn lemma_no_down_no_incidents(rows: Seq<HistoryRow>, since: Timestamp)
    requires
        forall|i: int| 0 <= i < rows.len() ==> (#[trigger] rows[i]).status != 0,
    ensures
        transitions(rows) == Seq::<HistoryRow>::empty(),
        parsed_rows(transitions(rows)) == Ok::<Seq<(i64, Timestamp, i64)>, Seq<char>>(Seq::empty()),
        kept_since(replayed_incidents(Seq::empty()), since) == Seq::<Incident>::empty(),
    decreases rows.len(),
{
    if rows.len() > 0 {
        let prev = rows.drop_last();
        lemma_no_down_no_incidents(prev, since);
        lemma_no_down_status(prev, rows.last().monitor_id);
        assert(rows.take(rows.len() - 1) =~= prev);
    }
    let (done, open) = replay(Seq::<(i64, Timestamp, i64)>::empty());
    assert(open.map_values(|p: (i64, Timestamp)| ongoing(p.0, p.1)) =~= Seq::<Incident>::empty());
    assert(replayed_incidents(Seq::empty()) =~= Seq::<Incident>::empty());
}

proof fn lemma_no_down_status(rows: Seq<HistoryRow>, m: i64)
    requires
        forall|i: int| 0 <= i < rows.len() ==> (#[trigger] rows[i]).status != 0,
    ensures
        last_status_of(rows, m) != Some(0i64),
    decreases rows.len(),
{
    if rows.len() > 0 {
        assert(rows.last() == rows[rows.len() - 1]);
        lemma_no_down_status(rows.drop_last(), m);
    }
}

/// An incident still open is reported whatever `since` is.
pub proof fn lemma_ongoing_always_reported(monitor_id: i64, started_at: Timestamp, since: Timestamp)
    ensures
        reported_since(ongoing(monitor_id, started_at), since),
{
}


/// A monitor has at most one open incident at any point of the replay.
pub proof fn lemma_one_open_incident_per_monitor(events: Seq<(i64, Timestamp, i64)>)
    ensures
        forall|i: int, j: int|
            0 <= i < j < replay(events).1.len() ==> (#[trigger] replay(events).1[i]).0 != (
            #[trigger] replay(events).1[j]).0,
    decreases events.len(),
{
    if events.len() > 0 {
        let prev = events.drop_last();
        lemma_one_open_incident_per_monitor(prev);
        let (done, open) = replay(prev);
        let (m, t, status) = events.last();
        let next = replay(events).1;
        match first_index_of(open, m) {
            Some(k) => {
                lemma_first_index_found(open, m);
                if status == 0 {
                    assert(next == open.update(k, (m, t)));
                    assert forall|i: int, j: int| 0 <= i < j < next.len() implies (
                    #[trigger] next[i]).0 != (#[trigger] next[j]).0 by {
                        assert(open[i].0 != open[j].0);
                    }
                } else {
                    assert(next == open.remove(k));
                    assert forall|i: int, j: int| 0 <= i < j < next.len() implies (
                    #[trigger] next[i]).0 != (#[trigger] next[j]).0 by {
                        let oi = if i < k { i } else { i + 1 };
                        let oj = if j < k { j } else { j + 1 };
                        assert(next[i] == open[oi] && next[j] == open[oj]);
                        assert(open[oi].0 != open[oj].0);
                    }
                }
            },
            None => {
                if status == 0 {
                    assert(next == open.push((m, t)));
                    assert forall|i: int, j: int| 0 <= i < j < next.len() implies (
                    #[trigger] next[i]).0 != (#[trigger] next[j]).0 by {
                        if j == open.len() {
                            if open[i].0 == m {
                                lemma_first_index_exists(open, m, i);
                            }
                        } else {
                            assert(open[i].0 != open[j].0);
                        }
                    }
                } else {
                    assert(next == open);
                }
            },
        }
    }
}

/// Every incident of a replay lasts what its times say: a closed incident's duration is the
/// whole seconds from its start to its resolution (0 if negative), an ongoing one has none.
pub proof fn lemma_replayed_durations_are_elapsed(events: Seq<(i64, Timestamp, i64)>)
    ensures
        forall|k: int|
            0 <= k < replayed_incidents(events).len() ==> match (#[trigger] replayed_incidents(
                events,
            )[k]).resolved_at {
                Some(r) => replayed_incidents(events)[k].duration_seconds == Some(
                    if delta_seconds(r, replayed_incidents(events)[k].started_at) < 0 {
                        0u64
                    } else {
                        delta_seconds(r, replayed_incidents(events)[k].started_at) as u64
                    },
                ),
                None => replayed_incidents(events)[k].duration_seconds is None,
            },
{
    lemma_replay_done_durations(events);
    let (done, open) = replay(events);
    let all = replayed_incidents(events);
    let f = |p: (i64, Timestamp)| ongoing(p.0, p.1);
    assert forall|k: int| 0 <= k < all.len() implies duration_is_elapsed(#[trigger] all[k]) by {
        if k < done.len() {
            assert(all[k] == done[k]);
        } else {
            assert(all[k] == open.map_values(f)[k - done.len()]);
        }
    }
}

proof fn lemma_replay_done_durations(events: Seq<(i64, Timestamp, i64)>)
    ensures
        forall|k: int| 0 <= k < replay(events).0.len() ==> duration_is_elapsed(#[trigger] replay(events).0[k]),
    decreases events.len(),
{
    if events.len() > 0 {
        lemma_replay_done_durations(events.drop_last());
        let (done, open) = replay(events.drop_last());
        let next = replay(events).0;
        assert forall|k: int| 0 <= k < next.len() implies duration_is_elapsed(#[trigger] next[k]) by {
            if k < done.len() {
                assert(next[k] == done[k]);
            }
        }
    }
}

proof fn lemma_kept_contained(s: Seq<Incident>, since: Timestamp, x: Incident)
    ensures
        kept_since(s, since).contains(x) ==> s.contains(x),
    decreases s.len(),
{
    if s.len() > 0 {
        let prev = s.drop_last();
        lemma_kept_contained(prev, since, x);
        if kept_since(s, since).contains(x) {
            let ks = kept_since(s, since);
            let q = choose|q: int| 0 <= q < ks.len() && ks[q] == x;
            if kept_since(prev, since).contains(x) {
                let p = choose|p: int| 0 <= p < prev.len() && prev[p] == x;
                assert(s[p] == x);
            } else {
                assert(reported_since(s.last(), since));
                assert(ks == kept_since(prev, since).push(s.last()));
                if q < kept_since(prev, since).len() {
                    assert(kept_since(prev, since)[q] == x);
                }
                assert(s[s.len() - 1] == x);
            }
        }
    }
}

proof fn lemma_kept_durations(s: Seq<Incident>, since: Timestamp, v: Seq<Incident>)
    requires
        forall|k: int| 0 <= k < s.len() ==> duration_is_elapsed(#[trigger] s[k]),
        v.to_multiset() == kept_since(s, since).to_multiset(),
    ensures
        forall|i: int| 0 <= i < v.len() ==> duration_is_elapsed(#[trigger] v[i]),
{
    assert forall|i: int| 0 <= i < v.len() implies duration_is_elapsed(#[trigger] v[i]) by {
        let x = v[i];
        assert(v.contains(x));
        assert(v.to_multiset().count(x) > 0);
        assert(kept_since(s, since).to_multiset().count(x) > 0);
        lemma_kept_contained(s, since, x);
        let p = choose|p: int| 0 <= p < s.len() && s[p] == x;
    }
}

/// The incidents a replay builds carry what they are built from: a closed incident is the
/// monitor's, starts when its run started and is resolved when it ended; an ongoing one
/// starts when its run started and has neither resolution nor duration.
pub proof fn lemma_incident_fields(m: i64, started_at: Timestamp, resolved_at: Timestamp)
    ensures
        closed(m, started_at, resolved_at).monitor_id == m,
        closed(m, started_at, resolved_at).started_at == started_at,
        closed(m, started_at, resolved_at).resolved_at == Some(resolved_at),
        ongoing(m, started_at).monitor_id == m,
        ongoing(m, started_at).started_at == started_at,
        ongoing(m, started_at).resolved_at is None,
        ongoing(m, started_at).duration_seconds is None,
{
}

/// Which incidents are reported for `since`: every ongoing one, and a resolved one exactly
/// when it was resolved at or after `since`.
pub proof fn lemma_reported_since_cutoff(x: Incident, since: Timestamp)
    ensures
        x.resolved_at is None ==> reported_since(x, since),
        x.resolved_at matches Some(r) ==> (reported_since(x, since) <==> (since.secs < r.secs || (since.secs
            == r.secs && since.nanos <= r.nanos))),
{
}

proof fn lemma_kept_reported(s: Seq<Incident>, since: Timestamp, x: Incident)
    ensures
        kept_since(s, since).to_multiset().count(x) > 0 ==> reported_since(x, since),
    decreases s.len(),
{
    if s.len() > 0 {
        lemma_kept_reported(s.drop_last(), since, x);
    }
}

/// Reading stored times fails exactly when one of them is malformed, and then with the
/// error of the first malformed one; when all of them parse, every row becomes an event of
/// its monitor, its parsed time and its status, in order.
pub proof fn lemma_parsed_rows_fail_on_first_bad_time(rows: Seq<HistoryRow>)
    ensures
        (forall|k: int| 0 <= k < rows.len() ==> (#[trigger] rfc3339_utc_parse(rows[k].time@)) is Ok) ==> (
        parsed_rows(rows) matches Ok(events) && events.len() == rows.len() && forall|k: int|
            0 <= k < rows.len() ==> (#[trigger] events[k]).0 == rows[k].monitor_id && events[k].2
                == rows[k].status && rfc3339_utc_parse(rows[k].time@) == Ok::<(i64, u32), Seq<char>>(
                (events[k].1.secs, events[k].1.nanos),
            )),
        parsed_rows(rows) matches Err(e) ==> exists|k: int|
            0 <= k < rows.len() && rfc3339_utc_parse(rows[k].time@) == Err::<(i64, u32), Seq<char>>(e)
                && forall|q: int| 0 <= q < k ==> (#[trigger] rfc3339_utc_parse(rows[q].time@)) is Ok,
    decreases rows.len(),
{
    if rows.len() > 0 {
        let prev = rows.drop_last();
        let n = rows.len() - 1;
        lemma_parsed_rows_fail_on_first_bad_time(prev);
        assert forall|k: int| 0 <= k < prev.len() implies #[trigger] prev[k] == rows[k] by {}
        assert(rows.last() == rows[n]);
        if forall|k: int| 0 <= k < rows.len() ==> (#[trigger] rfc3339_utc_parse(rows[k].time@)) is Ok {
            assert forall|k: int| 0 <= k < prev.len() implies (#[trigger] rfc3339_utc_parse(
                prev[k].time@,
            )) is Ok by {
                assert(rfc3339_utc_parse(rows[k].time@) is Ok);
            }
            assert(rfc3339_utc_parse(rows[n].time@) is Ok);
            let events = parsed_rows(rows)->Ok_0;
            let pe = parsed_rows(prev)->Ok_0;
            assert forall|k: int| 0 <= k < rows.len() implies (#[trigger] events[k]).0 == rows[k].monitor_id
                && events[k].2 == rows[k].status && rfc3339_utc_parse(rows[k].time@) == Ok::<
                (i64, u32),
                Seq<char>,
            >((events[k].1.secs, events[k].1.nanos)) by {
                if k < n {
                    assert(events[k] == pe[k]);
                }
            }
        }
        match parsed_rows(rows) {
            Err(e) => {
                match parsed_rows(prev) {
                    Err(e2) => {
                        let k = choose|k: int|
                            0 <= k < prev.len() && rfc3339_utc_parse(prev[k].time@) == Err::<
                                (i64, u32),
                                Seq<char>,
                            >(e2) && forall|q: int|
                                0 <= q < k ==> (#[trigger] rfc3339_utc_parse(prev[q].time@)) is Ok;
                        assert(rfc3339_utc_parse(rows[k].time@) == Err::<(i64, u32), Seq<char>>(e));
                        assert forall|q: int| 0 <= q < k implies (#[trigger] rfc3339_utc_parse(
                            rows[q].time@,
                        )) is Ok by {
                            assert(rfc3339_utc_parse(prev[q].time@) is Ok);
                        }
                    },
                    Ok(pe) => {
                        assert(rfc3339_utc_parse(rows[n].time@) == Err::<(i64, u32), Seq<char>>(e));
                        lemma_parsed_rows_all_ok(prev);
                        assert forall|q: int| 0 <= q < n implies (#[trigger] rfc3339_utc_parse(
                            rows[q].time@,
                        )) is Ok by {
                            assert(rfc3339_utc_parse(prev[q].time@) is Ok);
                        }
                    },
                }
            },
            Ok(_) => {},
        }
    }
}

proof fn lemma_parsed_rows_all_ok(rows: Seq<HistoryRow>)
    requires
        parsed_rows(rows) is Ok,
    ensures
        forall|k: int| 0 <= k < rows.len() ==> (#[trigger] rfc3339_utc_parse(rows[k].time@)) is Ok,
    decreases rows.len(),
{
    if rows.len() > 0 {
        let prev = rows.drop_last();
        lemma_parsed_rows_all_ok(prev);
        assert forall|k: int| 0 <= k < rows.len() implies (#[trigger] rfc3339_utc_parse(rows[k].time@)) is Ok by {
            if k < rows.len() - 1 {
                assert(prev[k] == rows[k]);
                assert(rfc3339_utc_parse(prev[k].time@) is Ok);
            } else {
                assert(rows.last() == rows[k]);
            }
        }
    }
}

} // verus!
