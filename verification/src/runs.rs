use vstd::prelude::*;

use crate::assoc::{first_index_of, lemma_first_index_exists, lemma_first_index_found};
use crate::incidents::{
    closed, is_transition, kept_since, ongoing, replayed_incidents, reported_since, last_status_of, lemma_monitors_independent,
    lemma_one_open_incident_per_monitor, parsed_rows, replay, rows_of, transitions, HistoryRow,
};
use crate::model::Incident;
use crate::time::{rfc3339_utc_parse, Timestamp};

verus! {

broadcast use vstd::seq_lib::group_to_multiset_ensures;

/// The time a stored row holds, read as RFC 3339 (meaningful where it parses).
pub open spec fn time_of(r: HistoryRow) -> Timestamp {
    match rfc3339_utc_parse(r.time@) {
        Ok((secs, nanos)) => Timestamp { secs, nanos },
        Err(_) => Timestamp { secs: 0, nanos: 0 },
    }
}

/// A stored row as a parsed event: monitor, time and status.
pub open spec fn event_of(r: HistoryRow) -> (i64, Timestamp, i64) {
    (r.monitor_id, time_of(r), r.status)
}

/// The rows as parsed events, in order.
pub open spec fn row_events(rows: Seq<HistoryRow>) -> Seq<(i64, Timestamp, i64)>
    decreases rows.len(),
{
    if rows.len() == 0 {
        Seq::empty()
    } else {
        row_events(rows.drop_last()).push(event_of(rows.last()))
    }
}

/// The events of monitor `m`, in order.
pub open spec fn monitor_events(events: Seq<(i64, Timestamp, i64)>, m: i64) -> Seq<(i64, Timestamp, i64)>
    decreases events.len(),
{
    if events.len() == 0 {
        Seq::empty()
    } else if events.last().0 == m {
        monitor_events(events.drop_last(), m).push(events.last())
    } else {
        monitor_events(events.drop_last(), m)
    }
}

/// The incidents of monitor `m`, in order.
pub open spec fn monitor_incidents(s: Seq<Incident>, m: i64) -> Seq<Incident>
    decreases s.len(),
{
    if s.len() == 0 {
        Seq::empty()
    } else if s.last().monitor_id == m {
        monitor_incidents(s.drop_last(), m).push(s.last())
    } else {
        monitor_incidents(s.drop_last(), m)
    }
}

/// The start of monitor `m`'s open incident among open incidents, if it has one.
pub open spec fn open_start(open: Seq<(i64, Timestamp)>, m: i64) -> Option<Timestamp> {
    match first_index_of(open, m) {
        Some(i) => Some(open[i].1),
        None => None,
    }
}

/// Maximal runs of down rows in one monitor's rows, scanned in order: a down row that
/// follows a row that is not down (or no row) starts a run at its time; the first row
/// after it that is not down ends the run, which becomes an incident resolved at that
/// row's time. The result is the incidents of the ended runs, in order, and the start of
/// the run still going at the end, if any.
pub open spec fn down_runs(own: Seq<HistoryRow>, m: i64) -> (Seq<Incident>, Option<Timestamp>)
    decreases own.len(),
{
    if own.len() == 0 {
        (Seq::empty(), None)
    } else {
        let (done, run) = down_runs(own.drop_last(), m);
        let r = own.last();
        if r.status == 0 {
            match run {
                Some(_) => (done, run),
                None => (done, Some(time_of(r))),
            }
        } else {
            match run {
                Some(st) => (done.push(closed(m, st, time_of(r))), None),
                None => (done, None),
            }
        }
    }
}

/// The incidents of one monitor's maximal down runs: those of the ended runs in order, then
/// the ongoing one, if a run is still going.
pub open spec fn run_incidents(own: Seq<HistoryRow>, m: i64) -> Seq<Incident> {
    let (done, run) = down_runs(own, m);
    match run {
        Some(st) => done.push(ongoing(m, st)),
        None => done,
    }
}

/// Open incidents hold each monitor at most once.
pub open spec fn distinct_monitors(open: Seq<(i64, Timestamp)>) -> bool {
    forall|i: int, j: int| 0 <= i < j < open.len() ==> (#[trigger] open[i]).0 != (#[trigger] open[j]).0
}

proof fn lemma_open_distinct(events: Seq<(i64, Timestamp, i64)>)
    ensures
        distinct_monitors(replay(events).1),
{
    lemma_one_open_incident_per_monitor(events);
}

/// With each monitor held at most once, the entry of `m` at `j` is its first.
proof fn lemma_open_start_at(open: Seq<(i64, Timestamp)>, m: i64, j: int)
    requires
        distinct_monitors(open),
        0 <= j < open.len(),
        open[j].0 == m,
    ensures
        first_index_of(open, m) == Some(j),
        open_start(open, m) == Some(open[j].1),
{
    lemma_first_index_exists(open, m, j);
    lemma_first_index_found(open, m);
    let i = first_index_of(open, m).unwrap();
    if i != j {
        if i < j {
            assert(open[i].0 != open[j].0);
        } else {
            assert(open[j].0 != open[i].0);
        }
    }
}

/// Without an entry keyed `m`, `m` has no open incident.
proof fn lemma_open_start_none(open: Seq<(i64, Timestamp)>, m: i64)
    requires
        forall|j: int| 0 <= j < open.len() ==> (#[trigger] open[j]).0 != m,
    ensures
        first_index_of(open, m) is None,
        open_start(open, m) is None,
{
    if first_index_of(open, m) is Some {
        lemma_first_index_found(open, m);
        let i = first_index_of(open, m).unwrap();
        assert(open[i].0 != m);
    }
}

/// `m`'s open incident, read by position.
proof fn lemma_open_start_cases(open: Seq<(i64, Timestamp)>, m: i64)
    requires
        distinct_monitors(open),
    ensures
        match open_start(open, m) {
            Some(st) => exists|j: int| 0 <= j < open.len() && open[j].0 == m && open[j].1 == st,
            None => forall|j: int| 0 <= j < open.len() ==> (#[trigger] open[j]).0 != m,
        },
{
    match first_index_of(open, m) {
        Some(i) => {
            lemma_first_index_found(open, m);
        },
        None => {
            assert forall|j: int| 0 <= j < open.len() implies (#[trigger] open[j]).0 != m by {
                if open[j].0 == m {
                    lemma_first_index_exists(open, m, j);
                }
            }
        },
    }
}

proof fn lemma_parsed_ok(rows: Seq<HistoryRow>)
    requires
        parsed_rows(rows) is Ok,
    ensures
        parsed_rows(rows) == Ok::<Seq<(i64, Timestamp, i64)>, Seq<char>>(row_events(rows)),
    decreases rows.len(),
{
    if rows.len() > 0 {
        lemma_parsed_ok(rows.drop_last());
    }
}

proof fn lemma_own_rows_monitor(rows: Seq<HistoryRow>, m: i64)
    ensures
        forall|k: int| 0 <= k < rows_of(rows, m).len() ==> (#[trigger] rows_of(rows, m)[k]).monitor_id == m,
    decreases rows.len(),
{
    if rows.len() > 0 {
        let prev = rows.drop_last();
        lemma_own_rows_monitor(prev, m);
        let own = rows_of(rows, m);
        if rows.last().monitor_id == m {
            assert forall|k: int| 0 <= k < own.len() implies (#[trigger] own[k]).monitor_id == m by {
                if k < own.len() - 1 {
                    assert(own[k] == rows_of(prev, m)[k]);
                }
            }
        }
    }
}

/// Taking a monitor's rows and parsing them commute.
proof fn lemma_events_of_own_rows(rows: Seq<HistoryRow>, m: i64)
    ensures
        monitor_events(row_events(rows), m) == row_events(rows_of(rows, m)),
    decreases rows.len(),
{
    if rows.len() > 0 {
        lemma_events_of_own_rows(rows.drop_last(), m);
        let ev = row_events(rows);
        assert(ev.drop_last() =~= row_events(rows.drop_last()));
        if rows.last().monitor_id == m {
            let own = rows_of(rows, m);
            assert(own.drop_last() =~= rows_of(rows.drop_last(), m));
            assert(row_events(own) == row_events(own.drop_last()).push(event_of(own.last())));
        }
    }
}

/// One monitor's rows: replaying their transitions gives their maximal down runs.
proof fn lemma_single_monitor_runs(own: Seq<HistoryRow>, m: i64)
    requires
        forall|k: int| 0 <= k < own.len() ==> (#[trigger] own[k]).monitor_id == m,
    ensures
        replay(row_events(transitions(own))).0 == down_runs(own, m).0,
        open_start(replay(row_events(transitions(own))).1, m) == down_runs(own, m).1,
        down_runs(own, m).1 is Some <==> last_status_of(own, m) == Some(0i64),
    decreases own.len(),
{
    if own.len() > 0 {
        let n = own.len() - 1;
        let prev = own.drop_last();
        let r = own.last();
        assert(r == own[n]);
        assert forall|k: int| 0 <= k < prev.len() implies (#[trigger] prev[k]).monitor_id == m by {
            assert(prev[k] == own[k]);
        }
        lemma_single_monitor_runs(prev, m);
        assert(own.take(n) =~= prev);
        let pe = row_events(transitions(prev));
        let (done, open) = replay(pe);
        lemma_open_distinct(pe);
        lemma_open_start_cases(open, m);
        let ev = event_of(r);
        if is_transition(own, n) {
            let tr = transitions(own);
            assert(tr == transitions(prev).push(r));
            assert(tr.drop_last() =~= transitions(prev));
            let e = row_events(tr);
            assert(e == pe.push(ev));
            assert(e.drop_last() =~= pe);
            lemma_open_distinct(e);
            let next = replay(e).1;
            if r.status == 0 {
                assert(first_index_of(open, m) is None) by {
                    lemma_open_start_none(open, m);
                }
                assert(next == open.push((m, time_of(r))));
                lemma_open_start_at(next, m, open.len() as int);
            } else {
                let st = open_start(open, m).unwrap();
                let j = choose|j: int| 0 <= j < open.len() && open[j].0 == m && open[j].1 == st;
                lemma_open_start_at(open, m, j);
                assert(next == open.remove(j));
                assert forall|q: int| 0 <= q < next.len() implies (#[trigger] next[q]).0 != m by {
                    if q < j {
                        assert(next[q] == open[q]);
                        assert(open[q].0 != open[j].0);
                    } else {
                        assert(next[q] == open[q + 1]);
                        assert(open[j].0 != open[q + 1].0);
                    }
                }
                lemma_open_start_none(next, m);
            }
        } else {
            assert(transitions(own) == transitions(prev));
        }
    }
}

proof fn lemma_keep_on_update(open: Seq<(i64, Timestamp)>, i: int, x: (i64, Timestamp), m: i64)
    requires
        distinct_monitors(open),
        distinct_monitors(open.update(i, x)),
        0 <= i < open.len(),
        open[i].0 != m,
        x.0 != m,
    ensures
        open_start(open.update(i, x), m) == open_start(open, m),
{
    let next = open.update(i, x);
    lemma_open_start_cases(open, m);
    match open_start(open, m) {
        Some(st) => {
            let j = choose|j: int| 0 <= j < open.len() && open[j].0 == m && open[j].1 == st;
            assert(next[j] == open[j]);
            lemma_open_start_at(next, m, j);
        },
        None => {
            assert forall|q: int| 0 <= q < next.len() implies (#[trigger] next[q]).0 != m by {
                if q != i {
                    assert(next[q] == open[q]);
                }
            }
            lemma_open_start_none(next, m);
        },
    }
}

proof fn lemma_keep_on_push(open: Seq<(i64, Timestamp)>, x: (i64, Timestamp), m: i64)
    requires
        distinct_monitors(open),
        distinct_monitors(open.push(x)),
        x.0 != m,
    ensures
        open_start(open.push(x), m) == open_start(open, m),
{
    let next = open.push(x);
    lemma_open_start_cases(open, m);
    match open_start(open, m) {
        Some(st) => {
            let j = choose|j: int| 0 <= j < open.len() && open[j].0 == m && open[j].1 == st;
            assert(next[j] == open[j]);
            lemma_open_start_at(next, m, j);
        },
        None => {
            assert forall|q: int| 0 <= q < next.len() implies (#[trigger] next[q]).0 != m by {
                if q < open.len() {
                    assert(next[q] == open[q]);
                }
            }
            lemma_open_start_none(next, m);
        },
    }
}

proof fn lemma_keep_on_remove(open: Seq<(i64, Timestamp)>, i: int, m: i64)
    requires
        distinct_monitors(open),
        distinct_monitors(open.remove(i)),
        0 <= i < open.len(),
        open[i].0 != m,
    ensures
        open_start(open.remove(i), m) == open_start(open, m),
{
    let next = open.remove(i);
    lemma_open_start_cases(open, m);
    match open_start(open, m) {
        Some(st) => {
            let j = choose|j: int| 0 <= j < open.len() && open[j].0 == m && open[j].1 == st;
            if j < i {
                assert(next[j] == open[j]);
                lemma_open_start_at(next, m, j);
            } else {
                assert(next[j - 1] == open[j]);
                lemma_open_start_at(next, m, j - 1);
            }
        },
        None => {
            assert forall|q: int| 0 <= q < next.len() implies (#[trigger] next[q]).0 != m by {
                if q < i {
                    assert(next[q] == open[q]);
                } else {
                    assert(next[q] == open[q + 1]);
                }
            }
            lemma_open_start_none(next, m);
        },
    }
}

/// The entry keyed `m` at `i` removed, `m` has no open incident left.
proof fn lemma_removed_start(open: Seq<(i64, Timestamp)>, i: int, m: i64)
    requires
        distinct_monitors(open),
        0 <= i < open.len(),
        open[i].0 == m,
    ensures
        open_start(open.remove(i), m) is None,
{
    let next = open.remove(i);
    assert forall|q: int| 0 <= q < next.len() implies (#[trigger] next[q]).0 != m by {
        if q < i {
            assert(next[q] == open[q]);
            assert(open[q].0 != open[i].0);
        } else {
            assert(next[q] == open[q + 1]);
            assert(open[i].0 != open[q + 1].0);
        }
    }
    lemma_open_start_none(next, m);
}

/// The replay treats each monitor on its own: the incidents it closes for `m`, and `m`'s
/// open incident, are those of replaying `m`'s events alone.
proof fn lemma_replay_per_monitor(events: Seq<(i64, Timestamp, i64)>, m: i64)
    ensures
        monitor_incidents(replay(events).0, m) == replay(monitor_events(events, m)).0,
        open_start(replay(events).1, m) == open_start(replay(monitor_events(events, m)).1, m),
    decreases events.len(),
{
    if events.len() > 0 {
        let prev = events.drop_last();
        lemma_replay_per_monitor(prev, m);
        let (m2, t, status) = events.last();
        let (done, open) = replay(prev);
        let fprev = monitor_events(prev, m);
        let (fdone, fopen) = replay(fprev);
        lemma_open_distinct(prev);
        lemma_open_distinct(events);
        lemma_open_distinct(fprev);
        let (ndone, nopen) = replay(events);
        if m2 != m {
            assert(monitor_events(events, m) == fprev);
            match first_index_of(open, m2) {
                Some(i) => {
                    lemma_first_index_found(open, m2);
                    if status == 0 {
                        assert(nopen == open.update(i, (m2, t)));
                        lemma_keep_on_update(open, i, (m2, t), m);
                    } else {
                        assert(nopen == open.remove(i));
                        lemma_keep_on_remove(open, i, m);
                        let c = closed(m2, open[i].1, t);
                        assert(ndone == done.push(c));
                        assert(ndone.drop_last() =~= done);
                    }
                },
                None => {
                    if status == 0 {
                        assert(nopen == open.push((m2, t)));
                        lemma_keep_on_push(open, (m2, t), m);
                    }
                },
            }
        } else {
            let fe = monitor_events(events, m);
            assert(fe == fprev.push(events.last()));
            assert(fe.drop_last() =~= fprev);
            lemma_open_distinct(fe);
            let (gdone, gopen) = replay(fe);
            lemma_open_start_cases(open, m);
            lemma_open_start_cases(fopen, m);
            match open_start(open, m) {
                Some(st) => {
                    let j = choose|j: int| 0 <= j < open.len() && open[j].0 == m && open[j].1 == st;
                    let fj = choose|j: int| 0 <= j < fopen.len() && fopen[j].0 == m && fopen[j].1 == st;
                    lemma_open_start_at(open, m, j);
                    lemma_open_start_at(fopen, m, fj);
                    if status == 0 {
                        assert(nopen == open.update(j, (m, t)));
                        assert(gopen == fopen.update(fj, (m, t)));
                        lemma_open_start_at(nopen, m, j);
                        lemma_open_start_at(gopen, m, fj);
                    } else {
                        assert(nopen == open.remove(j));
                        assert(gopen == fopen.remove(fj));
                        lemma_removed_start(open, j, m);
                        lemma_removed_start(fopen, fj, m);
                        let c = closed(m, st, t);
                        assert(ndone == done.push(c));
                        assert(gdone == fdone.push(c));
                        assert(ndone.drop_last() =~= done);
                    }
                },
                None => {
                    lemma_open_start_none(open, m);
                    lemma_open_start_none(fopen, m);
                    if status == 0 {
                        assert(nopen == open.push((m, t)));
                        assert(gopen == fopen.push((m, t)));
                        lemma_open_start_at(nopen, m, open.len() as int);
                        lemma_open_start_at(gopen, m, fopen.len() as int);
                    }
                },
            }
        }
    }
}

proof fn lemma_monitor_incidents_concat(a: Seq<Incident>, b: Seq<Incident>, m: i64)
    ensures
        monitor_incidents(a + b, m) == monitor_incidents(a, m) + monitor_incidents(b, m),
    decreases b.len(),
{
    if b.len() == 0 {
        assert(a + b =~= a);
        assert(monitor_incidents(a, m) + monitor_incidents(b, m) =~= monitor_incidents(a, m));
    } else {
        lemma_monitor_incidents_concat(a, b.drop_last(), m);
        assert((a + b).drop_last() =~= a + b.drop_last());
        assert((a + b).last() == b.last());
        if b.last().monitor_id == m {
            assert(monitor_incidents(a, m) + monitor_incidents(b.drop_last(), m).push(b.last())
                =~= (monitor_incidents(a, m) + monitor_incidents(b.drop_last(), m)).push(b.last()));
        }
    }
}

proof fn lemma_monitor_ongoing(open: Seq<(i64, Timestamp)>, m: i64)
    requires
        distinct_monitors(open),
    ensures
        monitor_incidents(open.map_values(|p: (i64, Timestamp)| ongoing(p.0, p.1)), m) == match open_start(open, m) {
            Some(st) => seq![ongoing(m, st)],
            None => Seq::<Incident>::empty(),
        },
    decreases open.len(),
{
    let f = |p: (i64, Timestamp)| ongoing(p.0, p.1);
    if open.len() == 0 {
        lemma_open_start_none(open, m);
        assert(open.map_values(f) =~= Seq::<Incident>::empty());
    } else {
        let prev = open.drop_last();
        let x = open.last();
        assert(distinct_monitors(prev)) by {
            assert forall|i: int, j: int| 0 <= i < j < prev.len() implies (#[trigger] prev[i]).0 != (
            #[trigger] prev[j]).0 by {
                assert(prev[i] == open[i] && prev[j] == open[j]);
            }
        }
        lemma_monitor_ongoing(prev, m);
        let s = open.map_values(f);
        assert(s.drop_last() =~= prev.map_values(f));
        assert(s.last() == ongoing(x.0, x.1));
        assert(open =~= prev.push(x));
        if x.0 == m {
            assert forall|q: int| 0 <= q < prev.len() implies (#[trigger] prev[q]).0 != m by {
                assert(prev[q] == open[q]);
                assert(open[q].0 != open[open.len() - 1].0);
            }
            lemma_open_start_none(prev, m);
            lemma_open_start_at(open, m, open.len() - 1);
            assert(Seq::<Incident>::empty().push(ongoing(m, x.1)) =~= seq![ongoing(m, x.1)]);
        } else {
            lemma_keep_on_push(prev, x, m);
        }
    }
}

/// Incidents are the maximal runs of down heartbeats, monitor by monitor. When the stored
/// times of the transition rows parse (the rows a run starts or ends at; the case in which
/// incidents are reconstructed at all), the parsed transitions are those rows as events,
/// and the incidents that replaying them yields for any monitor `m` are, in order, one per maximal run of consecutive down
/// rows among `m`'s own rows: started at the run's first row, resolved at the first row of
/// `m` after the run (whatever its status) with the whole seconds between, or ongoing
/// where no row follows the run.
pub proof fn lemma_incidents_are_down_runs(rows: Seq<HistoryRow>, m: i64)
    requires
        parsed_rows(transitions(rows)) is Ok,
    ensures
        parsed_rows(transitions(rows)) == Ok::<Seq<(i64, Timestamp, i64)>, Seq<char>>(
            row_events(transitions(rows)),
        ),
        monitor_incidents(replayed_incidents(row_events(transitions(rows))), m) == run_incidents(
            rows_of(rows, m),
            m,
        ),
{
    lemma_parsed_ok(transitions(rows));
    let events = row_events(transitions(rows));
    let own = rows_of(rows, m);
    lemma_own_rows_monitor(rows, m);
    lemma_replay_per_monitor(events, m);
    lemma_events_of_own_rows(transitions(rows), m);
    lemma_monitors_independent(rows, m);
    assert(monitor_events(events, m) == row_events(transitions(own)));
    lemma_single_monitor_runs(own, m);
    let (done, open) = replay(events);
    lemma_open_distinct(events);
    let f = |p: (i64, Timestamp)| ongoing(p.0, p.1);
    lemma_monitor_incidents_concat(done, open.map_values(f), m);
    lemma_monitor_ongoing(open, m);
    let (rdone, run) = down_runs(own, m);
    match run {
        Some(st) => {
            assert(rdone + seq![ongoing(m, st)] =~= rdone.push(ongoing(m, st)));
        },
        None => {
            assert(rdone + Seq::<Incident>::empty() =~= rdone);
        },
    }
}

/// How often incident `x` is reported for `since` from the stored rows: as often as it is
/// one of its monitor's maximal down runs, if it is reported for `since` at all.
pub open spec fn run_incident_count(rows: Seq<HistoryRow>, since: Timestamp, x: Incident) -> nat {
    if reported_since(x, since) {
        run_incidents(rows_of(rows, x.monitor_id), x.monitor_id).to_multiset().count(x)
    } else {
        0
    }
}

proof fn lemma_kept_count(s: Seq<Incident>, since: Timestamp, x: Incident)
    ensures
        kept_since(s, since).to_multiset().count(x) == if reported_since(x, since) {
            s.to_multiset().count(x)
        } else {
            0
        },
    decreases s.len(),
{
    if s.len() > 0 {
        lemma_kept_count(s.drop_last(), since, x);
        assert(s =~= s.drop_last().push(s.last()));
    }
}

proof fn lemma_monitor_count(s: Seq<Incident>, x: Incident)
    ensures
        monitor_incidents(s, x.monitor_id).to_multiset().count(x) == s.to_multiset().count(x),
    decreases s.len(),
{
    if s.len() > 0 {
        lemma_monitor_count(s.drop_last(), x);
        assert(s =~= s.drop_last().push(s.last()));
    }
}

/// The reported incidents, counted one by one, are the maximal down runs of each monitor
/// that are reported for `since`: given the transition rows' parsed events, any list holding
/// the replayed incidents kept for `since` holds each incident as often as it is a down run
/// of its monitor, if reported for `since`, and not at all otherwise.
pub proof fn lemma_reported_incidents_are_down_runs(
    rows: Seq<HistoryRow>,
    since: Timestamp,
    events: Seq<(i64, Timestamp, i64)>,
    v: Seq<Incident>,
)
    requires
        parsed_rows(transitions(rows)) == Ok::<Seq<(i64, Timestamp, i64)>, Seq<char>>(events),
        v.to_multiset() == kept_since(replayed_incidents(events), since).to_multiset(),
    ensures
        forall|x: Incident| #[trigger] v.to_multiset().count(x) == run_incident_count(rows, since, x),
{
    assert forall|x: Incident| #[trigger] v.to_multiset().count(x) == run_incident_count(rows, since, x) by {
        lemma_incidents_are_down_runs(rows, x.monitor_id);
        lemma_kept_count(replayed_incidents(events), since, x);
        lemma_monitor_count(replayed_incidents(events), x);
    }
}

} // verus!
