use vstd::prelude::*;
use vstd::string::*;

use std::collections::HashMap;

use crate::model::{status_from_code, status_of_code, Monitor, MonitorStatus};
use crate::store::Beat;
use crate::text::{decimal_repr, i64_to_string, parse_i64, parse_i64_spec};
use crate::time::{naive_utc_parse, parse_kuma_time, timestamp_of, Timestamp};

verus! {

/// A monitor as the status-page configuration lists it.
#[derive(Debug, Clone)]
pub struct MonitorDto {
    pub id: i64,
    pub name: String,
}

/// A group of the status page (`publicGroupList[]`) and the monitors it lists.
#[derive(Debug, Clone)]
pub struct GroupDto {
    pub name: String,
    pub monitor_list: Vec<MonitorDto>,
}

/// The status-page configuration (`GET /api/status-page/:slug`).
#[derive(Debug, Clone)]
pub struct StatusPageConfigDto {
    pub public_group_list: Vec<GroupDto>,
}

/// One heartbeat as the status page reports it; `ping_ms` is the reported latency rounded
/// to whole milliseconds.
#[derive(Debug, Clone)]
pub struct BeatDto {
    pub status: u8,
    pub ping_ms: Option<u32>,
    pub time: String,
}

/// The live heartbeat data (`GET /api/status-page/heartbeat/:slug`): for each monitor-id
/// key, its beats in ascending time order.
#[derive(Debug, Clone)]
pub struct HeartbeatDto {
    pub heartbeat_list: Vec<(String, Vec<BeatDto>)>,
}

/// The beats listed under `key`: the first entry whose key is `key`.
pub open spec fn beats_for(list: Seq<(String, Vec<BeatDto>)>, key: Seq<char>) -> Option<Seq<BeatDto>>
    decreases list.len(),
{
    if list.len() == 0 {
        None
    } else if list[0].0@ == key {
        Some(list[0].1@)
    } else {
        beats_for(list.drop_first(), key)
    }
}

/// The latest beat of monitor `id`: the last one listed under its decimal id.
pub open spec fn latest_beat(hb: HeartbeatDto, id: i64) -> Option<BeatDto> {
    match beats_for(hb.heartbeat_list@, decimal_repr(id as int)) {
        Some(beats) => if beats.len() > 0 {
            Some(beats.last())
        } else {
            None
        },
        None => None,
    }
}

/// Status from the latest beat; pending when the monitor has no beat yet.
pub open spec fn status_from_latest(last: Option<BeatDto>) -> MonitorStatus {
    match last {
        Some(b) => status_of_code(b.status as int),
        None => MonitorStatus::Pending,
    }
}

/// Latency from the latest beat, reported only while the monitor is up.
pub open spec fn latency_from_latest(last: Option<BeatDto>) -> Option<u32> {
    match last {
        Some(b) => if status_of_code(b.status as int) == MonitorStatus::Up {
            b.ping_ms
        } else {
            None
        },
        None => None,
    }
}

/// The domain monitor for one configured monitor of a group.
pub open spec fn monitor_entry(group_name: String, m: MonitorDto, hb: HeartbeatDto) -> Monitor {
    Monitor {
        id: m.id,
        name: m.name,
        group: Some(group_name),
        status: status_from_latest(latest_beat(hb, m.id)),
        latency_ms: latency_from_latest(latest_beat(hb, m.id)),
    }
}

/// The monitors of one group, in listed order.
pub open spec fn group_monitors(g: GroupDto, hb: HeartbeatDto) -> Seq<Monitor> {
    g.monitor_list@.map_values(|m: MonitorDto| monitor_entry(g.name, m, hb))
}

/// The monitors of all groups, group by group, in listed order.
pub open spec fn mapped_monitors(groups: Seq<GroupDto>, hb: HeartbeatDto) -> Seq<Monitor>
    decreases groups.len(),
{
    if groups.len() == 0 {
        Seq::empty()
    } else {
        mapped_monitors(groups.drop_last(), hb) + group_monitors(groups.last(), hb)
    }
}

/// A monitor reports a latency only while it is up, and a configured monitor without any
/// beat is pending with no latency.
pub proof fn lemma_latency_only_when_up(group_name: String, m: MonitorDto, hb: HeartbeatDto)
    ensures
        monitor_entry(group_name, m, hb).latency_ms is Some ==> monitor_entry(group_name, m, hb).status
            == MonitorStatus::Up,
        latest_beat(hb, m.id) is None ==> monitor_entry(group_name, m, hb).status
            == MonitorStatus::Pending && monitor_entry(group_name, m, hb).latency_ms is None,
{
}

/// The number of monitors the configuration lists, over all groups.
pub open spec fn configured_count(groups: Seq<GroupDto>) -> int
    decreases groups.len(),
{
    if groups.len() == 0 {
        0
    } else {
        configured_count(groups.drop_last()) + groups.last().monitor_list@.len()
    }
}

/// Every configured monitor yields exactly one domain monitor, in listed order; the i-th of
/// a group is that group's i-th configured monitor.
pub proof fn lemma_one_monitor_per_configured_entry(groups: Seq<GroupDto>, hb: HeartbeatDto)
    ensures
        mapped_monitors(groups, hb).len() == configured_count(groups),
        groups.len() > 0 ==> forall|i: int|
            0 <= i < groups.last().monitor_list@.len() ==> mapped_monitors(groups, hb)[configured_count(
                groups.drop_last(),
            ) + i] == monitor_entry(groups.last().name, #[trigger] groups.last().monitor_list@[i], hb),
    decreases groups.len(),
{
    if groups.len() > 0 {
        lemma_one_monitor_per_configured_entry(groups.drop_last(), hb);
    }
}

proof fn lemma_configured_count_grows(groups: Seq<GroupDto>, a: int, b: int)
    requires
        0 <= a <= b <= groups.len(),
    ensures
        configured_count(groups.take(a)) <= configured_count(groups.take(b)),
    decreases b - a,
{
    if a < b {
        lemma_configured_count_grows(groups, a, b - 1);
        assert(groups.take(b).drop_last() =~= groups.take(b - 1));
    }
}

/// The monitors come group by group, in listed order, one per configured entry: the
/// `i`-th monitor of group `g` stands at the number of monitors the groups before `g` list,
/// plus `i`, with that entry's id and name and its group's name. Nothing else is in the
/// list, so an id found only among the heartbeats yields no monitor.
pub proof fn lemma_monitors_by_group_and_position(groups: Seq<GroupDto>, hb: HeartbeatDto)
    ensures
        mapped_monitors(groups, hb).len() == configured_count(groups),
        forall|g: int, i: int|
            0 <= g < groups.len() && 0 <= i < groups[g].monitor_list@.len() ==> #[trigger] mapped_monitors(
                groups,
                hb,
            )[configured_count(groups.take(g)) + i] == monitor_entry(
                groups[g].name,
                #[trigger] groups[g].monitor_list@[i],
                hb,
            ),
    decreases groups.len(),
{
    lemma_one_monitor_per_configured_entry(groups, hb);
    if groups.len() > 0 {
        let n = groups.len() - 1;
        let prev = groups.drop_last();
        lemma_monitors_by_group_and_position(prev, hb);
        assert(groups.take(n) =~= prev);
        let all = mapped_monitors(groups, hb);
        let before = mapped_monitors(prev, hb);
        assert forall|g: int, i: int|
            0 <= g < groups.len() && 0 <= i < groups[g].monitor_list@.len() implies #[trigger] all[configured_count(
                groups.take(g),
            ) + i] == monitor_entry(groups[g].name, #[trigger] groups[g].monitor_list@[i], hb) by {
            if g < n {
                assert(groups[g] == prev[g]);
                assert(groups.take(g) =~= prev.take(g));
                assert(prev.take(g + 1).drop_last() =~= prev.take(g));
                assert(prev.take(g + 1).last() == prev[g]);
                lemma_configured_count_grows(prev, g + 1, prev.len() as int);
                assert(prev.take(prev.len() as int) =~= prev);
                assert(configured_count(prev.take(g + 1)) == configured_count(prev.take(g))
                    + prev[g].monitor_list@.len());
                assert(all == before + group_monitors(groups.last(), hb));
                assert(configured_count(groups.take(g)) + i < before.len());
                let k = configured_count(groups.take(g)) + i;
                lemma_configured_count_grows(prev, 0, g);
                assert(prev.take(0).len() == 0);
                assert(0 <= k);
                assert((before + group_monitors(groups.last(), hb))[k] == before[k]);
            } else {
                assert(groups[g] == groups.last());
            }
        }
    }
}

proof fn lemma_beats_for_first(list: Seq<(String, Vec<BeatDto>)>, key: Seq<char>, k: int)
    requires
        0 <= k < list.len(),
        list[k].0@ == key,
        forall|q: int| 0 <= q < k ==> (#[trigger] list[q]).0@ != key,
    ensures
        beats_for(list, key) == Some(list[k].1@),
    decreases k,
{
    if k > 0 {
        let rest = list.drop_first();
        assert(list[0].0@ != key);
        assert forall|q: int| 0 <= q < k - 1 implies (#[trigger] rest[q]).0@ != key by {
            assert(rest[q] == list[q + 1]);
        }
        lemma_beats_for_first(rest, key, k - 1);
    }
}

proof fn lemma_beats_for_absent(list: Seq<(String, Vec<BeatDto>)>, key: Seq<char>)
    requires
        forall|q: int| 0 <= q < list.len() ==> (#[trigger] list[q]).0@ != key,
    ensures
        beats_for(list, key) is None,
    decreases list.len(),
{
    if list.len() > 0 {
        let rest = list.drop_first();
        assert(list[0].0@ != key);
        assert forall|q: int| 0 <= q < rest.len() implies (#[trigger] rest[q]).0@ != key by {
            assert(rest[q] == list[q + 1]);
        }
        lemma_beats_for_absent(rest, key);
    }
}

/// The monitor the `i`-th configured entry of group `g` maps to.
pub open spec fn monitor_at(groups: Seq<GroupDto>, hb: HeartbeatDto, g: int, i: int) -> Monitor {
    mapped_monitors(groups, hb)[configured_count(groups.take(g)) + i]
}

/// A configured monitor's status and latency come from the last beat of its list: the
/// first heartbeat entry keyed by its decimal id. With a non-empty list, the status is the
/// one the last beat's code denotes and the latency is that beat's ping when the code is 1
/// (up), none otherwise; with no entry or an empty list, the monitor is pending without
/// latency. Its id, name and group are those of its configured entry.
pub proof fn lemma_status_from_last_listed_beat(groups: Seq<GroupDto>, hb: HeartbeatDto, g: int, i: int)
    requires
        0 <= g < groups.len(),
        0 <= i < groups[g].monitor_list@.len(),
    ensures
        monitor_at(groups, hb, g, i).id == groups[g].monitor_list@[i].id,
        monitor_at(groups, hb, g, i).name == groups[g].monitor_list@[i].name,
        monitor_at(groups, hb, g, i).group == Some(groups[g].name),
        forall|k: int|
            0 <= k < hb.heartbeat_list@.len() && (#[trigger] hb.heartbeat_list@[k]).0@ == decimal_repr(
                groups[g].monitor_list@[i].id as int,
            ) && (forall|q: int|
                0 <= q < k ==> hb.heartbeat_list@[q].0@ != decimal_repr(
                    groups[g].monitor_list@[i].id as int,
                )) ==> if hb.heartbeat_list@[k].1@.len() > 0 {
                &&& monitor_at(groups, hb, g, i).status == status_of_code(
                    hb.heartbeat_list@[k].1@.last().status as int,
                )
                &&& monitor_at(groups, hb, g, i).latency_ms == (if hb.heartbeat_list@[k].1@.last().status
                    == 1 {
                    hb.heartbeat_list@[k].1@.last().ping_ms
                } else {
                    None
                })
            } else {
                &&& monitor_at(groups, hb, g, i).status == MonitorStatus::Pending
                &&& monitor_at(groups, hb, g, i).latency_ms is None
            },
        (forall|k: int|
            0 <= k < hb.heartbeat_list@.len() ==> (#[trigger] hb.heartbeat_list@[k]).0@ != decimal_repr(
                groups[g].monitor_list@[i].id as int,
            )) ==> monitor_at(groups, hb, g, i).status == MonitorStatus::Pending && monitor_at(
            groups,
            hb,
            g,
            i,
        ).latency_ms is None,
{
    lemma_monitors_by_group_and_position(groups, hb);
    let m = groups[g].monitor_list@[i];
    assert(monitor_at(groups, hb, g, i) == monitor_entry(groups[g].name, m, hb));
    let list = hb.heartbeat_list@;
    let key = decimal_repr(m.id as int);
    assert forall|k: int|
        0 <= k < list.len() && (#[trigger] list[k]).0@ == key && (forall|q: int|
            0 <= q < k ==> list[q].0@ != key) implies if list[k].1@.len() > 0 {
        &&& monitor_at(groups, hb, g, i).status == status_of_code(list[k].1@.last().status as int)
        &&& monitor_at(groups, hb, g, i).latency_ms == (if list[k].1@.last().status == 1 {
            list[k].1@.last().ping_ms
        } else {
            None
        })
    } else {
        &&& monitor_at(groups, hb, g, i).status == MonitorStatus::Pending
        &&& monitor_at(groups, hb, g, i).latency_ms is None
    } by {
        assert forall|q: int| 0 <= q < k implies (#[trigger] list[q]).0@ != key by {}
        lemma_beats_for_first(list, key, k);
    }
    if forall|k: int| 0 <= k < list.len() ==> (#[trigger] list[k]).0@ != key {
        lemma_beats_for_absent(list, key);
    }
}

/// The index of the first entry keyed `key`, if any.
fn find_entry(list: &Vec<(String, Vec<BeatDto>)>, key: &String) -> (res: Option<usize>)
    ensures
        match res {
            Some(i) => i < list.len() && beats_for(list@, key@) == Some(list@[i as int].1@),
            None => beats_for(list@, key@) is None,
        },
{
    let mut i: usize = 0;
    assert(list@.subrange(0, list.len() as int) =~= list@);
    while i < list.len()
        invariant
            i <= list.len(),
            beats_for(list@, key@) == beats_for(list@.subrange(i as int, list.len() as int), key@),
        decreases list.len() - i,
    {
        let ghost rest = list@.subrange(i as int, list.len() as int);
        assert(rest.drop_first() =~= list@.subrange(i + 1, list.len() as int));
        if list[i].0 == *key {
            return Some(i);
        }
        i = i + 1;
    }
    assert(list@.subrange(i as int, list.len() as int).len() == 0);
    None
}

/// Joins the configuration (names, groups) with the heartbeats (status, latency) into
/// domain monitors. The latest status is the last beat of each list; a configured monitor
/// without beats is pending; latency is reported only for an up monitor.
pub fn map_monitors(config: &StatusPageConfigDto, heartbeat: &HeartbeatDto) -> (res: Vec<Monitor>)
    ensures
        res@ == mapped_monitors(config.public_group_list@, *heartbeat),
{
    let mut monitors: Vec<Monitor> = Vec::new();
    let groups = &config.public_group_list;
    let mut gi: usize = 0;
    while gi < groups.len()
        invariant
            gi <= groups.len(),
            monitors@ == mapped_monitors(groups@.take(gi as int), *heartbeat),
        decreases groups.len() - gi,
    {
        let group = &groups[gi];
        let ghost before = monitors@;
        let mut mi: usize = 0;
        while mi < group.monitor_list.len()
            invariant
                mi <= group.monitor_list.len(),
                monitors@ == before + group_monitors(*group, *heartbeat).take(mi as int),
            decreases group.monitor_list.len() - mi,
        {
            let m = &group.monitor_list[mi];
            let key = i64_to_string(m.id);
            let found = find_entry(&heartbeat.heartbeat_list, &key);
            let mut status = MonitorStatus::Pending;
            let mut latency_ms: Option<u32> = None;
            match found {
                Some(k) => {
                    let beats = &heartbeat.heartbeat_list[k].1;
                    if beats.len() > 0 {
                        let code = beats[beats.len() - 1].status;
                        status = status_from_code(code);
                        if code == 1 {
                            latency_ms = beats[beats.len() - 1].ping_ms;
                        }
                    }
                },
                None => {},
            }
            let entry = Monitor {
                id: m.id,
                name: m.name.clone(),
                group: Some(group.name.clone()),
                status,
                latency_ms,
            };
            assert(entry == monitor_entry(group.name, *m, *heartbeat));
            monitors.push(entry);
            assert(group_monitors(*group, *heartbeat).take(mi + 1) =~= group_monitors(
                *group,
                *heartbeat,
            ).take(mi as int).push(entry));
            mi = mi + 1;
        }
        assert(group_monitors(*group, *heartbeat).take(mi as int) =~= group_monitors(
            *group,
            *heartbeat,
        ));
        assert(groups@.take(gi + 1).drop_last() =~= groups@.take(gi as int));
        gi = gi + 1;
    }
    assert(groups@.take(gi as int) =~= groups@);
    monitors
}

/// What `parse_kuma_time` gives for a heartbeat time.
pub open spec fn kuma_time_of(s: Seq<char>) -> Option<Timestamp> {
    timestamp_of(naive_utc_parse(s, "%Y-%m-%d %H:%M:%S%.f"@))
}

/// The domain beat for a heartbeat of monitor `monitor_id` whose time parsed as `time`;
/// none when the time did not parse.
pub open spec fn beat_of(monitor_id: i64, b: BeatDto, time: Option<Timestamp>) -> Option<Beat> {
    match time {
        Some(t) => Some(Beat { monitor_id, time: t, status: status_of_code(b.status as int), ping_ms: b.ping_ms }),
        None => None,
    }
}

/// The domain beat for a heartbeat of monitor `monitor_id` whose time parsed as `time`.
pub fn beat_from_dto(monitor_id: i64, b: &BeatDto, time: Option<Timestamp>) -> (res: Option<Beat>)
    ensures
        res == beat_of(monitor_id, *b, time),
        res is Some <==> time is Some,
        res matches Some(beat) ==> beat.monitor_id == monitor_id && Some(beat.time) == time
            && beat.status == status_of_code(b.status as int) && beat.ping_ms == b.ping_ms,
{
    match time {
        Some(t) => Some(Beat { monitor_id, time: t, status: status_from_code(b.status), ping_ms: b.ping_ms }),
        None => None,
    }
}

/// The beats of one heartbeat list as domain beats of monitor `monitor_id`; a beat whose
/// time does not parse is skipped.
pub open spec fn list_beats(monitor_id: i64, beats: Seq<BeatDto>) -> Seq<Beat>
    decreases beats.len(),
{
    if beats.len() == 0 {
        Seq::empty()
    } else {
        let rest = list_beats(monitor_id, beats.drop_last());
        let b = beats.last();
        match beat_of(monitor_id, b, kuma_time_of(b.time@)) {
            Some(beat) => rest.push(beat),
            None => rest,
        }
    }
}

/// All heartbeats of all lists, list by list; a list whose key is not a decimal `i64` is
/// skipped.
pub open spec fn extracted_beats(list: Seq<(String, Vec<BeatDto>)>) -> Seq<Beat>
    decreases list.len(),
{
    if list.len() == 0 {
        Seq::empty()
    } else {
        let rest = extracted_beats(list.drop_last());
        match parse_i64_spec(list.last().0@) {
            Some(id) => rest + list_beats(id, list.last().1@),
            None => rest,
        }
    }
}

/// The `j`-th heartbeat listed under entry `e` yields the beat `b`: the entry's key is a
/// decimal id and the heartbeat's time parses.
pub open spec fn yields_beat(list: Seq<(String, Vec<BeatDto>)>, e: int, j: int, b: Beat) -> bool {
    &&& 0 <= e < list.len()
    &&& 0 <= j < list[e].1@.len()
    &&& match parse_i64_spec(list[e].0@) {
        Some(id) => beat_of(id, list[e].1@[j], kuma_time_of(list[e].1@[j].time@)) == Some(b),
        None => false,
    }
}

proof fn lemma_list_beats_members(id: i64, beats: Seq<BeatDto>, b: Beat)
    ensures
        list_beats(id, beats).contains(b) <==> exists|j: int|
            0 <= j < beats.len() && beat_of(id, #[trigger] beats[j], kuma_time_of(beats[j].time@))
                == Some(b),
    decreases beats.len(),
{
    if beats.len() > 0 {
        let prev = beats.drop_last();
        let n = beats.len() - 1;
        lemma_list_beats_members(id, prev, b);
        assert(beats.last() == beats[n]);
        assert forall|j: int| 0 <= j < prev.len() implies #[trigger] prev[j] == beats[j] by {}
        if exists|j: int|
            0 <= j < beats.len() && beat_of(id, #[trigger] beats[j], kuma_time_of(beats[j].time@))
                == Some(b) {
            let j = choose|j: int|
                0 <= j < beats.len() && beat_of(id, #[trigger] beats[j], kuma_time_of(beats[j].time@))
                    == Some(b);
            if j < n {
                assert(prev[j] == beats[j]);
            }
        }
        match beat_of(id, beats.last(), kuma_time_of(beats.last().time@)) {
            Some(x) => {
                let rest = list_beats(id, prev);
                assert(rest.push(x).contains(b) <==> rest.contains(b) || x == b) by {
                    if rest.push(x).contains(b) {
                        let q = choose|q: int| 0 <= q < rest.push(x).len() && rest.push(x)[q] == b;
                        if q < rest.len() {
                            assert(rest[q] == b);
                        }
                    }
                    if rest.contains(b) {
                        let q = choose|q: int| 0 <= q < rest.len() && rest[q] == b;
                        assert(rest.push(x)[q] == b);
                    }
                    if x == b {
                        assert(rest.push(x)[rest.len() as int] == b);
                    }
                }
            },
            None => {},
        }
    }
}

/// Every extracted beat comes from a listed heartbeat whose key is a decimal id and whose
/// time parses, and every such heartbeat yields an extracted beat; other entries are
/// skipped without error.
pub proof fn lemma_extracted_beats_members(list: Seq<(String, Vec<BeatDto>)>, b: Beat)
    ensures
        extracted_beats(list).contains(b) <==> exists|e: int, j: int| #[trigger] yields_beat(list, e, j, b),
    decreases list.len(),
{
    if list.len() > 0 {
        let prev = list.drop_last();
        let n = list.len() - 1;
        lemma_extracted_beats_members(prev, b);
        assert(list.last() == list[n]);
        assert forall|e: int, j: int| #[trigger] yields_beat(prev, e, j, b) implies yields_beat(list, e, j, b) by {
            assert(prev[e] == list[e]);
        }
        if exists|e: int, j: int| #[trigger] yields_beat(list, e, j, b) {
            let (e, j) = choose|e: int, j: int| #[trigger] yields_beat(list, e, j, b);
            if e < n {
                assert(prev[e] == list[e]);
                assert(yields_beat(prev, e, j, b));
            }
        }
        let rest = extracted_beats(prev);
        match parse_i64_spec(list.last().0@) {
            Some(id) => {
                let own = list_beats(id, list.last().1@);
                lemma_list_beats_members(id, list.last().1@, b);
                if own.contains(b) {
                    let j = choose|j: int|
                        0 <= j < list.last().1@.len() && beat_of(id, #[trigger] list.last().1@[j], kuma_time_of(list.last().1@[j].time@))
                            == Some(b);
                    assert(yields_beat(list, n, j, b));
                }
                if exists|j: int| #[trigger] yields_beat(list, n, j, b) {
                    let j = choose|j: int| #[trigger] yields_beat(list, n, j, b);
                    assert(list[n].1@[j] == list.last().1@[j]);
                }
                assert((rest + own).contains(b) <==> rest.contains(b) || own.contains(b)) by {
                    if (rest + own).contains(b) {
                        let q = choose|q: int| 0 <= q < (rest + own).len() && (rest + own)[q] == b;
                        if q < rest.len() {
                            assert(rest[q] == b);
                        } else {
                            assert(own[q - rest.len()] == b);
                        }
                    }
                    if rest.contains(b) {
                        let q = choose|q: int| 0 <= q < rest.len() && rest[q] == b;
                        assert((rest + own)[q] == b);
                    }
                    if own.contains(b) {
                        let q = choose|q: int| 0 <= q < own.len() && own[q] == b;
                        assert((rest + own)[rest.len() + q] == b);
                    }
                }
            },
            None => {
                assert forall|j: int| !#[trigger] yields_beat(list, n, j, b) by {}
            },
        }
    }
}

/// The `j`-th heartbeat listed under entry `e` becomes the beat `b`: the entry's key is the
/// decimal id `b.monitor_id`, the heartbeat's time parses to `b.time`, and `b` carries the
/// status the heartbeat's code denotes and its ping.
pub open spec fn heartbeat_becomes(list: Seq<(String, Vec<BeatDto>)>, e: int, j: int, b: Beat) -> bool {
    &&& 0 <= e < list.len()
    &&& 0 <= j < list[e].1@.len()
    &&& parse_i64_spec(list[e].0@) == Some(b.monitor_id)
    &&& kuma_time_of(list[e].1@[j].time@) == Some(b.time)
    &&& b.status == status_of_code(list[e].1@[j].status as int)
    &&& b.ping_ms == list[e].1@[j].ping_ms
}

/// Extraction keeps each heartbeat's meaning: a beat is extracted exactly when some listed
/// heartbeat, under a decimal id key and with a parsable time, carries that monitor id,
/// time, the status its code denotes (0 down, 1 up, 2 pending, 3 maintenance) and its ping.
pub proof fn lemma_extracted_beats_keep_heartbeats(list: Seq<(String, Vec<BeatDto>)>, b: Beat)
    ensures
        extracted_beats(list).contains(b) <==> exists|e: int, j: int| #[trigger] heartbeat_becomes(list, e, j, b),
{
    lemma_extracted_beats_members(list, b);
    assert forall|e: int, j: int| #[trigger] yields_beat(list, e, j, b) <==> heartbeat_becomes(list, e, j, b) by {
        if 0 <= e < list.len() && 0 <= j < list[e].1@.len() {
            let d = list[e].1@[j];
            match parse_i64_spec(list[e].0@) {
                Some(id) => {
                    match kuma_time_of(d.time@) {
                        Some(t) => {
                            assert(beat_of(id, d, Some(t)) == Some(b) <==> (b.monitor_id == id
                                && b.time == t && b.status == status_of_code(d.status as int)
                                && b.ping_ms == d.ping_ms));
                        },
                        None => {},
                    }
                },
                None => {},
            }
        }
    }
    if extracted_beats(list).contains(b) {
        let (e, j) = choose|e: int, j: int| #[trigger] yields_beat(list, e, j, b);
        assert(heartbeat_becomes(list, e, j, b));
    }
    if exists|e: int, j: int| #[trigger] heartbeat_becomes(list, e, j, b) {
        let (e, j) = choose|e: int, j: int| #[trigger] heartbeat_becomes(list, e, j, b);
        assert(yields_beat(list, e, j, b));
    }
}

/// A heartbeat of monitor `id` yields the beat `b`.
pub open spec fn yields_from(id: i64, b: Beat) -> spec_fn(BeatDto) -> bool {
    |d: BeatDto| beat_of(id, d, kuma_time_of(d.time@)) == Some(b)
}

/// How many listed heartbeats yield the beat `b`: over the entries whose key is a decimal
/// id, the heartbeats whose time parses into `b`.
pub open spec fn heartbeats_yielding(list: Seq<(String, Vec<BeatDto>)>, b: Beat) -> nat
    decreases list.len(),
{
    if list.len() == 0 {
        0
    } else {
        heartbeats_yielding(list.drop_last(), b) + match parse_i64_spec(list.last().0@) {
            Some(id) => list.last().1@.filter(yields_from(id, b)).len(),
            None => 0,
        }
    }
}

proof fn lemma_list_beats_count(id: i64, beats: Seq<BeatDto>, b: Beat)
    ensures
        list_beats(id, beats).to_multiset().count(b) == beats.filter(yields_from(id, b)).len(),
    decreases beats.len(),
{
    broadcast use vstd::seq_lib::group_to_multiset_ensures;
    if beats.len() == 0 {
        reveal(Seq::filter);
    } else {
        let prev = beats.drop_last();
        lemma_list_beats_count(id, prev, b);
        assert(beats =~= prev.push(beats.last()));
        prev.lemma_filter_push(beats.last(), yields_from(id, b));
    }
}

/// Extraction as a multiset: each beat occurs in the result as often as listed heartbeats
/// yield it, counting only entries whose key is a decimal id and heartbeats whose time
/// parses; nothing else contributes.
pub proof fn lemma_extracted_beats_count(list: Seq<(String, Vec<BeatDto>)>, b: Beat)
    ensures
        extracted_beats(list).to_multiset().count(b) == heartbeats_yielding(list, b),
    decreases list.len(),
{
    broadcast use vstd::seq_lib::group_to_multiset_ensures;
    if list.len() > 0 {
        let prev = list.drop_last();
        lemma_extracted_beats_count(prev, b);
        match parse_i64_spec(list.last().0@) {
            Some(id) => {
                lemma_list_beats_count(id, list.last().1@, b);
                vstd::seq_lib::lemma_multiset_commutative(
                    extracted_beats(prev),
                    list_beats(id, list.last().1@),
                );
            },
            None => {},
        }
    }
}

/// All heartbeats across all monitors, mapped to domain beats. Unparseable rows are skipped.
pub fn extract_beats(heartbeat: &HeartbeatDto) -> (res: Vec<Beat>)
    ensures
        res@ == extracted_beats(heartbeat.heartbeat_list@),
        forall|i: int| 0 <= i < res.len() ==> (#[trigger] res@[i]).time.wf(),
{
    let list = &heartbeat.heartbeat_list;
    let mut beats: Vec<Beat> = Vec::new();
    let mut k: usize = 0;
    while k < list.len()
        invariant
            k <= list.len(),
            beats@ == extracted_beats(list@.take(k as int)),
            forall|i: int| 0 <= i < beats.len() ==> (#[trigger] beats@[i]).time.wf(),
        decreases list.len() - k,
    {
        assert(list@.take(k + 1).drop_last() =~= list@.take(k as int));
        let entry = &list[k];
        match parse_i64(entry.0.as_str()) {
            Some(monitor_id) => {
                let ghost before = beats@;
                let mut j: usize = 0;
                while j < entry.1.len()
                    invariant
                        j <= entry.1.len(),
                        beats@ == before + list_beats(monitor_id, entry.1@.take(j as int)),
                        forall|i: int| 0 <= i < beats.len() ==> (#[trigger] beats@[i]).time.wf(),
                    decreases entry.1.len() - j,
                {
                    assert(entry.1@.take(j + 1).drop_last() =~= entry.1@.take(j as int));
                    let b = &entry.1[j];
                    match beat_from_dto(monitor_id, b, parse_kuma_time(b.time.as_str())) {
                        Some(beat) => {
                            beats.push(beat);
                        },
                        None => {},
                    }
                    j = j + 1;
                }
                assert(entry.1@.take(j as int) =~= entry.1@);
            },
            None => {},
        }
        k = k + 1;
    }
    assert(list@.take(k as int) =~= list@);
    beats
}

/// The monitor id of an `uptimeList` key shaped `"<id>_24"`.
pub open spec fn uptime_24h_id(key: Seq<char>) -> Option<i64> {
    if key.len() >= 3 && key.subrange(key.len() - 3, key.len() as int) == seq!['_', '2', '4'] {
        parse_i64_spec(key.subrange(0, key.len() - 3))
    } else {
        None
    }
}

/// Only keys ending in `_24` name a 24h figure, and the monitor id is what the text before
/// that suffix parses to; any other key (such as `"1_720"`) names none.
pub proof fn lemma_uptime_key_shape(key: Seq<char>)
    ensures
        !(key.len() >= 3 && key[key.len() - 3] == '_' && key[key.len() - 2] == '2' && key[key.len() - 1]
            == '4') ==> uptime_24h_id(key) is None,
        key.len() >= 3 && key[key.len() - 3] == '_' && key[key.len() - 2] == '2' && key[key.len() - 1]
            == '4' ==> uptime_24h_id(key) == parse_i64_spec(key.take(key.len() - 3)),
{
    if key.len() >= 3 {
        let tail = key.subrange(key.len() - 3, key.len() as int);
        if tail == seq!['_', '2', '4'] {
            assert(tail[0] == key[key.len() - 3]);
            assert(tail[1] == key[key.len() - 2]);
            assert(tail[2] == key[key.len() - 1]);
        }
        if key[key.len() - 3] == '_' && key[key.len() - 2] == '2' && key[key.len() - 1] == '4' {
            assert(tail =~= seq!['_', '2', '4']);
            assert(key.take(key.len() - 3) =~= key.subrange(0, key.len() - 3));
        }
    }
}

/// The key `"<id>_24"` written for any monitor id is read back as that id.
pub proof fn lemma_uptime_key_round_trip(id: i64)
    ensures
        uptime_24h_id(decimal_repr(id as int) + seq!['_', '2', '4']) == Some(id),
{
    let d = decimal_repr(id as int);
    let key = d + seq!['_', '2', '4'];
    assert(key.subrange(key.len() - 3, key.len() as int) =~= seq!['_', '2', '4']);
    assert(key.subrange(0, key.len() - 3) =~= d);
    crate::text::lemma_decimal_round_trip(id);
}

/// The 24h figures per monitor id: later entries for the same id replace earlier ones.
pub open spec fn uptime_24h_map<V>(list: Seq<(String, V)>) -> Map<i64, V>
    decreases list.len(),
{
    if list.len() == 0 {
        Map::empty()
    } else {
        let rest = uptime_24h_map(list.drop_last());
        match uptime_24h_id(list.last().0@) {
            Some(id) => rest.insert(id, list.last().1),
            None => rest,
        }
    }
}

/// Per key: monitor `id` has a 24h figure exactly when some key of the list is shaped
/// `"<id>_24"`, and the figure is that of the last such key.
pub proof fn lemma_uptime_24h_per_key<V>(list: Seq<(String, V)>, id: i64)
    ensures
        uptime_24h_map(list).contains_key(id) <==> exists|k: int|
            0 <= k < list.len() && uptime_24h_id(#[trigger] list[k].0@) == Some(id),
        uptime_24h_map(list).contains_key(id) ==> exists|k: int|
            0 <= k < list.len() && uptime_24h_id(#[trigger] list[k].0@) == Some(id)
                && uptime_24h_map(list)[id] == list[k].1 && forall|q: int|
                k < q < list.len() ==> uptime_24h_id(#[trigger] list[q].0@) != Some(id),
    decreases list.len(),
{
    if list.len() > 0 {
        let prev = list.drop_last();
        let n = list.len() - 1;
        lemma_uptime_24h_per_key(prev, id);
        assert(list.last() == list[n]);
        assert forall|k: int| 0 <= k < prev.len() implies #[trigger] prev[k] == list[k] by {}
        if uptime_24h_id(list[n].0@) == Some(id) {
            assert(forall|q: int| n < q < list.len() ==> uptime_24h_id(#[trigger] list[q].0@) != Some(id));
        } else {
            if uptime_24h_map(prev).contains_key(id) {
                let k = choose|k: int|
                    0 <= k < prev.len() && uptime_24h_id(#[trigger] prev[k].0@) == Some(id)
                        && uptime_24h_map(prev)[id] == prev[k].1 && forall|q: int|
                        k < q < prev.len() ==> uptime_24h_id(#[trigger] prev[q].0@) != Some(id);
                assert(list[k] == prev[k]);
                assert forall|q: int| k < q < list.len() implies uptime_24h_id(#[trigger] list[q].0@)
                    != Some(id) by {
                    if q < n {
                        assert(list[q] == prev[q]);
                    }
                }
            }
            if exists|k: int| 0 <= k < list.len() && uptime_24h_id(#[trigger] list[k].0@) == Some(id) {
                let k = choose|k: int| 0 <= k < list.len() && uptime_24h_id(#[trigger] list[k].0@) == Some(id);
                assert(prev[k] == list[k]);
            }
        }
    }
}

/// The monitor id of an `uptimeList` key shaped `"<id>_24"`, if it is one.
pub fn uptime_24h_key_id(key: &str) -> (res: Option<i64>)
    ensures
        res == uptime_24h_id(key@),
{
    let n = key.unicode_len();
    if n >= 3 && key.get_char(n - 3) == '_' && key.get_char(n - 2) == '2' && key.get_char(n - 1)
        == '4' {
        assert(key@.subrange(n - 3, n as int) =~= seq!['_', '2', '4']);
        let prefix = key.substring_char(0, n - 3);
        parse_i64(prefix)
    } else {
        proof {
            if n >= 3 {
                let tail = key@.subrange(n - 3, n as int);
                if tail == seq!['_', '2', '4'] {
                    assert(tail[0] == key@[n - 3]);
                    assert(tail[1] == key@[n - 2]);
                    assert(tail[2] == key@[n - 1]);
                }
            }
        }
        None
    }
}

/// The 24h uptime figure per monitor id, from `uptimeList` keys shaped `"<id>_24"`. The
/// figure itself is carried unchanged; a later key for the same id replaces an earlier one.
pub fn extract_uptime_24h<V: Copy>(uptime_list: &Vec<(String, V)>) -> (res: HashMap<i64, V>)
    ensures
        res@ == uptime_24h_map(uptime_list@),
{
    broadcast use vstd::std_specs::hash::group_hash_axioms;
    let mut out: HashMap<i64, V> = HashMap::new();
    let mut k: usize = 0;
    while k < uptime_list.len()
        invariant
            k <= uptime_list.len(),
            out@ == uptime_24h_map(uptime_list@.take(k as int)),
        decreases uptime_list.len() - k,
    {
        assert(uptime_list@.take(k + 1).drop_last() =~= uptime_list@.take(k as int));
        let value = uptime_list[k].1;
        match uptime_24h_key_id(uptime_list[k].0.as_str()) {
            Some(id) => {
                out.insert(id, value);
            },
            None => {},
        }
        k = k + 1;
    }
    assert(uptime_list@.take(k as int) =~= uptime_list@);
    out
}

/// URL of the status-page configuration endpoint.
pub fn status_page_config_url(base_url: &str, slug: &str) -> (res: String)
    ensures
        res@ == base_url@ + "/api/status-page/"@ + slug@,
{
    let url = String::from_str(base_url);
    let url = url.concat("/api/status-page/");
    url.concat(slug)
}

/// URL of the status-page heartbeat endpoint.
pub fn status_page_heartbeat_url(base_url: &str, slug: &str) -> (res: String)
    ensures
        res@ == base_url@ + "/api/status-page/heartbeat/"@ + slug@,
{
    let url = String::from_str(base_url);
    let url = url.concat("/api/status-page/heartbeat/");
    url.concat(slug)
}


/// The HTTP client the poller shares (connection-pooled).
#[verifier::external_type_specification]
#[verifier::external_body]
pub struct ExHttpClient(reqwest::Client);

/// Client of the primary data source: the public status-page JSON endpoints (no auth).
pub struct StatusPageClient {
    base_url: String,
    slug: String,
    http: reqwest::Client,
}

impl StatusPageClient {
    /// The Uptime Kuma base URL.
    pub closed spec fn base(&self) -> Seq<char> {
        self.base_url@
    }

    /// The status-page slug.
    pub closed spec fn page(&self) -> Seq<char> {
        self.slug@
    }

    /// The HTTP client requests go through.
    pub closed spec fn client(&self) -> reqwest::Client {
        self.http
    }

    /// A client for the status page `slug` of the Uptime Kuma instance at `base_url`.
    pub fn new(base_url: String, slug: String, http: reqwest::Client) -> (c: StatusPageClient)
        ensures
            c.base() == base_url@,
            c.page() == slug@,
            c.client() == http,
    {
        StatusPageClient { base_url, slug, http }
    }

    /// The shared HTTP client.
    pub fn http(&self) -> (res: &reqwest::Client)
        ensures
            *res == self.client(),
    {
        &self.http
    }

    /// URL of the page configuration (monitor names and groups).
    pub fn config_url(&self) -> (res: String)
        ensures
            res@ == self.base() + "/api/status-page/"@ + self.page(),
    {
        status_page_config_url(self.base_url.as_str(), self.slug.as_str())
    }

    /// URL of the live heartbeats.
    pub fn heartbeat_url(&self) -> (res: String)
        ensures
            res@ == self.base() + "/api/status-page/heartbeat/"@ + self.page(),
    {
        status_page_heartbeat_url(self.base_url.as_str(), self.slug.as_str())
    }
}

} // verus!
