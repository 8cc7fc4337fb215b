use vstd::prelude::*;

use std::collections::HashMap;

verus! {

/// The uptime figures of one monitor: the 24h figure from the status page, and the 7-day
/// and 30-day figures with their coverage from the stored history. The figures are carried
/// as they come (`V`), never computed on here.
#[derive(Debug, Clone, Copy)]
pub struct UptimeFigures<V> {
    pub monitor_id: i64,
    pub uptime_24h: V,
    pub uptime_7d: V,
    pub coverage_7d: V,
    pub uptime_30d: V,
    pub coverage_30d: V,
}

/// The 24h figure of monitor `id`, or `zero` when the status page reports none.
pub open spec fn figure_for<V>(figures: Map<i64, V>, id: i64, zero: V) -> V {
    if figures.contains_key(id) {
        figures[id]
    } else {
        zero
    }
}

/// A stored-history query's `(ratio, coverage)`, or `(zero, zero)` where the query failed.
pub open spec fn window_or_zero<V>(w: Option<(V, V)>, zero: V) -> (V, V) {
    match w {
        Some(p) => p,
        None => (zero, zero),
    }
}

/// The figures of the `i`-th monitor.
pub open spec fn figures_at<V>(
    monitor_ids: Seq<i64>,
    uptime_24h: Map<i64, V>,
    week: Seq<Option<(V, V)>>,
    month: Seq<Option<(V, V)>>,
    zero: V,
    i: int,
) -> UptimeFigures<V> {
    UptimeFigures {
        monitor_id: monitor_ids[i],
        uptime_24h: figure_for(uptime_24h, monitor_ids[i], zero),
        uptime_7d: window_or_zero(week[i], zero).0,
        coverage_7d: window_or_zero(week[i], zero).1,
        uptime_30d: window_or_zero(month[i], zero).0,
        coverage_30d: window_or_zero(month[i], zero).1,
    }
}

/// The uptime windows of the polled monitors, one per monitor in order: the 24h figure
/// from the status page (`zero` when it has none for the monitor), the 7-day and 30-day
/// `(ratio, coverage)` from the store (`(zero, zero)` where that query failed).
pub fn build_uptime<V: Copy>(
    monitor_ids: &Vec<i64>,
    uptime_24h: &HashMap<i64, V>,
    week: &Vec<Option<(V, V)>>,
    month: &Vec<Option<(V, V)>>,
    zero: V,
) -> (res: Vec<UptimeFigures<V>>)
    requires
        week.len() == monitor_ids.len(),
        month.len() == monitor_ids.len(),
    ensures
        res.len() == monitor_ids.len(),
        forall|i: int|
            0 <= i < res.len() ==> #[trigger] res@[i] == figures_at(
                monitor_ids@,
                uptime_24h@,
                week@,
                month@,
                zero,
                i,
            ),
        forall|i: int|
            0 <= i < res.len() ==> {
                &&& (#[trigger] res@[i]).monitor_id == monitor_ids@[i]
                &&& res@[i].uptime_24h == (if uptime_24h@.contains_key(monitor_ids@[i]) {
                    uptime_24h@[monitor_ids@[i]]
                } else {
                    zero
                })
                &&& (res@[i].uptime_7d, res@[i].coverage_7d) == (match week@[i] {
                    Some(p) => p,
                    None => (zero, zero),
                })
                &&& (res@[i].uptime_30d, res@[i].coverage_30d) == (match month@[i] {
                    Some(p) => p,
                    None => (zero, zero),
                })
            },
{
    broadcast use vstd::std_specs::hash::group_hash_axioms;
    let mut out: Vec<UptimeFigures<V>> = Vec::new();
    let mut i: usize = 0;
    while i < monitor_ids.len()
        invariant
            i <= monitor_ids.len(),
            week.len() == monitor_ids.len(),
            month.len() == monitor_ids.len(),
            out.len() == i,
            forall|j: int|
                0 <= j < i ==> #[trigger] out@[j] == figures_at(
                    monitor_ids@,
                    uptime_24h@,
                    week@,
                    month@,
                    zero,
                    j,
                ),
        decreases monitor_ids.len() - i,
    {
        let id = monitor_ids[i];
        let day = match uptime_24h.get(&id) {
            Some(v) => *v,
            None => zero,
        };
        let (uptime_7d, coverage_7d) = match week[i] {
            Some(p) => p,
            None => (zero, zero),
        };
        let (uptime_30d, coverage_30d) = match month[i] {
            Some(p) => p,
            None => (zero, zero),
        };
        let f = UptimeFigures {
            monitor_id: id,
            uptime_24h: day,
            uptime_7d,
            coverage_7d,
            uptime_30d,
            coverage_30d,
        };
        assert(f == figures_at(monitor_ids@, uptime_24h@, week@, month@, zero, i as int));
        out.push(f);
        i = i + 1;
    }
    proof {
        assert forall|j: int| 0 <= j < out.len() implies #[trigger] out@[j] == figures_at(
            monitor_ids@,
            uptime_24h@,
            week@,
            month@,
            zero,
            j,
        ) by {}
        lemma_figures_are_per_monitor(monitor_ids@, uptime_24h@, week@, month@, zero);
    }
    out
}

/// Each monitor's figures are its own: the monitor's id, the 24h figure stored under that
/// id (or `zero`), and the 7-day and 30-day `(ratio, coverage)` at the monitor's position
/// (or zeros where that query failed).
pub proof fn lemma_figures_are_per_monitor<V>(
    monitor_ids: Seq<i64>,
    uptime_24h: Map<i64, V>,
    week: Seq<Option<(V, V)>>,
    month: Seq<Option<(V, V)>>,
    zero: V,
)
    ensures
        forall|i: int|
            0 <= i < monitor_ids.len() ==> {
                let f = #[trigger] figures_at(monitor_ids, uptime_24h, week, month, zero, i);
                &&& f.monitor_id == monitor_ids[i]
                &&& f.uptime_24h == (if uptime_24h.contains_key(monitor_ids[i]) {
                    uptime_24h[monitor_ids[i]]
                } else {
                    zero
                })
                &&& (f.uptime_7d, f.coverage_7d) == (match week[i] {
                    Some(p) => p,
                    None => (zero, zero),
                })
                &&& (f.uptime_30d, f.coverage_30d) == (match month[i] {
                    Some(p) => p,
                    None => (zero, zero),
                })
            },
{
}

} // verus!
