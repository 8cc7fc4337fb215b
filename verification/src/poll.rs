use vstd::prelude::*;

use crate::model::Monitor;
use crate::time::Timestamp;
use crate::uptime::UptimeFigures;

verus! {

/// Where the poll loop stands: waiting for the next tick, or running one step of a poll
/// (the step named is the one whose outcome is awaited). While pruning, the loop remembers
/// whether the incidents were computed, for the snapshot it publishes next.
#[derive(Debug, Clone, Copy, PartialEq, Eq, Structural)]
pub enum PollPhase {
    Waiting,
    Fetching,
    Recording,
    BuildingUptime,
    ComputingIncidents,
    Pruning { with_incidents: bool },
    Publishing,
}

/// What the loop hands back: the poll interval elapsed, or the step in progress succeeded
/// or failed.
#[derive(Debug, Clone, Copy, PartialEq, Eq, Structural)]
pub enum PollEvent {
    Tick,
    Succeeded,
    Failed,
}

/// What the loop is to do next.
#[derive(Debug, Clone, Copy, PartialEq, Eq, Structural)]
pub enum PollAction {
    /// Wait for the next tick.
    Sleep,
    /// Fetch the status page.
    Fetch,
    /// Store the fetched heartbeats.
    Record,
    /// Build the uptime windows.
    BuildUptime,
    /// Reconstruct incidents from the stored history.
    ComputeIncidents,
    /// Drop heartbeats older than the retention period.
    Prune,
    /// Replace the cached snapshot; with an empty incident list where computing them failed.
    Publish { with_incidents: bool },
}

/// The poll loop's table: a tick starts a fetch; a failed fetch goes back to waiting; after a
/// successful fetch the steps record, build uptime, compute incidents, prune and publish
/// follow in that order, each whatever the outcome of the one before (a failed incident
/// computation publishes an empty list); after publishing the loop waits. An event that does
/// not belong to the phase (a tick mid-poll, an outcome while waiting) changes nothing.
pub open spec fn poll_next(phase: PollPhase, event: PollEvent) -> (PollPhase, PollAction) {
    match (phase, event) {
        (PollPhase::Waiting, PollEvent::Tick) => (PollPhase::Fetching, PollAction::Fetch),
        (PollPhase::Fetching, PollEvent::Succeeded) => (PollPhase::Recording, PollAction::Record),
        (PollPhase::Fetching, PollEvent::Failed) => (PollPhase::Waiting, PollAction::Sleep),
        (PollPhase::Recording, PollEvent::Succeeded) | (PollPhase::Recording, PollEvent::Failed) => (
            PollPhase::BuildingUptime,
            PollAction::BuildUptime,
        ),
        (PollPhase::BuildingUptime, PollEvent::Succeeded) | (
            PollPhase::BuildingUptime,
            PollEvent::Failed,
        ) => (PollPhase::ComputingIncidents, PollAction::ComputeIncidents),
        (PollPhase::ComputingIncidents, PollEvent::Succeeded) => (
            PollPhase::Pruning { with_incidents: true },
            PollAction::Prune,
        ),
        (PollPhase::ComputingIncidents, PollEvent::Failed) => (
            PollPhase::Pruning { with_incidents: false },
            PollAction::Prune,
        ),
        (PollPhase::Pruning { with_incidents }, PollEvent::Succeeded) | (
            PollPhase::Pruning { with_incidents },
            PollEvent::Failed,
        ) => (PollPhase::Publishing, PollAction::Publish { with_incidents }),
        (PollPhase::Publishing, PollEvent::Succeeded) | (PollPhase::Publishing, PollEvent::Failed) => (
            PollPhase::Waiting,
            PollAction::Sleep,
        ),
        _ => (phase, PollAction::Sleep),
    }
}

/// The phases of a poll whose fetch succeeded.
pub open spec fn after_fetch(phase: PollPhase) -> bool {
    phase is Recording || phase is BuildingUptime || phase is ComputingIncidents
        || phase is Pruning || phase is Publishing
}

/// One decision of the poll loop: the next phase and the action to perform, given the
/// current phase and what just happened.
pub fn poll_step(phase: PollPhase, event: PollEvent) -> (res: (PollPhase, PollAction))
    ensures
        res == poll_next(phase, event),
        phase is Waiting && event is Tick ==> res == (PollPhase::Fetching, PollAction::Fetch),
        phase is Fetching && event is Failed ==> res == (PollPhase::Waiting, PollAction::Sleep),
        phase is Fetching && event is Succeeded ==> res == (PollPhase::Recording, PollAction::Record),
        phase is Recording && !(event is Tick) ==> res == (
            PollPhase::BuildingUptime,
            PollAction::BuildUptime,
        ),
        phase is BuildingUptime && !(event is Tick) ==> res == (
            PollPhase::ComputingIncidents,
            PollAction::ComputeIncidents,
        ),
        phase is ComputingIncidents && !(event is Tick) ==> res == (
            (PollPhase::Pruning { with_incidents: event is Succeeded }),
            PollAction::Prune,
        ),
        phase is Pruning && !(event is Tick) ==> res == (
            PollPhase::Publishing,
            (PollAction::Publish { with_incidents: phase->with_incidents }),
        ),
        phase is Publishing && !(event is Tick) ==> res == (PollPhase::Waiting, PollAction::Sleep),
        (phase is Waiting) != (event is Tick) ==> res == (phase, PollAction::Sleep),
        res.1 is Prune ==> phase is ComputingIncidents,
        res.1 is Publish ==> phase is Pruning,
        res.1 is Publish || res.1 is Prune ==> after_fetch(phase),
{
    match (phase, event) {
        (PollPhase::Waiting, PollEvent::Tick) => (PollPhase::Fetching, PollAction::Fetch),
        (PollPhase::Fetching, PollEvent::Succeeded) => (PollPhase::Recording, PollAction::Record),
        (PollPhase::Fetching, PollEvent::Failed) => (PollPhase::Waiting, PollAction::Sleep),
        (PollPhase::Recording, PollEvent::Succeeded) | (PollPhase::Recording, PollEvent::Failed) => (
            PollPhase::BuildingUptime,
            PollAction::BuildUptime,
        ),
        (PollPhase::BuildingUptime, PollEvent::Succeeded) | (
            PollPhase::BuildingUptime,
            PollEvent::Failed,
        ) => (PollPhase::ComputingIncidents, PollAction::ComputeIncidents),
        (PollPhase::ComputingIncidents, PollEvent::Succeeded) => (
            PollPhase::Pruning { with_incidents: true },
            PollAction::Prune,
        ),
        (PollPhase::ComputingIncidents, PollEvent::Failed) => (
            PollPhase::Pruning { with_incidents: false },
            PollAction::Prune,
        ),
        (PollPhase::Pruning { with_incidents }, PollEvent::Succeeded) | (
            PollPhase::Pruning { with_incidents },
            PollEvent::Failed,
        ) => (PollPhase::Publishing, PollAction::Publish { with_incidents }),
        (PollPhase::Publishing, PollEvent::Succeeded) | (PollPhase::Publishing, PollEvent::Failed) => (
            PollPhase::Waiting,
            PollAction::Sleep,
        ),
        _ => (phase, PollAction::Sleep),
    }
}

/// What one successful poll publishes: the fetched monitors, their uptime figures, the
/// incidents and the time of publishing.
pub struct PolledSnapshot<V, I> {
    pub monitors: Vec<Monitor>,
    pub uptime: Vec<UptimeFigures<V>>,
    pub incidents: Vec<I>,
    pub last_updated: Timestamp,
}

/// The snapshot a `Publish { with_incidents }` action publishes: the fetched monitors and
/// the built uptime figures as they are, the computed incidents where computing them
/// succeeded and an empty list where it failed, stamped `now`.
pub fn assemble_snapshot<V, I>(
    monitors: Vec<Monitor>,
    uptime: Vec<UptimeFigures<V>>,
    incidents: Vec<I>,
    with_incidents: bool,
    now: Timestamp,
) -> (res: PolledSnapshot<V, I>)
    ensures
        res.monitors@ == monitors@,
        res.uptime@ == uptime@,
        res.incidents@ == (if with_incidents {
            incidents@
        } else {
            Seq::<I>::empty()
        }),
        res.last_updated == now,
{
    let incidents = if with_incidents {
        incidents
    } else {
        Vec::new()
    };
    PolledSnapshot { monitors, uptime, incidents, last_updated: now }
}

/// The phase the loop is in after the events, starting from waiting.
pub open spec fn phase_after(events: Seq<PollEvent>) -> PollPhase
    decreases events.len(),
{
    if events.len() == 0 {
        PollPhase::Waiting
    } else {
        poll_next(phase_after(events.drop_last()), events.last()).0
    }
}

/// The action the loop takes on the `k`-th event.
pub open spec fn action_at(events: Seq<PollEvent>, k: int) -> PollAction {
    poll_next(phase_after(events.take(k)), events[k]).1
}

/// The `j`-th event is a successful fetch.
pub open spec fn fetch_succeeded_at(events: Seq<PollEvent>, j: int) -> bool {
    phase_after(events.take(j)) is Fetching && events[j] is Succeeded
}

proof fn lemma_after_fetch_has_origin(events: Seq<PollEvent>)
    ensures
        after_fetch(phase_after(events)) ==> exists|j: int|
            0 <= j < events.len() && fetch_succeeded_at(events, j) && forall|i: int|
                j < i <= events.len() ==> after_fetch(#[trigger] phase_after(events.take(i))),
    decreases events.len(),
{
    let n = events.len() as int;
    if n > 0 && after_fetch(phase_after(events)) {
        let prev = events.drop_last();
        lemma_after_fetch_has_origin(prev);
        assert(events.take(n) =~= events);
        assert forall|i: int| 0 <= i <= n - 1 implies #[trigger] events.take(i) == prev.take(i) by {
            assert(events.take(i) =~= prev.take(i));
        }
        if phase_after(prev) is Fetching && events.last() is Succeeded {
            assert(events.take(n - 1) =~= prev);
            assert(fetch_succeeded_at(events, n - 1));
        } else {
            let j = choose|j: int|
                0 <= j < prev.len() && fetch_succeeded_at(prev, j) && forall|i: int|
                    j < i <= prev.len() ==> after_fetch(#[trigger] phase_after(prev.take(i)));
            assert(events[j] == prev[j]);
            assert(fetch_succeeded_at(events, j));
            assert forall|i: int| j < i <= n implies after_fetch(#[trigger] phase_after(events.take(i))) by {
                if i < n {
                    assert(phase_after(events.take(i)) == phase_after(prev.take(i)));
                } else {
                    assert(prev.take(n - 1) =~= prev);
                }
            }
        }
    }
}

/// The loop publishes a snapshot (and prunes) only in a poll whose fetch succeeded: before
/// any publish or prune there is a successful fetch, and the loop has not gone back to
/// waiting since.
pub proof fn lemma_publish_only_after_successful_fetch(events: Seq<PollEvent>, k: int)
    requires
        0 <= k < events.len(),
        action_at(events, k) is Publish || action_at(events, k) is Prune,
    ensures
        exists|j: int|
            0 <= j < k && fetch_succeeded_at(events, j) && forall|i: int|
                j < i <= k ==> after_fetch(#[trigger] phase_after(events.take(i))),
{
    let pre = events.take(k);
    assert(after_fetch(phase_after(pre)));
    lemma_after_fetch_has_origin(pre);
    let j = choose|j: int|
        0 <= j < pre.len() && fetch_succeeded_at(pre, j) && forall|i: int|
            j < i <= pre.len() ==> after_fetch(#[trigger] phase_after(pre.take(i)));
    assert(pre.take(j) =~= events.take(j));
    assert(pre[j] == events[j]);
    assert(fetch_succeeded_at(events, j));
    assert forall|i: int| j < i <= k implies after_fetch(#[trigger] phase_after(events.take(i))) by {
        assert(pre.take(i) =~= events.take(i));
    }
}

/// A failed poll keeps the last snapshot: after a failed fetch, nothing is published or
/// pruned until a fetch succeeds again.
pub proof fn lemma_failed_poll_keeps_snapshot(events: Seq<PollEvent>, j: int, k: int)
    requires
        0 <= j < k < events.len(),
        phase_after(events.take(j)) is Fetching,
        events[j] is Failed,
        forall|i: int| j < i < k ==> !fetch_succeeded_at(events, i),
    ensures
        !(action_at(events, k) is Publish),
        !(action_at(events, k) is Prune),
{
    if action_at(events, k) is Publish || action_at(events, k) is Prune {
        lemma_publish_only_after_successful_fetch(events, k);
        let j2 = choose|j2: int|
            0 <= j2 < k && fetch_succeeded_at(events, j2) && forall|i: int|
                j2 < i <= k ==> after_fetch(#[trigger] phase_after(events.take(i)));
        if j2 < j {
            assert(events.take(j + 1).drop_last() =~= events.take(j));
            assert(phase_after(events.take(j + 1)) is Waiting);
            assert(after_fetch(phase_after(events.take(j + 1))));
        }
    }
}

} // verus!
