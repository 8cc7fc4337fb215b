use uptime_kuma_rs::poll::{assemble_snapshot, poll_step, PollAction, PollEvent, PollPhase};
use uptime_kuma_rs::time::Timestamp;
use uptime_kuma_rs::uptime::UptimeFigures;
use PollEvent::{Failed, Succeeded, Tick};

/// Runs the events from waiting and collects the actions.
fn run(events: &[PollEvent]) -> (PollPhase, Vec<PollAction>) {
    let mut phase = PollPhase::Waiting;
    let mut actions = Vec::new();
    for e in events {
        let (next, action) = poll_step(phase, *e);
        phase = next;
        actions.push(action);
    }
    (phase, actions)
}

#[test]
fn successful_poll_runs_every_step_in_order() {
    let (phase, actions) = run(&[Tick, Succeeded, Succeeded, Succeeded, Succeeded, Succeeded, Succeeded]);
    assert_eq!(phase, PollPhase::Waiting);
    assert_eq!(
        actions,
        vec![
            PollAction::Fetch,
            PollAction::Record,
            PollAction::BuildUptime,
            PollAction::ComputeIncidents,
            PollAction::Prune,
            PollAction::Publish { with_incidents: true },
            PollAction::Sleep,
        ]
    );
}

#[test]
fn failed_fetch_waits_without_publishing() {
    let (phase, actions) = run(&[Tick, Failed, Tick, Failed]);
    assert_eq!(phase, PollPhase::Waiting);
    assert_eq!(actions, vec![PollAction::Fetch, PollAction::Sleep, PollAction::Fetch, PollAction::Sleep]);
}

#[test]
fn failed_steps_after_fetch_move_on() {
    let (phase, actions) = run(&[Tick, Succeeded, Failed, Failed, Failed, Failed, Failed]);
    assert_eq!(phase, PollPhase::Waiting);
    assert_eq!(
        actions,
        vec![
            PollAction::Fetch,
            PollAction::Record,
            PollAction::BuildUptime,
            PollAction::ComputeIncidents,
            PollAction::Prune,
            // incidents failed: publish with an empty incident list
            PollAction::Publish { with_incidents: false },
            PollAction::Sleep,
        ]
    );
}

#[test]
fn stray_events_change_nothing() {
    assert_eq!(poll_step(PollPhase::Waiting, PollEvent::Succeeded), (PollPhase::Waiting, PollAction::Sleep));
    assert_eq!(poll_step(PollPhase::Waiting, PollEvent::Failed), (PollPhase::Waiting, PollAction::Sleep));
    assert_eq!(poll_step(PollPhase::Recording, PollEvent::Tick), (PollPhase::Recording, PollAction::Sleep));
    assert_eq!(poll_step(PollPhase::Fetching, PollEvent::Tick), (PollPhase::Fetching, PollAction::Sleep));
}

#[test]
fn published_snapshot_drops_incidents_only_when_they_failed() {
    let now = Timestamp::new(1_784_116_800, 0).unwrap();
    let figures = vec![UptimeFigures {
        monitor_id: 1,
        uptime_24h: 1.0f64,
        uptime_7d: 0.5,
        coverage_7d: 0.25,
        uptime_30d: 0.0,
        coverage_30d: 0.0,
    }];
    let s = assemble_snapshot(Vec::new(), figures.clone(), vec![7u8, 8], true, now);
    assert_eq!(s.incidents, vec![7, 8]);
    assert_eq!(s.uptime.len(), 1);
    assert_eq!(s.uptime[0].coverage_7d, 0.25);
    assert_eq!(s.last_updated, now);
    let s = assemble_snapshot(Vec::new(), figures, vec![7u8, 8], false, now);
    assert!(s.incidents.is_empty());
}
