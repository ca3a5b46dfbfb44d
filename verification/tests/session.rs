//! A simulation served command by command.

use logigator_sim::binding::{bounded, RawBoard, RawComponent};
use logigator_sim::board::BoardBuilder;
use logigator_sim::clock::due;
use logigator_sim::session::{Command, Reply, Session, Shared, SnapParts, Speed, BATCH};
use logigator_sim::sim::snapshot::SnapshotConfig;
use logigator_sim::sim::Simulation;
use logigator_sim::types::{CompType, SimState};
use std::sync::atomic::{AtomicBool, Ordering};

/// A user input with a NOT behind it.
fn session() -> Session {
    let mut b = BoardBuilder::new(2);
    b.component(CompType::UserInput, &[], &[0], &[]);
    b.component(CompType::Not, &[0], &[1], &[]);
    Session::new(Simulation::from_descriptor(&b.finish()).unwrap())
}

fn refusal(r: Reply) -> String {
    match r {
        Reply::Refused(why) => why,
        _ => panic!("not refused"),
    }
}

fn value(s: &mut Session, id: u32, stop: &AtomicBool) -> bool {
    match s.handle(Command::Link { id }, stop) {
        Reply::Value(v) => v,
        _ => panic!("no value"),
    }
}

fn parts(r: Reply) -> SnapParts {
    match r {
        Reply::Snapshot(p) => p,
        _ => panic!("no snapshot"),
    }
}

#[test]
fn a_fresh_session_is_stopped() {
    let s = session();
    assert_eq!(
        s.status(),
        Shared {
            state: SimState::Stopped,
            tick: 0,
            parallel: false,
            link_count: 2,
            component_count: 2,
        }
    );
    assert!(!s.busy());
}

#[test]
fn ticks_are_published() {
    let stop = AtomicBool::new(false);
    let mut s = session();
    assert!(matches!(s.handle(Command::Tick, &stop), Reply::Done));
    assert_eq!(s.status().tick, 1);
    assert!(value(&mut s, 1, &stop));
    assert!(!value(&mut s, 0, &stop));
    assert!(!s.accepts(&Command::Link { id: 2 }));
    assert!(s.accepts(&Command::Link { id: 1 }));
}

#[test]
fn a_blocking_run_runs_all_its_ticks() {
    for threads in [1usize, 2] {
        // The flag is lowered first, so an old request to stop does not count.
        let stop = AtomicBool::new(true);
        let mut s = session();
        let r = s.handle(Command::RunBlocking { ticks: 1000, timeout: None, threads }, &stop);
        match r {
            Reply::Ran(Speed::Rate { ticks, nanos }) => {
                assert_eq!(ticks, 1000);
                assert!(nanos > 0);
            }
            Reply::Ran(Speed::Zero) => {}
            _ => panic!("not run"),
        }
        assert!(!stop.load(Ordering::Relaxed));
        assert_eq!(s.status().tick, 1000);
        assert_eq!(s.status().state, SimState::Stopped);
    }
}

#[test]
fn a_blocking_run_heeds_its_time_limit() {
    let stop = AtomicBool::new(false);
    let mut s = session();
    s.handle(Command::RunBlocking { ticks: 5, timeout: Some(0), threads: 1 }, &stop);
    assert_eq!(s.status().tick, 0);
}

#[test]
fn a_background_run_goes_in_batches() {
    let stop = AtomicBool::new(false);
    let mut s = session();
    let ticks = 2 * BATCH + 10;
    assert!(matches!(
        s.handle(Command::RunAsync { ticks, timeout: None, threads: 1 }, &stop),
        Reply::Started
    ));
    assert!(s.busy());
    assert_eq!(s.status().state, SimState::Running);

    let first = s.advance_batch(&stop);
    assert!(!first.ended);
    assert!(matches!(first.speed, Speed::Keep | Speed::Rate { ticks: BATCH, .. }));
    assert_eq!(s.status().tick, BATCH);

    // Commands are served between the batches.
    assert!(value(&mut s, 1, &stop));
    assert!(matches!(s.handle(Command::Tick, &stop), Reply::Done));

    assert!(!s.advance_batch(&stop).ended);
    let last = s.advance_batch(&stop);
    assert!(last.ended);
    assert_eq!(last.speed, Speed::Zero);
    assert_eq!(s.status().tick, ticks + 1);
    assert_eq!(s.status().state, SimState::Stopped);
    assert!(!s.busy());
}

#[test]
fn a_second_run_is_refused() {
    let stop = AtomicBool::new(false);
    let mut s = session();
    s.handle(Command::RunAsync { ticks: 10, timeout: None, threads: 1 }, &stop);
    let again = s.handle(Command::RunAsync { ticks: 10, timeout: None, threads: 1 }, &stop);
    assert_eq!(refusal(again), "a run is already in progress");
    let blocking = s.handle(Command::RunBlocking { ticks: 10, timeout: None, threads: 1 }, &stop);
    assert_eq!(refusal(blocking), "a background run is in progress; stop() it first");
    assert_eq!(s.status().tick, 0);
    assert!(s.busy());
}

#[test]
fn a_raised_flag_ends_a_background_run() {
    let stop = AtomicBool::new(false);
    let mut s = session();
    s.handle(Command::RunAsync { ticks: u64::MAX, timeout: None, threads: 2 }, &stop);
    assert!(!s.advance_batch(&stop).ended);
    stop.store(true, Ordering::Relaxed);
    assert!(s.advance_batch(&stop).ended);
    assert_eq!(s.status().tick, BATCH);
}

#[test]
fn time_ends_a_background_run() {
    let stop = AtomicBool::new(false);
    let mut s = session();
    s.handle(Command::RunAsync { ticks: u64::MAX, timeout: Some(0), threads: 1 }, &stop);
    assert!(s.advance_batch(&stop).ended);
    assert_eq!(s.status().tick, 0);
    assert!(due(Some(5), 5) && !due(Some(5), 4) && !due(None, u128::MAX));
}

#[test]
fn triggers_are_checked() {
    let stop = AtomicBool::new(false);
    let mut s = session();
    let trigger = |comp, event| Command::Trigger { comp, event, state: vec![true] };
    let bad_event = s.handle(trigger(0, 2), &stop);
    assert_eq!(refusal(bad_event), "invalid input event 2 (want 0=cont, 1=pulse)");
    let bad_comp = s.handle(trigger(1, 0), &stop);
    assert_eq!(refusal(bad_comp), "component 1 is not a user-input component");
    assert!(matches!(s.handle(trigger(0, 0), &stop), Reply::Done));
    match s.handle(Command::Outputs, &stop) {
        Reply::Bytes(bytes) => assert_eq!(bytes, [1, 1]),
        _ => panic!("no bytes"),
    }
}

#[test]
fn snapshots_are_copied_out() {
    let stop = AtomicBool::new(false);
    let mut s = session();
    s.handle(Command::Tick, &stop);
    let cfg = SnapshotConfig { delta: true, delta_limit: Some(2) };
    let full = parts(s.handle(Command::Snapshot { cfg }, &stop));
    assert_eq!((full.tick, full.is_delta), (1, false));
    assert_eq!(full.links, Some(vec![0b10]));
    assert!(full.ids.is_none() && full.values.is_none());

    s.handle(Command::Trigger { comp: 0, event: 0, state: vec![true] }, &stop);
    s.handle(Command::Tick, &stop);
    s.handle(Command::Tick, &stop);
    let delta = parts(s.handle(Command::Snapshot { cfg }, &stop));
    assert_eq!((delta.tick, delta.is_delta), (3, true));
    assert!(delta.links.is_none());
    assert_eq!(delta.ids, Some(vec![0, 0, 0, 0]));
    assert_eq!(delta.values, Some(vec![1]));
}

#[test]
fn raw_boards_are_lowered() {
    let comp = |ty, ops| RawComponent { ty, inputs: vec![0], outputs: vec![1], ops };
    let board = RawBoard { links: 2, components: vec![comp(1, None), comp(6, Some(vec![3]))] };
    let desc = board.into_core().unwrap();
    assert_eq!(desc.link_count, 2);
    assert_eq!(desc.components[0].ty, CompType::Not);
    assert_eq!(desc.components[0].ops, Vec::<u32>::new());
    assert_eq!(desc.components[1].ty, CompType::Clk);
    assert_eq!(desc.components[1].ops, [3]);

    let wide = RawBoard { links: 2, components: vec![comp(1, None), comp(70_000, None)] };
    assert_eq!(wide.into_core().unwrap_err(), "component type 70000 out of range");
    let unknown = RawBoard { links: 2, components: vec![comp(8, None), comp(70_000, None)] };
    assert_eq!(unknown.into_core().unwrap_err(), "unknown component type id 8");
}

#[test]
fn runs_are_bounded_by_ticks_or_time() {
    assert!(bounded(5, None) && bounded(u64::MAX, Some(1)));
    assert!(!bounded(u64::MAX, None));
}

#[test]
fn reading_does_not_disturb_a_run() {
    let stop = AtomicBool::new(false);
    let (mut watched, mut alone) = (session(), session());
    for s in [&mut watched, &mut alone] {
        s.handle(Command::Trigger { comp: 0, event: 1, state: vec![true] }, &stop);
        s.handle(Command::RunAsync { ticks: 3 * BATCH, timeout: None, threads: 1 }, &stop);
    }
    let cfg = SnapshotConfig { delta: true, delta_limit: Some(2) };
    loop {
        watched.handle(Command::Snapshot { cfg }, &stop);
        watched.handle(Command::Outputs, &stop);
        let (a, b) = (watched.advance_batch(&stop), alone.advance_batch(&stop));
        assert_eq!(a.ended, b.ended);
        assert_eq!(watched.status(), alone.status());
        if a.ended {
            break;
        }
    }
    assert_eq!(watched.status().tick, 3 * BATCH);
    assert_eq!(value(&mut watched, 1, &stop), value(&mut alone, 1, &stop));
}

#[test]
fn a_background_run_stops_early_only_when_asked() {
    let stop = AtomicBool::new(false);
    let mut s = session();
    s.handle(Command::RunAsync { ticks: BATCH + 1, timeout: None, threads: 1 }, &stop);
    assert!(!s.advance_batch(&stop).ended);
    assert!(s.advance_batch(&stop).ended);
    assert_eq!(s.status().tick, BATCH + 1);

    s.handle(Command::RunAsync { ticks: 10, timeout: None, threads: 1 }, &stop);
    stop.store(true, Ordering::Relaxed);
    assert!(s.advance_batch(&stop).ended);
    assert_eq!(s.status().tick, BATCH + 1);
    assert!(!s.busy());
}

#[test]
fn starting_a_run_lowers_the_flag() {
    let stop = AtomicBool::new(true);
    let mut s = session();
    let run = s.handle(Command::RunBlocking { ticks: 20, timeout: None, threads: 1 }, &stop);
    assert!(matches!(run, Reply::Ran(_)));
    assert!(!stop.load(Ordering::Relaxed));
    assert_eq!(s.status().tick, 20);

    stop.store(true, Ordering::Relaxed);
    s.handle(Command::RunAsync { ticks: 5, timeout: None, threads: 1 }, &stop);
    assert!(!stop.load(Ordering::Relaxed));
    assert!(s.advance_batch(&stop).ended);
    assert_eq!(s.status().tick, 25);
}

#[test]
fn time_ends_a_blocking_run() {
    let stop = AtomicBool::new(false);
    let mut s = session();
    let none = Command::RunBlocking { ticks: u64::MAX, timeout: Some(0), threads: 1 };
    assert!(matches!(s.handle(none, &stop), Reply::Ran(_)));
    assert_eq!(s.status().tick, 0);
    let some = Command::RunBlocking { ticks: u64::MAX, timeout: Some(2_000_000), threads: 1 };
    assert!(matches!(s.handle(some, &stop), Reply::Ran(Speed::Rate { .. })));
    assert!(s.status().tick > 0);
}
