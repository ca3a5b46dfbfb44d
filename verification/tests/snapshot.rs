//! Snapshots.

use logigator_sim::board::BoardBuilder;
use logigator_sim::sim::snapshot::SnapshotConfig;
use logigator_sim::sim::Simulation;
use logigator_sim::types::{CompType, InputEvent};

/// Two user inputs, each with a NOT behind it.
fn two_not_chain() -> Simulation {
    // links: 0 = inA, 1 = NOT(A); 2 = inB, 3 = NOT(B)
    let mut b = BoardBuilder::new(4);
    let a = b.component(CompType::UserInput, &[], &[0], &[]);
    b.component(CompType::Not, &[0], &[1], &[]);
    let bb = b.component(CompType::UserInput, &[], &[2], &[]);
    b.component(CompType::Not, &[2], &[3], &[]);
    assert_eq!((a, bb), (0, 2));
    Simulation::from_descriptor(&b.finish()).unwrap()
}

fn request(delta: bool, threshold: f32) -> SnapshotConfig {
    SnapshotConfig {
        delta,
        delta_limit: Some((threshold * 4.0) as usize),
    }
}

fn delta_cfg() -> SnapshotConfig {
    request(true, 1.0) // never fall back on size; tests drive the fallback explicitly
}

#[test]
fn first_poll_is_always_full() {
    let mut sim = two_not_chain();
    sim.tick(); // some links flip (NOT seeds settle)
    let info = sim.snapshot(delta_cfg());
    assert!(
        !info.is_delta,
        "first poll must be Full to seed the baseline"
    );
    assert_eq!(info.changed, sim.status().link_count as usize);
}

#[test]
fn delta_reports_only_changes_since_last_poll() {
    let mut sim = two_not_chain();
    // Settle init: NOT(A), NOT(B) go high (inputs low → NOT output high).
    for _ in 0..3 {
        sim.tick();
    }
    let base = sim.snapshot(delta_cfg());
    assert!(!base.is_delta);

    // Drive A high → NOT(A) (link 1) goes low; link 0 also flips high. Link 2/3 untouched.
    sim.trigger_input(0, InputEvent::Cont, &[true]).unwrap();
    for _ in 0..3 {
        sim.tick();
    }
    let d = sim.snapshot(delta_cfg());
    assert!(d.is_delta, "a small change set after a baseline is a Delta");

    let ids = sim.snapshot_ids().to_vec();
    assert!(ids.contains(&0), "link 0 (inA) flipped high");
    assert!(ids.contains(&1), "link 1 (NOT A) flipped low");
    assert!(!ids.contains(&2) && !ids.contains(&3), "B side untouched");

    // Values pair index-wise with ids and reflect the live link_state.
    for (i, &l) in ids.iter().enumerate() {
        let bit = (sim.snapshot_values()[i >> 3] >> (i & 7)) & 1 == 1;
        assert_eq!(bit, sim.link(l), "delta value for link {l}");
    }
}

#[test]
fn delta_dedups_and_carries_settled_value() {
    let mut sim = two_not_chain();
    for _ in 0..3 {
        sim.tick();
    }
    sim.snapshot(delta_cfg()); // baseline

    // Link 0 goes 0→1 and back 1→0 within the window.
    sim.trigger_input(0, InputEvent::Cont, &[true]).unwrap();
    sim.tick();
    sim.tick();
    sim.trigger_input(0, InputEvent::Cont, &[false]).unwrap();
    for _ in 0..3 {
        sim.tick();
    }
    let d = sim.snapshot(delta_cfg());
    // Whatever ids report, none may be listed twice.
    let ids = sim.snapshot_ids();
    let mut sorted = ids.to_vec();
    sorted.sort_unstable();
    sorted.dedup();
    assert_eq!(
        sorted.len(),
        ids.len(),
        "no link id appears twice in a delta"
    );
    assert!(d.is_delta);
}

#[test]
fn threshold_overflow_falls_back_to_full() {
    let mut sim = two_not_chain();
    for _ in 0..3 {
        sim.tick();
    }
    sim.snapshot(delta_cfg()); // baseline

    // Flip both sides (≥3 of 4 links change), with a threshold of 0.1 → fall back to Full.
    sim.trigger_input(0, InputEvent::Cont, &[true]).unwrap();
    sim.trigger_input(2, InputEvent::Cont, &[true]).unwrap();
    for _ in 0..3 {
        sim.tick();
    }
    let info = sim.snapshot(request(true, 0.1));
    assert!(
        !info.is_delta,
        "over-threshold change set falls back to Full"
    );
    assert_eq!(info.changed, sim.status().link_count as usize);
}

#[test]
fn full_request_never_delta() {
    let mut sim = two_not_chain();
    for _ in 0..3 {
        sim.tick();
    }
    let cfg = request(false, 1.0);
    assert!(!sim.snapshot(cfg).is_delta);
    sim.trigger_input(0, InputEvent::Cont, &[true]).unwrap();
    sim.tick();
    assert!(!sim.snapshot(cfg).is_delta);
}

#[test]
fn a_delta_carries_an_eighth_of_the_links_by_default() {
    // Sixteen links, each driven by a user input.
    let mut b = BoardBuilder::new(16);
    for l in 0..16 {
        b.component(CompType::UserInput, &[], &[l], &[]);
    }
    let mut sim = Simulation::from_descriptor(&b.finish()).unwrap();
    let default = SnapshotConfig::default();
    assert!(!default.delta);
    assert!(!sim.snapshot(default).is_delta);
    let cfg = SnapshotConfig { delta: true, ..default };
    let flip = |sim: &mut Simulation, n: u32, v: bool| {
        for c in 0..n {
            sim.trigger_input(c, InputEvent::Cont, &[v]).unwrap();
        }
        sim.tick();
        sim.tick();
    };
    flip(&mut sim, 2, true);
    let two = sim.snapshot(cfg);
    assert_eq!((two.is_delta, two.changed), (true, 2));
    assert_eq!(sim.snapshot_ids().len(), 2);
    flip(&mut sim, 3, true);
    flip(&mut sim, 2, false);
    let three = sim.snapshot(cfg);
    assert_eq!((three.is_delta, three.changed), (false, 16));
}
