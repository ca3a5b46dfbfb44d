//! Runs, their bounds and their status.

use logigator_sim::board::{BoardBuilder, BoardDescriptor};
use logigator_sim::clock::rate;
use logigator_sim::sim::{RunConfig, Simulation};
use logigator_sim::types::{CompType, SimState};

fn blinker() -> BoardDescriptor {
    let mut b = BoardBuilder::new(2);
    b.component(CompType::UserInput, &[], &[0], &[]);
    b.component(CompType::Not, &[0], &[1], &[]);
    b.finish()
}

#[test]
fn a_not_of_a_low_input_is_high() {
    let mut sim = Simulation::from_descriptor(&blinker()).unwrap();
    sim.run(RunConfig { ticks: 1000, ..Default::default() }).unwrap();
    assert!(sim.link(1));
    let s = sim.status();
    assert_eq!((s.tick, s.link_count, s.component_count), (1000, 2, 2));
    assert_eq!(s.state, SimState::Stopped);
    assert!(!s.parallel);
}

#[test]
fn a_run_without_ticks_changes_nothing() {
    let mut sim = Simulation::from_descriptor(&blinker()).unwrap();
    sim.run(RunConfig { ticks: 0, ..Default::default() }).unwrap();
    assert_eq!(sim.tick_count(), 0);
    assert!(!sim.link(1));
}

#[test]
fn the_clock_ends_an_unbounded_run() {
    for threads in [1, 2] {
        let mut sim = Simulation::from_descriptor(&blinker()).unwrap();
        sim.run(RunConfig {
            timeout: Some(20_000_000),
            threads,
            ..Default::default()
        })
        .unwrap();
        // The clock is looked at every 1024 ticks.
        assert!(sim.tick_count() > 0);
        assert_eq!(sim.tick_count() % 1024, 0);
        assert_eq!(sim.state(), SimState::Stopped);
    }
}

#[test]
fn an_expired_time_limit_ends_a_run_at_the_first_look() {
    let mut sim = Simulation::from_descriptor(&blinker()).unwrap();
    sim.run(RunConfig { timeout: Some(0), ..Default::default() }).unwrap();
    assert_eq!(sim.tick_count(), 1024);
}

#[test]
fn stopping_a_stopped_simulation_does_nothing() {
    let mut sim = Simulation::from_descriptor(&blinker()).unwrap();
    sim.stop();
    assert_eq!(sim.state(), SimState::Stopped);
    assert_eq!(sim.state().code(), 1);
}

#[test]
fn rates_are_ticks_per_second() {
    assert_eq!(rate(4096, 1_000_000), 4_096_000);
    assert_eq!(rate(1, 2_000_000_000), 0);
    assert_eq!(rate(3, 2_000_000_000), 1);
    assert_eq!(rate(2, 0), 2_000_000_000);
}

#[test]
fn oversized_boards_are_recognised() {
    assert!(blinker().fits());
    let mut b = BoardBuilder::new(40);
    let ins: Vec<u32> = (0..36).collect();
    b.component(CompType::Ram, &ins, &[36, 37, 38, 39, 0, 1, 2, 3, 4, 5], &[]);
    assert!(b.finish().fits());
}

#[test]
fn a_run_of_more_than_a_second_measures_its_speed() {
    let mut sim = Simulation::from_descriptor(&blinker()).unwrap();
    sim.run(RunConfig { ticks: 2048, ..Default::default() }).unwrap();
    sim.run(RunConfig { timeout: Some(1_300_000_000), ..Default::default() }).unwrap();
    assert!(sim.status().speed > 0);
}
