//! Runs on several threads.

use logigator_sim::board::BoardBuilder;
use logigator_sim::sim::{RunConfig, Simulation};
use logigator_sim::types::{CompType, InputEvent};
use rayon::ThreadPoolBuilder;

/// Share out every tick that has anything to do.
fn forced_par(threads: usize, ticks: u64) -> RunConfig {
    RunConfig {
        ticks,
        timeout: None,
        par_threshold: 1,
        threads,
    }
}

/// Gates, a link with two drivers, and a D flip-flop.
fn build() -> Simulation {
    // links: 2 = bus of two drivers, 3 = NOT(2), 4 = clock source, 5 = Q, 6 = Qbar
    let mut b = BoardBuilder::new(7);
    b.component(CompType::UserInput, &[], &[2], &[]); // driver A of link 2
    b.component(CompType::UserInput, &[], &[2], &[]); // driver B of link 2 (wired-OR)
    b.component(CompType::UserInput, &[], &[4], &[]); // clock source
    b.component(CompType::Not, &[2], &[3], &[]); // NOT off the bus
    b.component(CompType::DFf, &[3, 4], &[5, 6], &[]); // D=NOT(bus), clk=link4
    Simulation::from_descriptor(&b.finish()).unwrap()
}

/// Drive a scripted sequence and return the state it ends in.
fn drive(cfg_threads: usize) -> (Vec<u8>, Vec<u8>) {
    let mut sim = build();
    let cfg = forced_par(cfg_threads, 5);
    // A pulse train on the clock + toggling the bus drivers, re-running between scripted steps.
    for step in 0..8u32 {
        let a = step & 1 == 1;
        let bb = step & 2 == 2;
        let clk = step & 4 == 4;
        sim.trigger_input(0, InputEvent::Cont, &[a]).unwrap();
        sim.trigger_input(1, InputEvent::Cont, &[bb]).unwrap();
        sim.trigger_input(2, InputEvent::Cont, &[clk]).unwrap();
        sim.run(cfg).unwrap();
    }
    (sim.link_bytes(), sim.output_bytes())
}

#[test]
fn parallel_state_matches_single_threaded() {
    let st = drive(1);
    for threads in [2usize, 4, 8] {
        let mt = drive(threads);
        assert_eq!(st, mt, "state diverged at threads={threads}");
    }
}

/// Three delays put an oscillator on J, clock and K at the same tick, so the JK flip-flop is queued
/// three times per tick, while its toggle reads its own output.
fn jk_race_board() -> Simulation {
    let mut b = BoardBuilder::new(6);
    b.component(CompType::Not, &[0], &[0], &[]); // oscillator: link0 flips every tick
    b.component(CompType::Delay, &[0], &[1], &[]); // J  = delayed link0
    b.component(CompType::Delay, &[0], &[2], &[]); // clk = delayed link0
    b.component(CompType::Delay, &[0], &[3], &[]); // K  = delayed link0
    b.component(CompType::JkFf, &[1, 2, 3], &[4, 5], &[]); // J,clk,K → Q=link4, Qbar=link5
    Simulation::from_descriptor(&b.finish()).unwrap()
}

fn jk_state_after(ticks: u64, threads: usize) -> (Vec<u8>, Vec<u8>) {
    let mut sim = jk_race_board();
    sim.run(forced_par(threads, ticks)).unwrap();
    (sim.link_bytes(), sim.output_bytes())
}

#[test]
fn jk_self_toggle_is_race_free_under_mt() {
    // Many checkpoints so a toggle that cancels under a race shows up wherever it happens.
    for ticks in [1u64, 2, 3, 4, 7, 16, 41, 100] {
        let st = jk_state_after(ticks, 1);
        for threads in [2usize, 4, 8, 16] {
            let mt = jk_state_after(ticks, threads);
            assert_eq!(
                st, mt,
                "JK toggle diverged at ticks={ticks}, threads={threads}"
            );
        }
    }
    // Sanity: the JK actually toggles (the board isn't accidentally static).
    let q_early = jk_state_after(4, 1).1;
    let q_late = jk_state_after(6, 1).1;
    assert_ne!(
        q_early, q_late,
        "the JK toggle train should change Q over time"
    );
}

/// A gate of 300 inputs, recomputed every tick.
#[test]
fn wide_gate_st_equals_mt() {
    let n = 300u32;
    let mut b = BoardBuilder::new(3);
    b.component(CompType::Not, &[0], &[0], &[]); // oscillator: link 0 flips every tick
    b.component(CompType::Not, &[0], &[1], &[]); // link 1 = !link 0
    let inputs: Vec<u32> = (0..n).map(|i| i % 2).collect(); // 300 inputs over links 0/1
    b.component(CompType::Or, &inputs, &[2], &[]); // wide OR → link 2
    let desc = b.finish();

    let run = |threads: usize, ticks: u64| {
        let mut s = Simulation::from_descriptor(&desc).unwrap();
        s.run(forced_par(threads, ticks)).unwrap();
        (s.link_bytes(), s.output_bytes())
    };
    for ticks in [1u64, 2, 3, 7, 30] {
        let st = run(1, ticks);
        for threads in [2usize, 8] {
            assert_eq!(
                st,
                run(threads, ticks),
                "wide-gate ST≠MT at ticks={ticks}, threads={threads}"
            );
        }
    }
}

#[test]
fn status_reports_parallel_path() {
    let mut sim = build();
    sim.trigger_input(0, InputEvent::Cont, &[true]).unwrap();
    sim.run(forced_par(4, 3)).unwrap();
    assert!(
        sim.status().parallel,
        "forced-parallel run should report parallel"
    );

    sim.run(RunConfig {
        ticks: 3,
        timeout: None,
        par_threshold: 2048,
        threads: 1,
    })
    .unwrap();
    assert!(!sim.status().parallel, "threads=1 run is single-threaded");
}

/// Five inverters, each driving its own input.
fn oscillators() -> Simulation {
    let mut b = BoardBuilder::new(5);
    for l in 0..5 {
        b.component(CompType::Not, &[l], &[l], &[]);
    }
    Simulation::from_descriptor(&b.finish()).unwrap()
}

#[test]
fn ticks_are_shared_out_from_the_threshold_on() {
    let pool = ThreadPoolBuilder::new().num_threads(2).build().unwrap();
    let (mut shared, mut alone) = (oscillators(), oscillators());
    for _ in 0..4 {
        shared.tick_adaptive(&pool, 5);
        assert!(shared.status().parallel);
        alone.tick_adaptive(&pool, 6);
        assert!(!alone.status().parallel);
        assert_eq!(shared.link_bytes(), alone.link_bytes());
    }
}

#[test]
fn a_given_pool_runs_all_the_ticks() {
    let pool = ThreadPoolBuilder::new().num_threads(3).build().unwrap();
    let cfg = |par_threshold| RunConfig { ticks: 1500, timeout: None, par_threshold, threads: 3 };
    let mut sim = oscillators();
    sim.run_on(&pool, cfg(5));
    assert!(sim.status().parallel);
    assert_eq!(sim.tick_count(), 1500);
    sim.run_on(&pool, cfg(6));
    assert!(!sim.status().parallel);
    assert_eq!(sim.tick_count(), 3000);
    let mut single = oscillators();
    single.run(RunConfig { ticks: 3000, ..RunConfig::default() }).unwrap();
    assert_eq!(sim.link_bytes(), single.link_bytes());
}

#[test]
fn two_flips_of_one_link_count_twice() {
    let pool = ThreadPoolBuilder::new().num_threads(2).build().unwrap();
    let mut sim = build();
    for _ in 0..5 {
        sim.tick();
    }
    sim.trigger_input(0, InputEvent::Cont, &[true]).unwrap();
    sim.trigger_input(1, InputEvent::Cont, &[true]).unwrap();
    // The triggers are scheduled for the tick after the coming one, as two entries of one link.
    sim.tick_adaptive(&pool, 2);
    assert!(!sim.status().parallel);
    sim.tick_adaptive(&pool, 2);
    assert!(sim.status().parallel);
}
