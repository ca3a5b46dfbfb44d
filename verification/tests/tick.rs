//! The tick loop.

use logigator_sim::board::BoardBuilder;
use logigator_sim::sim::Simulation;
use logigator_sim::types::{CompType, InputEvent};

#[test]
fn not_output_seeds_and_appears_after_tick_1() {
    let mut b = BoardBuilder::new(2);
    b.component(CompType::Not, &[0], &[1], &[]); // in: link0, out: link1
    let mut sim = Simulation::from_descriptor(&b.finish()).unwrap();

    // t0: pin seeded high, link still low (no read phase ran during the prime).
    assert!(
        sim.output(0, 0),
        "NOT output pin should be seeded high at init"
    );
    assert!(!sim.link(1), "NOT link must still be low before tick 1");

    sim.tick();
    assert!(sim.link(1), "NOT link must be high after tick 1");
}

#[test]
fn cont_input_link_appears_after_tick_2() {
    let mut b = BoardBuilder::new(1);
    b.component(CompType::UserInput, &[], &[0], &[]);
    let mut sim = Simulation::from_descriptor(&b.finish()).unwrap();
    sim.trigger_input(0, InputEvent::Cont, &[true]).unwrap();

    assert!(!sim.link(0), "t0: not yet visible");
    sim.tick();
    assert!(!sim.link(0), "t1: still in flight (one swap behind)");
    sim.tick();
    assert!(sim.link(0), "t2: now visible");
}

#[test]
fn wired_or_two_drivers() {
    let mut b = BoardBuilder::new(1);
    let a = b.component(CompType::UserInput, &[], &[0], &[]);
    let c = b.component(CompType::UserInput, &[], &[0], &[]); // both drive link 0
    let mut sim = Simulation::from_descriptor(&b.finish()).unwrap();

    let settle = |s: &mut Simulation| (0..3).for_each(|_| s.tick());

    sim.trigger_input(a, InputEvent::Cont, &[true]).unwrap();
    sim.trigger_input(c, InputEvent::Cont, &[true]).unwrap();
    settle(&mut sim);
    assert!(sim.link(0), "both drivers high → powered");

    sim.trigger_input(a, InputEvent::Cont, &[false]).unwrap();
    settle(&mut sim);
    assert!(
        sim.link(0),
        "one driver still high → still powered (count 2→1)"
    );

    sim.trigger_input(c, InputEvent::Cont, &[false]).unwrap();
    settle(&mut sim);
    assert!(!sim.link(0), "both low → unpowered (count 1→0)");
}

#[test]
fn wired_or_handoff_within_one_tick_no_glitch() {
    let mut b = BoardBuilder::new(1);
    let a = b.component(CompType::UserInput, &[], &[0], &[]);
    let c = b.component(CompType::UserInput, &[], &[0], &[]);
    let mut sim = Simulation::from_descriptor(&b.finish()).unwrap();

    sim.trigger_input(a, InputEvent::Cont, &[true]).unwrap();
    (0..3).for_each(|_| sim.tick());
    assert!(sim.link(0), "driver a powers the link");

    // Both writes land before the same read boundary: the driver count dips 1→0→1.
    sim.trigger_input(a, InputEvent::Cont, &[false]).unwrap();
    sim.trigger_input(c, InputEvent::Cont, &[true]).unwrap();
    for _ in 0..3 {
        sim.tick();
        assert!(sim.link(0), "handoff must not glitch the link low");
    }
}

#[test]
fn link_up_and_back_down_in_one_tick_no_flip() {
    let mut b = BoardBuilder::new(2);
    let a = b.component(CompType::UserInput, &[], &[0], &[]);
    let c = b.component(CompType::UserInput, &[], &[0], &[]);
    b.component(CompType::Not, &[0], &[1], &[]); // observer: recomputes only if link 0 flips
    let mut sim = Simulation::from_descriptor(&b.finish()).unwrap();
    (0..2).for_each(|_| sim.tick());
    assert!(sim.link(1), "NOT of the low link settles high");

    sim.trigger_input(a, InputEvent::Cont, &[true]).unwrap();
    sim.trigger_input(c, InputEvent::Cont, &[true]).unwrap();
    sim.trigger_input(a, InputEvent::Cont, &[false]).unwrap();
    sim.trigger_input(c, InputEvent::Cont, &[false]).unwrap();
    for _ in 0..3 {
        sim.tick();
        assert!(!sim.link(0), "net value never changed");
        assert!(sim.link(1), "consumer saw no flip");
    }
}

#[test]
fn two_links_in_one_word_flip_same_tick() {
    let mut b = BoardBuilder::new(5);
    let src = b.component(CompType::UserInput, &[], &[1, 2], &[]); // links 1, 2: word 0
    b.component(CompType::Not, &[1], &[3], &[]);
    b.component(CompType::Not, &[2], &[4], &[]);
    let mut sim = Simulation::from_descriptor(&b.finish()).unwrap();
    (0..2).for_each(|_| sim.tick());
    assert!(sim.link(3) && sim.link(4), "NOTs settle high on low inputs");

    sim.trigger_input(src, InputEvent::Cont, &[true, true])
        .unwrap();
    (0..3).for_each(|_| sim.tick());
    assert!(sim.link(1) && sim.link(2), "both inputs flipped high");
    assert!(
        !sim.link(3) && !sim.link(4),
        "both consumers recomputed off the same-word flips"
    );
}

#[test]
fn links_at_word_boundary_propagate() {
    let mut b = BoardBuilder::new(66);
    let src = b.component(CompType::UserInput, &[], &[63], &[]);
    b.component(CompType::Not, &[63], &[64], &[]);
    b.component(CompType::Not, &[64], &[65], &[]);
    let mut sim = Simulation::from_descriptor(&b.finish()).unwrap();
    (0..3).for_each(|_| sim.tick());
    assert!(!sim.link(63) && sim.link(64) && !sim.link(65), "settled");

    sim.trigger_input(src, InputEvent::Cont, &[true]).unwrap();
    (0..4).for_each(|_| sim.tick());
    assert!(sim.link(63), "driven across the boundary");
    assert!(!sim.link(64), "first NOT follows");
    assert!(sim.link(65), "second NOT follows");
}

#[test]
fn pulse_is_one_shot() {
    let mut b = BoardBuilder::new(1);
    b.component(CompType::UserInput, &[], &[0], &[]);
    let mut sim = Simulation::from_descriptor(&b.finish()).unwrap();
    sim.trigger_input(0, InputEvent::Pulse, &[true]).unwrap();

    // The between-tick handler asserts on the first tick (lands in write_buf), the read phase
    // makes it visible on the next, and the following between-tick clears it.
    let mut seen_high = false;
    let mut seen_low_after = false;
    for _ in 0..6 {
        sim.tick();
        if sim.link(0) {
            seen_high = true;
        } else if seen_high {
            seen_low_after = true;
        }
    }
    assert!(seen_high, "pulse must drive the link high for a tick");
    assert!(seen_low_after, "pulse must auto-clear");
}

#[test]
fn trigger_rejects_non_input() {
    let mut b = BoardBuilder::new(2);
    b.component(CompType::Not, &[0], &[1], &[]);
    let mut sim = Simulation::from_descriptor(&b.finish()).unwrap();
    assert!(sim.trigger_input(0, InputEvent::Cont, &[true]).is_err());
}
