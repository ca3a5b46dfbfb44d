//! What holds of every simulation, on examples.

use logigator_sim::binding::Cooperative;
use logigator_sim::board::{BoardBuilder, BoardDescriptor, ComponentDescriptor};
use logigator_sim::codec::{decode_board, encode_board};
use logigator_sim::scratch::splitmix64;
use logigator_sim::sim::snapshot::SnapshotConfig;
use logigator_sim::sim::{RunConfig, Simulation};
use logigator_sim::types::{CompType, InputEvent, SimState};

/// A random board of gates, adders, flip-flops, RNGs and user inputs, with loops and shared links.
fn random_board(seed: u64) -> BoardDescriptor {
    let mut x = seed;
    let mut next = |n: u64| {
        x = splitmix64(x);
        (x >> 11) % n
    };
    let links = 2 + next(23) as u32;
    let mut components = Vec::new();
    for _ in 0..1 + next(30) {
        let (ty, ins, outs) = match next(12) {
            0 => (CompType::Not, 1, 1),
            1 => (CompType::And, 2 + next(3), 1),
            2 => (CompType::Or, 2 + next(3), 1),
            3 => (CompType::Xor, 2 + next(3), 1),
            4 => (CompType::Delay, 1, 1),
            5 => (CompType::HalfAdder, 2, 2),
            6 => (CompType::FullAdder, 3, 2),
            7 => (CompType::DFf, 2, 2),
            8 => (CompType::JkFf, 3, 2),
            9 => (CompType::SrFf, 3, 2),
            10 => (CompType::Rng, 1, 1 + next(4)),
            _ => (CompType::UserInput, 0, 1 + next(3)),
        };
        let inputs: Vec<u32> = (0..ins).map(|_| next(links as u64) as u32).collect();
        let outputs: Vec<u32> = (0..outs).map(|_| next(links as u64) as u32).collect();
        let neg_inputs: Vec<u16> = (0..ins as u16).filter(|_| next(2) == 1).collect();
        let neg_outputs: Vec<u16> = (0..outs as u16).filter(|_| next(2) == 1).collect();
        components.push(ComponentDescriptor {
            ty,
            inputs,
            outputs,
            ops: vec![],
            neg_inputs,
            neg_outputs,
        });
    }
    BoardDescriptor { link_count: links, components }
}

/// Latch every user input to a pattern.
fn latch(sim: &mut Simulation, desc: &BoardDescriptor, seed: u64) {
    for (i, c) in desc.components.iter().enumerate() {
        if c.ty == CompType::UserInput {
            let w = splitmix64(seed ^ i as u64);
            let state: Vec<bool> = (0..c.outputs.len()).map(|p| (w >> p) & 1 == 1).collect();
            sim.trigger_input(i as u32, InputEvent::Cont, &state).unwrap();
        }
    }
}

/// The wired OR of the drivers of every link.
fn wired_or(sim: &Simulation, desc: &BoardDescriptor) -> Vec<bool> {
    let mut high = vec![false; desc.link_count as usize];
    for (c, comp) in desc.components.iter().enumerate() {
        for (p, &l) in comp.outputs.iter().enumerate() {
            high[l as usize] |= sim.output(c as u32, p);
        }
    }
    high
}

fn links(sim: &Simulation, n: u32) -> Vec<bool> {
    (0..n).map(|l| sim.link(l)).collect()
}

#[test]
fn links_show_the_drivers_of_the_tick_before() {
    for seed in 0..40u64 {
        let desc = random_board(seed);
        let mut sim = Simulation::from_descriptor(&desc).unwrap();
        for _ in 0..24 {
            let want = wired_or(&sim, &desc);
            sim.tick();
            assert_eq!(links(&sim, desc.link_count), want, "board {seed}");
        }
    }
}

#[test]
fn threads_make_no_difference_on_random_boards() {
    for seed in 0..8u64 {
        let desc = random_board(1000 + seed);
        let mut one = Simulation::from_descriptor(&desc).unwrap();
        let mut four = Simulation::from_descriptor(&desc).unwrap();
        latch(&mut one, &desc, seed);
        latch(&mut four, &desc, seed);
        one.run(RunConfig { ticks: 24, timeout: None, par_threshold: 1, threads: 1 }).unwrap();
        four.run(RunConfig { ticks: 24, timeout: None, par_threshold: 1, threads: 4 }).unwrap();
        assert_eq!(one.link_bytes(), four.link_bytes(), "board {seed}");
        assert_eq!(one.output_bytes(), four.output_bytes(), "board {seed}");
    }
}

#[test]
fn same_board_same_course() {
    let desc = random_board(77);
    let mut a = Simulation::from_descriptor(&desc).unwrap();
    let mut b = Simulation::from_descriptor(&desc).unwrap();
    for _ in 0..50 {
        a.tick();
        b.tick();
        assert_eq!((a.link_bytes(), a.output_bytes()), (b.link_bytes(), b.output_bytes()));
    }
}

#[test]
fn runs_add_up() {
    let desc = random_board(5);
    let mut whole = Simulation::from_descriptor(&desc).unwrap();
    let mut parts = Simulation::from_descriptor(&desc).unwrap();
    let cfg = |ticks| RunConfig { ticks, ..RunConfig::default() };
    whole.run(cfg(30)).unwrap();
    parts.run(cfg(13)).unwrap();
    parts.run(cfg(17)).unwrap();
    assert_eq!(whole.link_bytes(), parts.link_bytes());
    assert_eq!((whole.tick_count(), parts.tick_count()), (30, 30));
    assert_eq!(whole.state(), SimState::Stopped);
}

#[test]
fn cooperative_batches_add_up() {
    let desc = random_board(6);
    let mut whole = Simulation::from_descriptor(&desc).unwrap();
    let mut parts = Simulation::from_descriptor(&desc).unwrap();
    whole.run(RunConfig { ticks: 9000, ..RunConfig::default() }).unwrap();
    let mut run = Cooperative::new(9000);
    let mut batches = 0;
    while !run.finished(false, false) {
        run.batch(&mut parts, false);
        batches += 1;
    }
    assert_eq!(batches, 3);
    assert_eq!(parts.tick_count(), 9000);
    assert_eq!(whole.link_bytes(), parts.link_bytes());
    let mut stopped = Cooperative::new(10);
    stopped.batch(&mut parts, true);
    assert_eq!(parts.tick_count(), 9000);
    assert!(stopped.finished(true, false) && stopped.finished(false, true));
    assert!(!stopped.finished(false, false));
}

#[test]
fn quiet_boards_stay_quiet() {
    let mut b = BoardBuilder::new(3);
    b.component(CompType::UserInput, &[], &[0], &[]);
    b.component(CompType::Not, &[0], &[1], &[]);
    b.component(CompType::And, &[0, 1], &[2], &[]);
    let desc = b.finish();
    let mut sim = Simulation::from_descriptor(&desc).unwrap();
    sim.trigger_input(0, InputEvent::Cont, &[true]).unwrap();
    for _ in 0..6 {
        sim.tick();
    }
    let (links, outs) = (sim.link_bytes(), sim.output_bytes());
    for _ in 0..20 {
        sim.tick();
        assert_eq!((sim.link_bytes(), sim.output_bytes()), (links.clone(), outs.clone()));
    }
}

#[test]
fn latched_inputs_are_padded_with_low() {
    let mut b = BoardBuilder::new(3);
    b.component(CompType::UserInput, &[], &[0, 1, 2], &[]);
    let mut sim = Simulation::from_descriptor(&b.finish()).unwrap();
    sim.trigger_input(0, InputEvent::Cont, &[true, true, true]).unwrap();
    assert_eq!(sim.output_bytes(), [1, 1, 1]);
    sim.trigger_input(0, InputEvent::Cont, &[true]).unwrap();
    assert_eq!(sim.output_bytes(), [1, 0, 0]);
    sim.trigger_input(0, InputEvent::Cont, &[false, true, false, true, true]).unwrap();
    assert_eq!(sim.output_bytes(), [0, 1, 0]);
}

#[test]
fn a_pulse_lasts_one_tick() {
    let mut b = BoardBuilder::new(1);
    b.component(CompType::UserInput, &[], &[0], &[]);
    let mut sim = Simulation::from_descriptor(&b.finish()).unwrap();
    sim.trigger_input(0, InputEvent::Pulse, &[true]).unwrap();
    let shown: Vec<bool> = (0..5)
        .map(|_| {
            sim.tick();
            sim.link(0)
        })
        .collect();
    assert_eq!(shown, [false, true, false, false, false]);
}

#[test]
fn deltas_bring_a_reader_up_to_date() {
    for seed in 0..10u64 {
        let desc = random_board(300 + seed);
        let n = desc.link_count;
        let mut sim = Simulation::from_descriptor(&desc).unwrap();
        let cfg = SnapshotConfig { delta: true, delta_limit: Some(n as usize) };
        assert!(!sim.snapshot(cfg).is_delta);
        let mut mine = links(&sim, n);
        for step in 0..10 {
            if step == 4 {
                latch(&mut sim, &desc, seed);
            }
            for _ in 0..step {
                sim.tick();
            }
            let info = sim.snapshot(cfg);
            assert!(info.is_delta);
            assert_eq!(info.changed, sim.snapshot_ids().len());
            for (i, &l) in sim.snapshot_ids().iter().enumerate() {
                mine[l as usize] = sim.snapshot_values()[i / 8] >> (i % 8) & 1 == 1;
            }
            assert_eq!(mine, links(&sim, n), "board {seed}, step {step}");
        }
    }
}

#[test]
fn snapshots_do_not_disturb() {
    let desc = random_board(44);
    let mut watched = Simulation::from_descriptor(&desc).unwrap();
    let mut alone = Simulation::from_descriptor(&desc).unwrap();
    for t in 0..30 {
        watched.snapshot(SnapshotConfig { delta: t % 2 == 0, delta_limit: Some(100) });
        watched.tick();
        alone.tick();
        assert_eq!(watched.link_bytes(), alone.link_bytes());
    }
}

#[test]
fn plain_boards_survive_the_binary_format() {
    for seed in 0..20u64 {
        let mut desc = random_board(500 + seed);
        for c in &mut desc.components {
            c.neg_inputs.clear();
            c.neg_outputs.clear();
        }
        let bytes = encode_board(&desc);
        assert_eq!(decode_board(&bytes).unwrap(), desc);
        // Bytes behind the board are left alone, and no prefix is a board.
        let mut longer = bytes.clone();
        longer.extend_from_slice(&[1, 2, 3]);
        assert_eq!(decode_board(&longer).unwrap(), desc);
        for cut in 0..bytes.len() {
            assert!(decode_board(&bytes[..cut]).is_err(), "cut at {cut}");
        }
    }
}

#[test]
fn packed_readouts_agree() {
    let desc = random_board(91);
    let mut sim = Simulation::from_descriptor(&desc).unwrap();
    sim.run(RunConfig { ticks: 7, ..RunConfig::default() }).unwrap();
    let (words, bytes) = (sim.link_words().to_vec(), sim.link_bytes());
    assert_eq!(bytes.len(), (desc.link_count as usize + 7) / 8);
    for l in 0..desc.link_count {
        let v = sim.link(l);
        assert_eq!(words[l as usize / 64] >> (l % 64) & 1 == 1, v);
        assert_eq!(bytes[l as usize / 8] >> (l % 8) & 1 == 1, v);
    }
    let mut at = 0;
    for (c, comp) in desc.components.iter().enumerate() {
        let mut copy = vec![true; comp.outputs.len() + 1];
        sim.copy_outputs(c as u32, &mut copy);
        for p in 0..comp.outputs.len() {
            assert_eq!(sim.output_bytes()[at] == 1, sim.output(c as u32, p));
            assert_eq!(copy[p], sim.output(c as u32, p));
            at += 1;
        }
        assert!(copy[comp.outputs.len()], "past the last pin nothing is written");
    }
}

#[test]
fn negation_is_lost_in_the_binary_format() {
    let mut b = BoardBuilder::new(2);
    b.component_neg(CompType::Not, &[0], &[1], &[], &[], &[0]);
    let desc = b.finish();
    let back = decode_board(&encode_board(&desc)).unwrap();
    assert_ne!(back, desc);
    assert!(back.components[0].neg_outputs.is_empty());
}
