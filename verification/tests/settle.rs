//! How boards settle, on examples.

use logigator_sim::board::{BoardBuilder, BoardDescriptor, ComponentDescriptor};
use logigator_sim::scratch::splitmix64;
use logigator_sim::sim::Simulation;
use logigator_sim::types::{CompType, InputEvent};

/// A random board of gates and user inputs; with `loops` a gate may read any link, without them only
/// links produced before it.
fn gates(seed: u64, loops: bool) -> BoardDescriptor {
    let mut x = seed;
    let mut next = |n: u64| {
        x = splitmix64(x);
        (x >> 9) % n
    };
    let inputs = 1 + next(4) as u32;
    let count = 1 + next(20) as u32;
    let links = inputs + count;
    let mut components = Vec::new();
    for l in 0..links {
        let (ty, ins) = if l < inputs {
            (CompType::UserInput, 0)
        } else {
            match next(5) {
                0 => (CompType::Not, 1),
                1 => (CompType::Delay, 1),
                2 => (CompType::And, 2 + next(3)),
                3 => (CompType::Or, 2 + next(3)),
                _ => (CompType::Xor, 2 + next(3)),
            }
        };
        let reach = if loops { links } else { l };
        components.push(ComponentDescriptor {
            ty,
            inputs: (0..ins).map(|_| next(reach as u64) as u32).collect(),
            outputs: vec![l],
            ops: vec![],
            neg_inputs: (0..ins as u16).filter(|_| next(2) == 1).collect(),
            neg_outputs: (0..1u16).filter(|_| l >= inputs && next(2) == 1).collect(),
        });
    }
    BoardDescriptor { link_count: links, components }
}

/// What a gate should drive on the current links.
fn gate(c: &ComponentDescriptor, sim: &Simulation) -> bool {
    let ins: Vec<bool> = c
        .inputs
        .iter()
        .enumerate()
        .map(|(p, &l)| sim.link(l) != c.neg_inputs.contains(&(p as u16)))
        .collect();
    let v = match c.ty {
        CompType::Not => !ins[0],
        CompType::Delay => ins[0],
        CompType::And => ins.iter().all(|&v| v),
        CompType::Or => ins.iter().any(|&v| v),
        _ => ins.iter().filter(|&&v| v).count() % 2 == 1,
    };
    v != !c.neg_outputs.is_empty()
}

fn latch(sim: &mut Simulation, desc: &BoardDescriptor, pattern: u64) {
    for (i, c) in desc.components.iter().enumerate() {
        if c.ty == CompType::UserInput {
            sim.trigger_input(i as u32, InputEvent::Cont, &[pattern >> i & 1 == 1]).unwrap();
        }
    }
}

#[test]
fn outputs_are_up_to_date_after_every_tick() {
    for seed in 0..60u64 {
        let desc = gates(seed, true);
        let mut sim = Simulation::from_descriptor(&desc).unwrap();
        for t in 0..30u64 {
            if t % 7 == 3 {
                latch(&mut sim, &desc, splitmix64(seed ^ t));
            }
            for (c, comp) in desc.components.iter().enumerate() {
                if comp.ty != CompType::UserInput {
                    assert_eq!(
                        sim.output(c as u32, 0),
                        gate(comp, &sim),
                        "board {seed}, tick {t}, component {c}"
                    );
                }
            }
            sim.tick();
        }
    }
}

#[test]
fn boards_without_loops_settle_in_their_depth() {
    for seed in 0..60u64 {
        let desc = gates(100 + seed, false);
        let mut sim = Simulation::from_descriptor(&desc).unwrap();
        latch(&mut sim, &desc, seed);
        for _ in 0..desc.components.len() + 2 {
            sim.tick();
        }
        let rest = (sim.link_bytes(), sim.output_bytes());
        for _ in 0..10 {
            sim.tick();
            assert_eq!((sim.link_bytes(), sim.output_bytes()), rest, "board {seed}");
        }
    }
}

#[test]
fn the_inputs_determine_where_a_board_settles() {
    for seed in 0..60u64 {
        let desc = gates(500 + seed, false);
        let settle = |sim: &mut Simulation| {
            for _ in 0..desc.components.len() + 2 {
                sim.tick();
            }
        };
        let mut straight = Simulation::from_descriptor(&desc).unwrap();
        latch(&mut straight, &desc, seed);
        settle(&mut straight);
        let mut detour = Simulation::from_descriptor(&desc).unwrap();
        for step in 0..5u64 {
            latch(&mut detour, &desc, splitmix64(seed ^ step));
            for _ in 0..step {
                detour.tick();
            }
        }
        latch(&mut detour, &desc, seed);
        settle(&mut detour);
        assert_eq!(straight.link_bytes(), detour.link_bytes(), "board {seed}");
        assert_eq!(straight.output_bytes(), detour.output_bytes(), "board {seed}");
    }
}

#[test]
fn a_chain_takes_one_tick_per_gate() {
    let n = 20u32;
    let mut b = BoardBuilder::new(n + 1);
    b.component(CompType::UserInput, &[], &[0], &[]);
    for i in 0..n {
        b.component(CompType::Delay, &[i], &[i + 1], &[]);
    }
    let mut sim = Simulation::from_descriptor(&b.finish()).unwrap();
    sim.trigger_input(0, InputEvent::Cont, &[true]).unwrap();
    sim.tick();
    for i in 0..=n {
        assert!(!sim.link(i));
        sim.tick();
        assert!(sim.link(i));
    }
}
