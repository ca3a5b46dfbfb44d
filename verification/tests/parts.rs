//! The components, one by one.

use logigator_sim::board::BoardBuilder;
use logigator_sim::sim::Simulation;
use logigator_sim::types::{CompType, InputEvent};

/// A user input of `n` pins on links `0..n`, and behind it one component of the given type, whose
/// outputs drive the links after them.
fn rig(ty: CompType, ins: u32, outs: u32, ops: &[u32]) -> Simulation {
    let mut b = BoardBuilder::new(ins + outs);
    let inputs: Vec<u32> = (0..ins).collect();
    let outputs: Vec<u32> = (ins..ins + outs).collect();
    b.component(CompType::UserInput, &[], &inputs, &[]);
    b.component(ty, &inputs, &outputs, ops);
    Simulation::from_descriptor(&b.finish()).unwrap()
}

/// Latch the inputs and let them through.
fn feed(sim: &mut Simulation, values: &[u8]) {
    let state: Vec<bool> = values.iter().map(|&v| v == 1).collect();
    sim.trigger_input(0, InputEvent::Cont, &state).unwrap();
    for _ in 0..3 {
        sim.tick();
    }
}

/// What the component drives.
fn outs(sim: &Simulation, n: usize) -> Vec<u8> {
    (0..n).map(|p| sim.output(1, p) as u8).collect()
}

#[test]
fn gates_follow_their_tables() {
    let table = |ty: CompType, want: [u8; 4]| {
        let mut sim = rig(ty, 2, 1, &[]);
        for (i, w) in want.iter().enumerate() {
            feed(&mut sim, &[i as u8 & 1, i as u8 >> 1]);
            assert_eq!(outs(&sim, 1), [*w], "{ty:?} of {i}");
        }
    };
    table(CompType::And, [0, 0, 0, 1]);
    table(CompType::Or, [0, 1, 1, 1]);
    table(CompType::Xor, [0, 1, 1, 0]);
    let mut not = rig(CompType::Not, 1, 1, &[]);
    feed(&mut not, &[1]);
    assert_eq!(outs(&not, 1), [0]);
    let mut delay = rig(CompType::Delay, 1, 1, &[]);
    feed(&mut delay, &[1]);
    assert_eq!(outs(&delay, 1), [1]);
}

#[test]
fn adders_add() {
    let mut half = rig(CompType::HalfAdder, 2, 2, &[]);
    let mut full = rig(CompType::FullAdder, 3, 2, &[]);
    for i in 0..8u8 {
        let (a, b, c) = (i & 1, i >> 1 & 1, i >> 2);
        feed(&mut half, &[a, b]);
        let o = outs(&half, 2);
        assert_eq!(o[0] + 2 * o[1], a + b);
        feed(&mut full, &[a, b, c]);
        let o = outs(&full, 2);
        assert_eq!(o[0] + 2 * o[1], a + b + c);
    }
}

#[test]
fn rom_gives_its_words_lowest_bit_first() {
    // Two address bits, three outputs: 12 bits in 2 bytes, word i in bits 3i to 3i+2.
    let words = [0b101u16, 0b010, 0b111, 0b001];
    let packed = words.iter().enumerate().fold(0u16, |acc, (i, w)| acc | w << (3 * i));
    let mut sim = rig(CompType::Rom, 2, 3, &[(packed & 0xff) as u32, (packed >> 8) as u32]);
    for (i, w) in words.iter().enumerate() {
        feed(&mut sim, &[i as u8 & 1, i as u8 >> 1]);
        let o = outs(&sim, 3);
        assert_eq!(o[0] as u16 | (o[1] as u16) << 1 | (o[2] as u16) << 2, *w);
    }
}

#[test]
fn rom_without_contents_reads_low() {
    let mut sim = rig(CompType::Rom, 2, 3, &[]);
    feed(&mut sim, &[1, 1]);
    assert_eq!(outs(&sim, 3), [0, 0, 0]);
}

#[test]
fn ram_reads_back_what_was_written() {
    // One address bit, two data bits, write enable, clock.
    let mut sim = rig(CompType::Ram, 5, 2, &[]);
    let write = |sim: &mut Simulation, addr: u8, data: [u8; 2]| {
        feed(sim, &[addr, data[0], data[1], 1, 0]);
        feed(sim, &[addr, data[0], data[1], 1, 1]);
    };
    write(&mut sim, 0, [1, 0]);
    write(&mut sim, 1, [1, 1]);
    let read = |sim: &mut Simulation, addr: u8| {
        feed(sim, &[addr, 0, 0, 0, 0]);
        feed(sim, &[addr, 0, 0, 0, 1]);
        outs(sim, 2)
    };
    assert_eq!(read(&mut sim, 0), [1, 0]);
    assert_eq!(read(&mut sim, 1), [1, 1]);
    // Without a rising edge nothing is written.
    feed(&mut sim, &[0, 0, 1, 1, 0]);
    assert_eq!(read(&mut sim, 0), [1, 0]);
}

#[test]
fn d_flip_flop_takes_its_input_on_the_rising_edge() {
    let mut sim = rig(CompType::DFf, 2, 2, &[]);
    feed(&mut sim, &[1, 0]);
    assert_eq!(outs(&sim, 2), [0, 1]);
    feed(&mut sim, &[1, 1]);
    assert_eq!(outs(&sim, 2), [1, 0]);
    feed(&mut sim, &[0, 1]);
    assert_eq!(outs(&sim, 2), [1, 0], "held while the clock stays high");
    feed(&mut sim, &[0, 0]);
    assert_eq!(outs(&sim, 2), [1, 0], "held on the falling edge");
    feed(&mut sim, &[0, 1]);
    assert_eq!(outs(&sim, 2), [0, 1]);
}

#[test]
fn jk_flip_flop_sets_resets_holds_and_toggles() {
    let mut sim = rig(CompType::JkFf, 3, 2, &[]);
    let edge = |sim: &mut Simulation, j: u8, k: u8| {
        feed(sim, &[j, 0, k]);
        feed(sim, &[j, 1, k]);
        outs(sim, 2)
    };
    assert_eq!(edge(&mut sim, 1, 0), [1, 0]);
    assert_eq!(edge(&mut sim, 0, 0), [1, 0]);
    assert_eq!(edge(&mut sim, 1, 1), [0, 1]);
    assert_eq!(edge(&mut sim, 1, 1), [1, 0]);
    assert_eq!(edge(&mut sim, 0, 1), [0, 1]);
}

#[test]
fn decoder_is_one_hot_and_encoder_undoes_it() {
    let mut dec = rig(CompType::Decoder, 2, 4, &[]);
    let mut enc = rig(CompType::Encoder, 4, 2, &[]);
    for i in 0..4u8 {
        feed(&mut dec, &[i & 1, i >> 1]);
        let hot = outs(&dec, 4);
        let want: Vec<u8> = (0..4u8).map(|k| (k == i) as u8).collect();
        assert_eq!(hot, want);
        feed(&mut enc, &hot);
        assert_eq!(outs(&enc, 2), [i & 1, i >> 1]);
    }
}

#[test]
fn mux_undoes_demux() {
    // One select bit: two data inputs, or two outputs.
    let mut mux = rig(CompType::Mux, 3, 1, &[1]);
    for s in 0..2u8 {
        for v in 0..2u8 {
            feed(&mut mux, &[s, if s == 0 { v } else { 1 - v }, if s == 1 { v } else { 1 - v }]);
            assert_eq!(outs(&mux, 1), [v], "select {s}");
        }
    }
    let mut demux = rig(CompType::Demux, 2, 2, &[]);
    for s in 0..2u8 {
        feed(&mut demux, &[1, s]);
        let o = outs(&demux, 2);
        assert_eq!(o.iter().map(|&v| v as u32).sum::<u32>(), 1);
        feed(&mut mux, &[s, o[0], o[1]]);
        assert_eq!(outs(&mux, 1), [1]);
    }
}

#[test]
fn led_matrix_latches_a_row() {
    // Eight LEDs in rows of four: one address bit, four data bits, clock.
    let mut sim = rig(CompType::LedMatrix, 6, 8, &[4]);
    feed(&mut sim, &[1, 1, 0, 1, 0, 0]);
    assert_eq!(outs(&sim, 8), [0; 8]);
    feed(&mut sim, &[1, 1, 0, 1, 0, 1]);
    assert_eq!(outs(&sim, 8), [0, 0, 0, 0, 1, 0, 1, 0]);
    feed(&mut sim, &[0, 0, 1, 0, 0, 0]);
    feed(&mut sim, &[0, 0, 1, 0, 0, 1]);
    assert_eq!(outs(&sim, 8), [0, 1, 0, 0, 1, 0, 1, 0]);
}

#[test]
fn clock_goes_high_once_per_period() {
    let mut sim = rig(CompType::Clk, 1, 1, &[4]);
    let mut high = Vec::new();
    for t in 1..=24u64 {
        sim.tick();
        if sim.output(1, 0) {
            high.push(t);
        }
    }
    // Four ticks low, one high.
    assert_eq!(high, [4, 9, 14, 19, 24]);

    // A high input freezes the clock low; taking it away lets the clock run on.
    feed(&mut sim, &[1]);
    for _ in 0..20 {
        sim.tick();
        assert!(!sim.output(1, 0));
    }
    feed(&mut sim, &[0]);
    assert!((0..5).any(|_| {
        sim.tick();
        sim.output(1, 0)
    }));
}
