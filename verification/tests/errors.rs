//! Every error, with its message.

use logigator_sim::board::{Board, BoardBuilder};
use logigator_sim::codec::{decode_board, encode_board};
use logigator_sim::error::{PinKind, SimError};
use logigator_sim::sim::Simulation;
use logigator_sim::types::{CompType, InputEvent};

#[test]
fn unknown_type_id_is_named() {
    let err = CompType::try_from(7u16).unwrap_err();
    assert!(matches!(err, SimError::UnknownComponentType(7)));
    assert_eq!(err.message(), "unknown component type id 7");
}

#[test]
fn link_out_of_range_is_named() {
    let mut b = BoardBuilder::new(2);
    b.component(CompType::Not, &[0], &[1], &[]);
    b.component(CompType::Not, &[1], &[5], &[]);
    let err = Board::compile(&b.finish()).unwrap_err();
    assert_eq!(err.message(), "component 1: link id 5 out of range (link_count=2)");
}

#[test]
fn inputs_are_checked_before_outputs() {
    let mut b = BoardBuilder::new(2);
    b.component(CompType::Not, &[7], &[9], &[]);
    let err = Board::compile(&b.finish()).unwrap_err();
    assert!(matches!(err, SimError::LinkOutOfRange { idx: 0, link: 7, count: 2 }));
}

#[test]
fn bad_arity_is_named() {
    let mut b = BoardBuilder::new(3);
    b.component(CompType::Not, &[0, 1], &[2], &[]);
    let err = Board::compile(&b.finish()).unwrap_err();
    assert_eq!(err.message(), "component 0 (Not): bad arity in=2 out=1 ops=0");
}

#[test]
fn negated_pin_out_of_range_is_named() {
    let mut b = BoardBuilder::new(2);
    b.component_neg(CompType::Not, &[0], &[1], &[], &[3], &[]);
    let err = Board::compile(&b.finish()).unwrap_err();
    assert!(matches!(
        err,
        SimError::NegateOutOfRange { idx: 0, pin_kind: PinKind::Input, pin: 3, count: 1 }
    ));
    assert_eq!(err.message(), "component 0: negated input index 3 out of range (count=1)");

    let mut b = BoardBuilder::new(2);
    b.component_neg(CompType::Not, &[0], &[1], &[], &[0], &[1]);
    let err = Board::compile(&b.finish()).unwrap_err();
    assert_eq!(err.message(), "component 0: negated output index 1 out of range (count=1)");
}

#[test]
fn trigger_on_another_component_is_named() {
    let mut b = BoardBuilder::new(2);
    b.component(CompType::Not, &[0], &[1], &[]);
    let mut sim = Simulation::from_descriptor(&b.finish()).unwrap();
    let before = sim.output_bytes();
    let err = sim.trigger_input(0, InputEvent::Pulse, &[true]).unwrap_err();
    assert!(matches!(err, SimError::NotAnInput(0)));
    assert_eq!(err.message(), "component 0 is not a user-input component");
    let err = sim.trigger_input(9, InputEvent::Cont, &[true]).unwrap_err();
    assert_eq!(err.message(), "component 9 is not a user-input component");
    assert_eq!(sim.output_bytes(), before);
}

#[test]
fn malformed_binaries_are_named() {
    let mut b = BoardBuilder::new(2);
    b.component(CompType::Not, &[0], &[1], &[]);
    let good = encode_board(&b.finish());
    let why = |bytes: &[u8]| decode_board(bytes).unwrap_err().message();

    let mut bytes = good.clone();
    bytes[0] ^= 0xFF;
    assert_eq!(
        why(&bytes),
        "malformed .lgb binary: bad magic 0x4C4742CE (expected 0x4C474231)"
    );
    let mut bytes = good.clone();
    bytes[4] = 2;
    assert_eq!(
        why(&bytes),
        "malformed .lgb binary: unsupported version 2 (this build reads 1)"
    );
    assert_eq!(
        why(&good[..10]),
        "malformed .lgb binary: truncated: need 4 bytes at offset 8 but only 2 remain"
    );
    // A count far beyond the file is an error, not an allocation.
    let mut bytes = good.clone();
    bytes[20..24].copy_from_slice(&u32::MAX.to_le_bytes());
    assert_eq!(
        why(&bytes),
        "malformed .lgb binary: truncated: need 17179869180 bytes at offset 32 but only 8 remain"
    );
    let mut bytes = good;
    bytes[16] = 9;
    assert_eq!(why(&bytes), "unknown component type id 9");
}

#[test]
fn thread_pool_failure_is_named() {
    let err = SimError::ThreadPool("no threads".to_string());
    assert_eq!(err.message(), "cannot build the thread pool: no threads");
}

#[test]
fn parameters_are_checked() {
    let compile = |ty, ins: &[u32], outs: &[u32], ops: &[u32]| {
        let mut b = BoardBuilder::new(8);
        b.component(ty, ins, outs, ops);
        Board::compile(&b.finish()).is_ok()
    };
    assert!(compile(CompType::Clk, &[0], &[1], &[1]));
    assert!(!compile(CompType::Clk, &[0], &[1], &[0]), "a period of zero");
    assert!(compile(CompType::Decoder, &[0, 1], &[2, 3, 4, 5], &[]));
    assert!(!compile(CompType::Decoder, &[0, 1], &[2, 3, 4], &[]));
    assert!(compile(CompType::Encoder, &[0, 1, 2, 3], &[4, 5], &[]));
    assert!(!compile(CompType::Encoder, &[0, 1, 2], &[4, 5], &[]));
    assert!(compile(CompType::Mux, &[0, 1, 2], &[3], &[1]));
    assert!(!compile(CompType::Mux, &[0, 1, 2], &[3], &[2]));
    assert!(compile(CompType::Demux, &[0, 1], &[2, 3], &[]));
    assert!(!compile(CompType::Demux, &[0, 1], &[2, 3, 4], &[]));
    assert!(compile(CompType::Ram, &[0, 1, 2, 3], &[4], &[]));
    assert!(!compile(CompType::Ram, &[0, 1], &[4], &[]));
    assert!(!compile(CompType::LedMatrix, &[0, 1, 2, 3, 4], &[5, 6, 7], &[4]));
    assert!(compile(CompType::LedMatrix, &[0, 1, 2, 3, 4], &[4, 5, 6, 7], &[4]));
}
