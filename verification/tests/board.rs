//! Compiling board descriptions.

use logigator_sim::board::{Board, BoardBuilder, BoardDescriptor};
use logigator_sim::error::SimError;
use logigator_sim::types::CompType;

/// Two NOTs feeding an AND.
fn sample() -> BoardDescriptor {
    let mut b = BoardBuilder::new(5);
    b.component(CompType::Not, &[0], &[1], &[]);
    b.component(CompType::Not, &[3], &[2], &[]);
    b.component(CompType::And, &[1, 2], &[4], &[]);
    b.finish()
}

#[test]
fn compiles_csr_shapes() {
    let board = Board::compile(&sample()).unwrap();
    assert_eq!(board.link_count(), 5);
    assert_eq!(board.component_count(), 3);
    assert_eq!(board.output_count, 3);
    // AND (comp 2) inputs are links 1 and 2.
    assert_eq!(
        &board.comp_inputs[board.comp_in_off[2] as usize..board.comp_in_off[3] as usize],
        &[1, 2]
    );
    // output ids: comp0 -> oid0 (link1), comp1 -> oid1 (link2), comp2 -> oid2 (link4)
    assert_eq!(board.output_ids(0), 0..1);
    assert_eq!(board.output_link[0], 1);
    assert_eq!(board.output_link[2], 4);
    // link 1 is consumed by the AND (comp 2); link 0 by NOT (comp 0); link 4 by no one.
    assert_eq!(board.link_consumers(1), &[2]);
    assert_eq!(board.link_consumers(0), &[0]);
    assert_eq!(board.link_consumers(4), &[] as &[u32]);
}

#[test]
fn rejects_link_out_of_range() {
    let mut b = BoardBuilder::new(2);
    b.component(CompType::Not, &[5], &[1], &[]); // link 5 >= 2
    let err = Board::compile(&b.finish()).unwrap_err();
    assert!(matches!(
        err,
        SimError::LinkOutOfRange {
            idx: 0,
            link: 5,
            count: 2
        }
    ));
}

#[test]
fn rejects_bad_arity() {
    let mut b = BoardBuilder::new(3);
    b.component(CompType::Not, &[0, 1], &[2], &[]); // NOT takes exactly 1 input
    let err = Board::compile(&b.finish()).unwrap_err();
    assert!(matches!(
        err,
        SimError::BadArity {
            idx: 0,
            ty: CompType::Not,
            ins: 2,
            ..
        }
    ));
}
