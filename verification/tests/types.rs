//! Wire ids.

use logigator_sim::types::{CompType, InputEvent};

#[test]
fn frozen_ids() {
    assert_eq!(CompType::Not.id(), 1);
    assert_eq!(CompType::And.id(), 2);
    assert_eq!(CompType::Or.id(), 3);
    assert_eq!(CompType::Xor.id(), 4);
    assert_eq!(CompType::Delay.id(), 5);
    assert_eq!(CompType::HalfAdder.id(), 10);
    assert_eq!(CompType::FullAdder.id(), 11);
    assert_eq!(CompType::UserInput.id(), 200);
    assert_eq!(CompType::LedMatrix.id(), 204);
}

#[test]
fn user_input_range_maps_to_user_input() {
    for v in [200u16, 201, 250, 299] {
        assert_eq!(CompType::try_from_u16(v), Some(CompType::UserInput));
    }
    // 204 is the LED matrix — kept distinct from the UserInput range.
    assert_eq!(CompType::try_from_u16(204), Some(CompType::LedMatrix));
    // out of the range
    assert_eq!(CompType::try_from_u16(300), None);
}

#[test]
fn reserved_unimplemented_ids_rejected() {
    // Ids without a component type.
    for v in [0u16, 7, 8, 9, 22, 300] {
        assert_eq!(CompType::try_from_u16(v), None);
    }
}

#[test]
fn input_event_from_u8() {
    assert_eq!(InputEvent::try_from(0u8), Ok(InputEvent::Cont));
    assert_eq!(InputEvent::try_from(1u8), Ok(InputEvent::Pulse));
    assert_eq!(InputEvent::try_from(2u8), Err(2));
}
