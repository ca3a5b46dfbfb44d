//! Wire contracts shared by every surface of the simulator.
//!
//! Editors and saved boards address component types by these numeric ids, so the ids are frozen.

use vstd::prelude::*;
use crate::error::SimError;

verus! {

/// Lifecycle of a simulation.
#[derive(Clone, Copy, PartialEq, Eq, Debug, Structural)]
pub enum SimState {
    Uninitialized,
    Stopped,
    Running,
    Stopping,
}

impl SimState {
    /// The numeric value of a state at a binding boundary.
    pub open spec fn number(self) -> u8 {
        match self {
            SimState::Uninitialized => 0,
            SimState::Stopped => 1,
            SimState::Running => 2,
            SimState::Stopping => 3,
        }
    }

    /// The state as the small integer that crosses a binding boundary.
    pub fn code(self) -> (r: u8)
        ensures
            r == self.number(),
    {
        match self {
            SimState::Uninitialized => 0,
            SimState::Stopped => 1,
            SimState::Running => 2,
            SimState::Stopping => 3,
        }
    }
}

/// How a `trigger_input` payload is applied to a `UserInput` component.
///
/// `Cont` latches the outputs until changed; `Pulse` asserts them for exactly one tick and then
/// clears them.
#[derive(Clone, Copy, PartialEq, Eq, Debug, Structural)]
pub enum InputEvent {
    /// Set and hold.
    Cont,
    /// One-tick pulse.
    Pulse,
}

impl InputEvent {
    /// The event a wire number stands for; `Err` hands the unknown number back.
    pub open spec fn of_number(v: u8) -> Result<InputEvent, u8> {
        if v == 0 {
            Ok(InputEvent::Cont)
        } else if v == 1 {
            Ok(InputEvent::Pulse)
        } else {
            Err(v)
        }
    }
}

impl TryFrom<u8> for InputEvent {
    type Error = u8;

    fn try_from(v: u8) -> (r: Result<Self, u8>) {
        match v {
            0 => Ok(InputEvent::Cont),
            1 => Ok(InputEvent::Pulse),
            other => Err(other),
        }
    }
}

impl vstd::std_specs::convert::TryFromSpecImpl<u8> for InputEvent {
    open spec fn obeys_try_from_spec() -> bool {
        true
    }

    open spec fn try_from_spec(v: u8) -> Result<Self, u8> {
        InputEvent::of_number(v)
    }
}

/// The component types, addressed on the wire by a frozen numeric id.
#[derive(Clone, Copy, PartialEq, Eq, Debug, Hash, Structural)]
pub enum CompType {
    Not,
    And,
    Or,
    Xor,
    Delay,
    Clk,
    HalfAdder,
    FullAdder,
    Rom,
    DFf,
    JkFf,
    SrFf,
    Rng,
    Ram,
    Decoder,
    Encoder,
    Mux,
    Demux,
    UserInput,
    LedMatrix,
}

impl CompType {
    /// The frozen wire id of a type.
    pub open spec fn number(self) -> u16 {
        match self {
            CompType::Not => 1,
            CompType::And => 2,
            CompType::Or => 3,
            CompType::Xor => 4,
            CompType::Delay => 5,
            CompType::Clk => 6,
            CompType::HalfAdder => 10,
            CompType::FullAdder => 11,
            CompType::Rom => 12,
            CompType::DFf => 13,
            CompType::JkFf => 14,
            CompType::SrFf => 15,
            CompType::Rng => 16,
            CompType::Ram => 17,
            CompType::Decoder => 18,
            CompType::Encoder => 19,
            CompType::Mux => 20,
            CompType::Demux => 21,
            CompType::UserInput => 200,
            CompType::LedMatrix => 204,
        }
    }

    /// The type a wire id stands for. Every id in `200..=299` except the LED matrix's own is a
    /// user input; ids without a component are `None`.
    pub open spec fn of_number(v: u16) -> Option<CompType> {
        if v == 204 {
            Some(CompType::LedMatrix)
        } else if 200 <= v <= 299 {
            Some(CompType::UserInput)
        } else if exists|t: CompType| #[trigger] t.number() == v {
            Some(choose|t: CompType| #[trigger] t.number() == v)
        } else {
            None
        }
    }

    /// The frozen wire id.
    pub fn id(self) -> (r: u16)
        ensures
            r == self.number(),
    {
        match self {
            CompType::Not => 1,
            CompType::And => 2,
            CompType::Or => 3,
            CompType::Xor => 4,
            CompType::Delay => 5,
            CompType::Clk => 6,
            CompType::HalfAdder => 10,
            CompType::FullAdder => 11,
            CompType::Rom => 12,
            CompType::DFf => 13,
            CompType::JkFf => 14,
            CompType::SrFf => 15,
            CompType::Rng => 16,
            CompType::Ram => 17,
            CompType::Decoder => 18,
            CompType::Encoder => 19,
            CompType::Mux => 20,
            CompType::Demux => 21,
            CompType::UserInput => 200,
            CompType::LedMatrix => 204,
        }
    }

    /// Map a wire id to a component type.
    pub fn try_from_u16(v: u16) -> (r: Option<Self>)
        ensures
            r == CompType::of_number(v),
    {
        let r = match v {
            1 => Some(CompType::Not),
            2 => Some(CompType::And),
            3 => Some(CompType::Or),
            4 => Some(CompType::Xor),
            5 => Some(CompType::Delay),
            6 => Some(CompType::Clk),
            10 => Some(CompType::HalfAdder),
            11 => Some(CompType::FullAdder),
            12 => Some(CompType::Rom),
            13 => Some(CompType::DFf),
            14 => Some(CompType::JkFf),
            15 => Some(CompType::SrFf),
            16 => Some(CompType::Rng),
            17 => Some(CompType::Ram),
            18 => Some(CompType::Decoder),
            19 => Some(CompType::Encoder),
            20 => Some(CompType::Mux),
            21 => Some(CompType::Demux),
            204 => Some(CompType::LedMatrix),
            200..=299 => Some(CompType::UserInput),
            _ => None,
        };
        proof {
            if let Some(t) = r {
                if t != CompType::UserInput {
                    law_ids_are_distinct(t);
                    assert(t.number() == v);
                }
            } else {
                assert(forall|t: CompType| #[trigger] t.number() != v);
            }
        }
        r
    }
}

/// No two component types share a wire id.
pub proof fn law_ids_are_distinct(t: CompType)
    ensures
        forall|u: CompType| #[trigger] u.number() == t.number() ==> u == t,
{
}

/// The wire ids are frozen: the gates are 1 to 6 with the clock, the adders 10 and 11, then ROM,
/// flip-flops, random source, RAM and selectors from 12 to 21; a user input writes 200 and a LED
/// matrix 204.
pub proof fn law_wire_ids_are_frozen()
    ensures
        CompType::Not.number() == 1,
        CompType::And.number() == 2,
        CompType::Or.number() == 3,
        CompType::Xor.number() == 4,
        CompType::Delay.number() == 5,
        CompType::Clk.number() == 6,
        CompType::HalfAdder.number() == 10,
        CompType::FullAdder.number() == 11,
        CompType::Rom.number() == 12,
        CompType::DFf.number() == 13,
        CompType::JkFf.number() == 14,
        CompType::SrFf.number() == 15,
        CompType::Rng.number() == 16,
        CompType::Ram.number() == 17,
        CompType::Decoder.number() == 18,
        CompType::Encoder.number() == 19,
        CompType::Mux.number() == 20,
        CompType::Demux.number() == 21,
        CompType::UserInput.number() == 200,
        CompType::LedMatrix.number() == 204,
{
}

/// What a number read from a file or a binding stands for: 1 to 6, 10 to 21 and 204 are the types in
/// the order of their declaration, any other number from 200 to 299 is a user input, and the rest are
/// nothing.
pub proof fn law_wire_ids_are_read_as_frozen(v: u16)
    ensures
        CompType::of_number(v) is Some <==> 1 <= v <= 6 || 10 <= v <= 21 || 200 <= v <= 299,
        CompType::of_number(v) == Some(CompType::UserInput) <==> 200 <= v <= 299 && v != 204,
        CompType::of_number(v) matches Some(t) ==> t == CompType::UserInput || t.number() == v,
        CompType::of_number(1) == Some(CompType::Not),
        CompType::of_number(2) == Some(CompType::And),
        CompType::of_number(3) == Some(CompType::Or),
        CompType::of_number(4) == Some(CompType::Xor),
        CompType::of_number(5) == Some(CompType::Delay),
        CompType::of_number(6) == Some(CompType::Clk),
        CompType::of_number(10) == Some(CompType::HalfAdder),
        CompType::of_number(11) == Some(CompType::FullAdder),
        CompType::of_number(12) == Some(CompType::Rom),
        CompType::of_number(13) == Some(CompType::DFf),
        CompType::of_number(14) == Some(CompType::JkFf),
        CompType::of_number(15) == Some(CompType::SrFf),
        CompType::of_number(16) == Some(CompType::Rng),
        CompType::of_number(17) == Some(CompType::Ram),
        CompType::of_number(18) == Some(CompType::Decoder),
        CompType::of_number(19) == Some(CompType::Encoder),
        CompType::of_number(20) == Some(CompType::Mux),
        CompType::of_number(21) == Some(CompType::Demux),
        CompType::of_number(204) == Some(CompType::LedMatrix),
{
    law_id_round_trips(CompType::Not);
    law_id_round_trips(CompType::And);
    law_id_round_trips(CompType::Or);
    law_id_round_trips(CompType::Xor);
    law_id_round_trips(CompType::Delay);
    law_id_round_trips(CompType::Clk);
    law_id_round_trips(CompType::HalfAdder);
    law_id_round_trips(CompType::FullAdder);
    law_id_round_trips(CompType::Rom);
    law_id_round_trips(CompType::DFf);
    law_id_round_trips(CompType::JkFf);
    law_id_round_trips(CompType::SrFf);
    law_id_round_trips(CompType::Rng);
    law_id_round_trips(CompType::Ram);
    law_id_round_trips(CompType::Decoder);
    law_id_round_trips(CompType::Encoder);
    law_id_round_trips(CompType::Mux);
    law_id_round_trips(CompType::Demux);
    law_id_round_trips(CompType::LedMatrix);
    if !(1 <= v <= 6 || 10 <= v <= 21 || 200 <= v <= 299) {
        assert(forall|t: CompType| #[trigger] t.number() != v);
    }
}

/// The numbers of the lifecycle states and of the events that cross a binding boundary.
pub proof fn law_binding_numbers_are_frozen(v: u8)
    ensures
        SimState::Uninitialized.number() == 0,
        SimState::Stopped.number() == 1,
        SimState::Running.number() == 2,
        SimState::Stopping.number() == 3,
        InputEvent::of_number(v) == Ok::<InputEvent, u8>(InputEvent::Cont) <==> v == 0,
        InputEvent::of_number(v) == Ok::<InputEvent, u8>(InputEvent::Pulse) <==> v == 1,
        InputEvent::of_number(v) == Err::<InputEvent, u8>(v) <==> v > 1,
{
}

/// A type's own id maps back to the type.
pub proof fn law_id_round_trips(t: CompType)
    ensures
        CompType::of_number(t.number()) == Some(t),
{
    law_ids_are_distinct(t);
}

impl From<CompType> for u16 {
    fn from(t: CompType) -> (r: u16) {
        t.id()
    }
}

impl vstd::std_specs::convert::FromSpecImpl<CompType> for u16 {
    open spec fn obeys_from_spec() -> bool {
        true
    }

    open spec fn from_spec(t: CompType) -> u16 {
        t.number()
    }
}

impl TryFrom<u16> for CompType {
    type Error = SimError;

    fn try_from(v: u16) -> (r: Result<Self, SimError>) {
        match CompType::try_from_u16(v) {
            Some(t) => Ok(t),
            None => Err(SimError::UnknownComponentType(v)),
        }
    }
}

impl vstd::std_specs::convert::TryFromSpecImpl<u16> for CompType {
    open spec fn obeys_try_from_spec() -> bool {
        true
    }

    open spec fn try_from_spec(v: u16) -> Result<Self, SimError> {
        match CompType::of_number(v) {
            Some(t) => Ok(t),
            None => Err(SimError::UnknownComponentType(v)),
        }
    }
}

/// The conversions go by the numbers: a number that stands for no type is handed back in the error.
pub proof fn law_conversions(t: CompType, v: u16, e: u8)
    ensures
        <u16 as vstd::std_specs::convert::FromSpec<CompType>>::from_spec(t) == t.number(),
        <CompType as vstd::std_specs::convert::TryFromSpec<u16>>::try_from_spec(v)
            == match CompType::of_number(v) {
            Some(t) => Ok(t),
            None => Err(SimError::UnknownComponentType(v)),
        },
        <InputEvent as vstd::std_specs::convert::TryFromSpec<u8>>::try_from_spec(e) == if e == 0 {
            Ok::<InputEvent, u8>(InputEvent::Cont)
        } else if e == 1 {
            Ok(InputEvent::Pulse)
        } else {
            Err(e)
        },
{
}

} // verus!
