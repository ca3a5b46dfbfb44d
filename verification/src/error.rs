//! Typed engine errors.

use vstd::prelude::*;
use crate::types::CompType;

verus! {

/// Which side of a component a negated pin index refers to.
#[derive(Clone, Copy, PartialEq, Eq, Debug, Structural)]
pub enum PinKind {
    Input,
    Output,
}

/// Errors raised while compiling a board, reading a binary board, or driving a simulation.
#[derive(Debug)]
pub enum SimError {
    /// A component carried a type id that names no component type.
    UnknownComponentType(u16),
    /// A component referenced a link id outside `0..link_count`.
    LinkOutOfRange { idx: u32, link: u32, count: u32 },
    /// A component's input/output/ops counts violate its type's arity.
    BadArity { idx: u32, ty: CompType, ins: usize, outs: usize, ops: usize },
    /// A negated pin index lies outside the component's pins.
    NegateOutOfRange { idx: u32, pin_kind: PinKind, pin: u16, count: u32 },
    /// `trigger_input` targeted a component that is not a `UserInput`.
    NotAnInput(u32),
    /// A `.lgb` binary board was truncated or carried a bad header or field.
    BadBinary(String),
    /// The pool of worker threads could not be built.
    ThreadPool(String),
}

} // verus!
