//! A change-driven logic-circuit simulator with machine-checked behaviour.

pub mod arith;
pub mod behavior;
pub mod binding;
pub mod bits;
pub mod bitset;
pub mod board;
pub mod cli;
pub mod clock;
pub mod codec;
pub mod components;
pub mod datasheet;
pub mod error;
pub mod laws;
pub mod machine;
pub mod netlist;
pub mod pool;
pub mod promises;
pub mod queue;
pub mod reduce;
pub mod scratch;
pub mod session;
pub mod settle;
pub mod sim;
pub mod simd;
pub mod state;
pub mod text;
pub mod types;
