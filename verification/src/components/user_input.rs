//! UserInput: an external input source.
//!
//! Its outputs are set only between ticks, by triggers and pulses; evaluating it does nothing.

use vstd::prelude::*;
#[allow(unused_imports)]
use crate::components::{self, TickCtx};
use crate::state::RunState;
use crate::types::CompType;

verus! {

/// UserInput: nothing to evaluate.
pub fn user_input(c: u32, ctx: &TickCtx, run: &mut RunState)
    requires
        components::ready(ctx, c, CompType::UserInput, old(run)),
    ensures
        components::evaluated(ctx, c, old(run), final(run)),
{
    proof {
        components::lemma_untouched(ctx.board, c as int, run);
    }
}

} // verus!
