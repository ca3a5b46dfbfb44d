//! CLK: the enable gating of a free-running clock.
//!
//! The period toggle itself runs between ticks. A high enable freezes the clock and forces its
//! output low; a low enable lets it run.

use vstd::prelude::*;
#[allow(unused_imports)]
use crate::components::{self, TickCtx};
use crate::state::RunState;
use crate::types::CompType;

verus! {

/// CLK: freeze or run the period toggle by the enable input.
pub fn clk(c: u32, ctx: &TickCtx, run: &mut RunState)
    requires
        components::ready(ctx, c, CompType::Clk, old(run)),
    ensures
        components::evaluated(ctx, c, old(run), final(run)),
{
    proof {
        components::lemma_untouched(ctx.board, c as int, run);
    }
    let running: bool = run.scratch.clk_subscribed(c);
    if ctx.input(c, 0) {
        if running {
            components::put(run, ctx.board, c, 0, false, Ghost(*old(run)));
            let ghost before = *run;
            run.set_running(ctx.board, c, false);
            proof {
                components::lemma_scratch_touched(ctx.board, c as int, old(run), &before, run);
            }
        }
        assert(run.state(ctx.board, c as int).outs =~= seq![false]);
    } else if !running {
        run.set_running(ctx.board, c, true);
        proof {
            components::lemma_scratch_touched(ctx.board, c as int, old(run), old(run), run);
        }
    }
}

} // verus!
