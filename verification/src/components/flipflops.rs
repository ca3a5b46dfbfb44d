//! Flip-flops D, JK and SR: rising-edge triggered on input pin 1, with Q on output pin 0 and its
//! complement on pin 1.
//!
//! Each acts only where the clock is high and was low, and then latches the clock level whatever
//! happened, so a falling edge arms it again and a second evaluation within a tick does nothing.

use vstd::prelude::*;
#[allow(unused_imports)]
use crate::components::{self, TickCtx};
use crate::components::adders;
use crate::state::RunState;
use crate::types::CompType;

verus! {

/// D flip-flop: on a rising clock, take over input 0.
pub fn d_ff(c: u32, ctx: &TickCtx, run: &mut RunState)
    requires
        components::ready(ctx, c, CompType::DFf, old(run)),
    ensures
        components::evaluated(ctx, c, old(run), final(run)),
{
    let clk: bool = ctx.input(c, 1);
    proof {
        components::lemma_untouched(ctx.board, c as int, run);
    }
    if clk && !run.scratch.edge_prev(c) {
        let d: bool = ctx.input(c, 0);
        adders::set_pair(c, ctx, run, d, !d);
    }
    latch(c, ctx, run, clk, Ghost(*old(run)));
}

/// JK flip-flop: on a rising clock, J and K toggle, J alone sets, K alone resets.
pub fn jk_ff(c: u32, ctx: &TickCtx, run: &mut RunState)
    requires
        components::ready(ctx, c, CompType::JkFf, old(run)),
    ensures
        components::evaluated(ctx, c, old(run), final(run)),
{
    let clk: bool = ctx.input(c, 1);
    proof {
        components::lemma_untouched(ctx.board, c as int, run);
    }
    if clk && !run.scratch.edge_prev(c) {
        let j: bool = ctx.input(c, 0);
        let k: bool = ctx.input(c, 2);
        if j && k {
            let q: bool = run.output(ctx.board, c, 0);
            let q_bar: bool = run.output(ctx.board, c, 1);
            adders::set_pair(c, ctx, run, !q, !q_bar);
        } else if j {
            adders::set_pair(c, ctx, run, true, false);
        } else if k {
            adders::set_pair(c, ctx, run, false, true);
        }
    }
    latch(c, ctx, run, clk, Ghost(*old(run)));
}

/// SR flip-flop: on a rising enable, S sets, else R resets.
pub fn sr_ff(c: u32, ctx: &TickCtx, run: &mut RunState)
    requires
        components::ready(ctx, c, CompType::SrFf, old(run)),
    ensures
        components::evaluated(ctx, c, old(run), final(run)),
{
    let enable: bool = ctx.input(c, 1);
    proof {
        components::lemma_untouched(ctx.board, c as int, run);
    }
    if enable && !run.scratch.edge_prev(c) {
        if ctx.input(c, 0) {
            adders::set_pair(c, ctx, run, true, false);
        } else if ctx.input(c, 2) {
            adders::set_pair(c, ctx, run, false, true);
        }
    }
    latch(c, ctx, run, enable, Ghost(*old(run)));
}

/// Latch the clock level of component `c`, after its outputs were set.
pub(crate) fn latch(c: u32, ctx: &TickCtx, run: &mut RunState, clk: bool, Ghost(a): Ghost<RunState>)
    requires
        ctx.wf(),
        old(run).wf(ctx.board),
        c < ctx.board.comp_count,
        components::touched(ctx.board, c as int, &a, old(run)),
    ensures
        components::touched(ctx.board, c as int, &a, final(run)),
        final(run).state(ctx.board, c as int) == (crate::behavior::PartState {
            edge: clk,
            ..old(run).state(ctx.board, c as int)
        }),
{
    run.set_edge(ctx.board, c, clk);
    proof {
        components::lemma_scratch_touched(ctx.board, c as int, &a, old(run), run);
    }
}

} // verus!
