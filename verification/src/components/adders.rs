//! Binary adders: output pin 0 is the sum, pin 1 the carry.

use vstd::prelude::*;
#[allow(unused_imports)]
use crate::components::{self, TickCtx};
use crate::state::RunState;
use crate::types::CompType;

verus! {

/// Half adder: sum and carry of two bits.
pub fn half_adder(c: u32, ctx: &TickCtx, run: &mut RunState)
    requires
        components::ready(ctx, c, CompType::HalfAdder, old(run)),
    ensures
        components::evaluated(ctx, c, old(run), final(run)),
{
    let a: bool = ctx.input(c, 0);
    let b: bool = ctx.input(c, 1);
    set_pair(c, ctx, run, a != b, a && b);
}

/// Full adder: sum and carry of two bits and a carry in.
pub fn full_adder(c: u32, ctx: &TickCtx, run: &mut RunState)
    requires
        components::ready(ctx, c, CompType::FullAdder, old(run)),
    ensures
        components::evaluated(ctx, c, old(run), final(run)),
{
    let a: bool = ctx.input(c, 0);
    let b: bool = ctx.input(c, 1);
    let cin: bool = ctx.input(c, 2);
    let half: bool = a != b;
    set_pair(c, ctx, run, half != cin, (a && b) || (half && cin));
}

/// Set the two outputs of component `c`.
pub fn set_pair(c: u32, ctx: &TickCtx, run: &mut RunState, first: bool, second: bool)
    requires
        ctx.wf(),
        old(run).wf(ctx.board),
        c < ctx.board.comp_count,
        ctx.board.part(c as int).outputs.len() == 2,
        ctx.board.part(c as int).sane(old(run).state(ctx.board, c as int)),
    ensures
        components::touched(ctx.board, c as int, old(run), final(run)),
        final(run).state(ctx.board, c as int) == old(run).state(ctx.board, c as int).with_outs(
            seq![first, second],
        ),
{
    proof {
        components::lemma_untouched(ctx.board, c as int, run);
    }
    components::put(run, ctx.board, c, 0, first, Ghost(*old(run)));
    components::put(run, ctx.board, c, 1, second, Ghost(*old(run)));
    assert(run.state(ctx.board, c as int).outs =~= seq![first, second]);
}

} // verus!
