//! Combinational gates: NOT, AND, OR, XOR and the one-tick DELAY.

use vstd::prelude::*;
#[allow(unused_imports)]
use crate::components::{self, TickCtx};
use crate::reduce;
use crate::state::RunState;
use crate::types::CompType;

verus! {

/// NOT: the output is the inverted input.
pub fn not(c: u32, ctx: &TickCtx, run: &mut RunState)
    requires
        components::ready(ctx, c, CompType::Not, old(run)),
    ensures
        components::evaluated(ctx, c, old(run), final(run)),
{
    let v: bool = !ctx.input(c, 0);
    set_single(c, ctx, run, v);
}

/// Set the only output of component `c`.
fn set_single(c: u32, ctx: &TickCtx, run: &mut RunState, v: bool)
    requires
        ctx.wf(),
        old(run).wf(ctx.board),
        c < ctx.board.comp_count,
        ctx.board.part(c as int).outputs.len() == 1,
        ctx.board.part(c as int).sane(old(run).state(ctx.board, c as int)),
    ensures
        components::touched(ctx.board, c as int, old(run), final(run)),
        final(run).state(ctx.board, c as int) == old(run).state(ctx.board, c as int).with_outs(
            seq![v],
        ),
{
    proof {
        components::lemma_untouched(ctx.board, c as int, run);
    }
    components::put(run, ctx.board, c, 0, v, Ghost(*old(run)));
    assert(run.state(ctx.board, c as int).outs =~= seq![v]);
}

/// AND: all inputs high.
pub fn and(c: u32, ctx: &TickCtx, run: &mut RunState)
    requires
        components::ready(ctx, c, CompType::And, old(run)),
    ensures
        components::evaluated(ctx, c, old(run), final(run)),
{
    let base: u32 = ctx.board.comp_in_off[c as usize];
    proof {
        lemma_effective(ctx, c);
    }
    let v: bool = reduce::and_inputs(ctx.inputs(c), ctx.link_state, &ctx.board.in_negate, base);
    set_single(c, ctx, run, v);
}

/// OR: some input high.
pub fn or(c: u32, ctx: &TickCtx, run: &mut RunState)
    requires
        components::ready(ctx, c, CompType::Or, old(run)),
    ensures
        components::evaluated(ctx, c, old(run), final(run)),
{
    let base: u32 = ctx.board.comp_in_off[c as usize];
    proof {
        lemma_effective(ctx, c);
    }
    let v: bool = reduce::or_inputs(ctx.inputs(c), ctx.link_state, &ctx.board.in_negate, base);
    set_single(c, ctx, run, v);
}

/// XOR: an odd number of inputs high.
pub fn xor(c: u32, ctx: &TickCtx, run: &mut RunState)
    requires
        components::ready(ctx, c, CompType::Xor, old(run)),
    ensures
        components::evaluated(ctx, c, old(run), final(run)),
{
    let base: u32 = ctx.board.comp_in_off[c as usize];
    proof {
        lemma_effective(ctx, c);
    }
    let v: bool = reduce::xor_inputs(ctx.inputs(c), ctx.link_state, &ctx.board.in_negate, base);
    set_single(c, ctx, run, v);
}

/// DELAY: the output follows the input; the delay is the tick it takes.
pub fn delay(c: u32, ctx: &TickCtx, run: &mut RunState)
    requires
        components::ready(ctx, c, CompType::Delay, old(run)),
    ensures
        components::evaluated(ctx, c, old(run), final(run)),
{
    let v: bool = ctx.input(c, 0);
    set_single(c, ctx, run, v);
}

/// The inputs of a component, as the reductions read them.
proof fn lemma_effective(ctx: &TickCtx, c: u32)
    requires
        ctx.wf(),
        c < ctx.board.comp_count,
    ensures
        reduce::effective(
            ctx.board.part(c as int).inputs,
            ctx.link_state@,
            ctx.board.in_negate@,
            ctx.board.comp_in_off@[c as int] as int,
        ) == ctx.ins(c as int),
        ctx.board.comp_in_off@[c as int] + ctx.board.part(c as int).inputs.len()
            <= ctx.board.in_negate@.len() <= u32::MAX,
        forall|i: int|
            0 <= i < ctx.board.part(c as int).inputs.len() ==> #[trigger] ctx.board.part(
                c as int,
            ).inputs[i] < ctx.board.link_count,
{
    let b = ctx.board;
    let off = b.comp_in_off@;
    assert(off[c as int] <= off[c + 1] <= off[b.comp_count as int]);
    assert(reduce::effective(
        b.part(c as int).inputs,
        ctx.link_state@,
        b.in_negate@,
        off[c as int] as int,
    ) =~= ctx.ins(c as int));
    assert forall|i: int| 0 <= i < b.part(c as int).inputs.len() implies #[trigger] b.part(
        c as int,
    ).inputs[i] < b.link_count by {
        assert(b@.parts[c as int].inputs[i] < b@.links);
    }
}

} // verus!
