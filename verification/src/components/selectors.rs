//! Selectors: decoder, encoder, multiplexer and demultiplexer.
//!
//! Decoder and demultiplexer keep the index of the output they last selected, so that a change of
//! index touches only the two outputs concerned.

use vstd::prelude::*;
#[allow(unused_imports)]
use crate::arith;
#[allow(unused_imports)]
use crate::behavior;
#[allow(unused_imports)]
use crate::components::{self, TickCtx};
use crate::state::RunState;
use crate::types::CompType;

verus! {

/// Decoder: exactly the output the inputs number is high.
pub fn decoder(c: u32, ctx: &TickCtx, run: &mut RunState)
    requires
        components::ready(ctx, c, CompType::Decoder, old(run)),
    ensures
        components::evaluated(ctx, c, old(run), final(run)),
{
    let ghost ins = ctx.ins(c as int);
    proof {
        components::lemma_untouched(ctx.board, c as int, run);
        assert(ins.subrange(0, ins.len() as int) =~= ins);
        behavior::lemma_word_bound(ins);
        let off = ctx.board.comp_out_off@;
        assert(off[c as int] <= off[c + 1] <= off[ctx.board.comp_count as int]);
    }
    let index: u32 = ctx.number(c, 0, ctx.input_count(c)) as u32;
    let prev: u32 = run.scratch.sel(c);
    if index != prev {
        components::put(run, ctx.board, c, prev, false, Ghost(*old(run)));
        components::put(run, ctx.board, c, index, true, Ghost(*old(run)));
        let ghost before = *run;
        run.set_sel(ctx.board, c, index);
        proof {
            components::lemma_scratch_touched(ctx.board, c as int, old(run), &before, run);
        }
    }
    assert(run.state(ctx.board, c as int).outs =~= behavior::one_hot(
        ctx.board.part(c as int).outputs.len(),
        index as int,
    ));
}

/// Encoder: the number of the highest powered input, in binary.
pub fn encoder(c: u32, ctx: &TickCtx, run: &mut RunState)
    requires
        components::ready(ctx, c, CompType::Encoder, old(run)),
    ensures
        components::evaluated(ctx, c, old(run), final(run)),
{
    let ghost ins = ctx.ins(c as int);
    let n: u32 = ctx.output_count(c);
    let count: u32 = ctx.input_count(c);
    proof {
        arith::lemma_pow2_monotone(n as nat, n as nat);
    }
    let mut i: u32 = count;
    while i > 1 && !ctx.input(c, i - 1)
        invariant
            1 <= i <= count,
            ctx.wf(),
            c < ctx.board.comp_count,
            ins == ctx.ins(c as int),
            count == ctx.board.part(c as int).inputs.len(),
            behavior::highest(ins, count as int) == behavior::highest(ins, i as int),
        decreases i,
    {
        i = i - 1;
    }
    let value: u64 = (i - 1) as u64;
    let mut vals: Vec<bool> = Vec::new();
    let mut k: u32 = 0;
    while k < n
        invariant
            k <= n <= 16,
            vals@.len() == k,
            forall|j: int| 0 <= j < k ==> #[trigger] vals@[j] == behavior::digit(
                value as nat,
                j as nat,
            ),
        decreases n - k,
    {
        proof {
            vstd::bits::lemma_u64_shr_is_div(value, k as u64);
            let shifted = value >> (k as u64);
            assert(shifted & 1 == shifted % 2) by (bit_vector);
        }
        vals.push((value >> (k as u64)) & 1 == 1);
        k = k + 1;
    }
    proof {
        components::lemma_untouched(ctx.board, c as int, run);
    }
    components::put_all(run, ctx.board, c, 0, &vals, Ghost(*old(run)));
    assert(run.state(ctx.board, c as int).outs =~= ctx.next(
        c,
        old(run).state(ctx.board, c as int),
    ).outs);
}

/// Multiplexer: the data input the select inputs number.
pub fn mux(c: u32, ctx: &TickCtx, run: &mut RunState)
    requires
        components::ready(ctx, c, CompType::Mux, old(run)),
    ensures
        components::evaluated(ctx, c, old(run), final(run)),
{
    let sel: u32 = ctx.config(c).a;
    proof {
        arith::lemma_small_powers();
        arith::lemma_pow2_monotone(sel as nat, 16);
    }
    let index: u32 = ctx.number(c, 0, sel) as u32;
    let v: bool = ctx.input(c, sel + index);
    proof {
        components::lemma_untouched(ctx.board, c as int, run);
    }
    components::put(run, ctx.board, c, 0, v, Ghost(*old(run)));
    assert(run.state(ctx.board, c as int).outs =~= seq![v]);
}

/// Demultiplexer: the data input on the output the select inputs number, the other outputs low.
pub fn demux(c: u32, ctx: &TickCtx, run: &mut RunState)
    requires
        components::ready(ctx, c, CompType::Demux, old(run)),
    ensures
        components::evaluated(ctx, c, old(run), final(run)),
{
    let ghost ins = ctx.ins(c as int);
    let count: u32 = ctx.input_count(c);
    proof {
        components::lemma_untouched(ctx.board, c as int, run);
        behavior::lemma_word_bound(ins.subrange(1, ins.len() as int));
        let off = ctx.board.comp_out_off@;
        assert(off[c as int] <= off[c + 1] <= off[ctx.board.comp_count as int]);
    }
    let index: u32 = ctx.number(c, 1, count - 1) as u32;
    let data: bool = ctx.input(c, 0);
    let prev: u32 = run.scratch.sel(c);
    if index != prev {
        components::put(run, ctx.board, c, prev, false, Ghost(*old(run)));
    }
    components::put(run, ctx.board, c, index, data, Ghost(*old(run)));
    if index != prev {
        let ghost before = *run;
        run.set_sel(ctx.board, c, index);
        proof {
            components::lemma_scratch_touched(ctx.board, c as int, old(run), &before, run);
        }
    }
    assert(run.state(ctx.board, c as int).outs =~= ctx.next(
        c,
        old(run).state(ctx.board, c as int),
    ).outs);
}

} // verus!
