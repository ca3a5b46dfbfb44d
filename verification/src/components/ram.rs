//! RAM: addressable memory, written and read on a rising clock.
//!
//! The inputs are the address, the data word, the write enable and the clock; the outputs are the
//! data word. On a rising clock the addressed word is either written from the data inputs and
//! echoed to the outputs, or read out.

use vstd::prelude::*;
#[allow(unused_imports)]
use vstd::arithmetic::power2;
#[allow(unused_imports)]
use crate::arith;
#[allow(unused_imports)]
use crate::behavior::{self, PartState};
use crate::components::flipflops;
#[allow(unused_imports)]
use crate::components::{self, TickCtx};
use crate::state::RunState;
use crate::types::CompType;

verus! {

/// RAM: on a rising clock, write or read the addressed word.
pub fn ram(c: u32, ctx: &TickCtx, run: &mut RunState)
    requires
        components::ready(ctx, c, CompType::Ram, old(run)),
    ensures
        components::evaluated(ctx, c, old(run), final(run)),
{
    let ghost part = ctx.board.part(c as int);
    let ghost ins = ctx.ins(c as int);
    let ghost st = run.state(ctx.board, c as int);
    let n: u32 = ctx.output_count(c);
    let in_count: u32 = ctx.input_count(c);
    let clk: bool = ctx.input(c, in_count - 1);
    proof {
        components::lemma_untouched(ctx.board, c as int, run);
    }
    if clk && !run.scratch.edge_prev(c) {
        let width: u32 = in_count - n - 2;
        let addr: u64 = ctx.number(c, 0, width);
        proof {
            arith::lemma_small_powers();
            arith::lemma_pow2_monotone(width as nat, 24);
            behavior::lemma_in_memory(addr as nat, width as nat, n as nat);
            assert(n * power2::pow2(width as nat) <= 0xffff_ffff * 16777216) by (nonlinear_arith)
                requires
                    0 <= n <= 0xffff_ffff,
                    0 <= power2::pow2(width as nat) <= 16777216,
            ;
        }
        let at: u64 = addr * n as u64;
        let write: bool = ctx.input(c, in_count - 2);
        let mut vals: Vec<bool> = Vec::new();
        if write {
            store(c, ctx, run, width, at, &mut vals);
        } else {
            load(c, ctx, run, at, &mut vals);
        }
        components::put_all(run, ctx.board, c, 0, &vals, Ghost(*old(run)));
        proof {
            let want = ctx.next(c, st);
            let got = run.state(ctx.board, c as int);
            assert(got.outs =~= want.outs);
            assert(got.mem =~= want.mem);
        }
    }
    flipflops::latch(c, ctx, run, clk, Ghost(*old(run)));
}

/// Copy the data inputs to memory from bit `at` on, and to `vals`.
fn store(c: u32, ctx: &TickCtx, run: &mut RunState, width: u32, at: u64, vals: &mut Vec<bool>)
    requires
        components::ready(ctx, c, CompType::Ram, old(run)),
        width == ctx.board.part(c as int).addr_width(),
        at + ctx.board.part(c as int).outputs.len() <= ctx.board.part(c as int).mem_bits(),
        ctx.board.part(c as int).mem_bits() <= u64::MAX,
        old(vals)@.len() == 0,
    ensures
        components::touched(ctx.board, c as int, old(run), final(run)),
        final(vals)@ == ctx.ins(c as int).subrange(
            width as int,
            width + ctx.board.part(c as int).outputs.len(),
        ),
        final(run).state(ctx.board, c as int) == (PartState {
            mem: components::overlaid(
                old(run).state(ctx.board, c as int).mem,
                at as int,
                final(vals)@,
            ),
            ..old(run).state(ctx.board, c as int)
        }),
{
    let ghost part = ctx.board.part(c as int);
    let ghost ins = ctx.ins(c as int);
    let ghost mem0 = run.state(ctx.board, c as int).mem;
    let n: u32 = ctx.output_count(c);
    proof {
        components::lemma_untouched(ctx.board, c as int, run);
        assert(components::overlaid(mem0, at as int, vals@) =~= mem0);
        let off = ctx.board.comp_in_off@;
        assert(off[c as int] <= off[c + 1] <= off[ctx.board.comp_count as int]);
    }
    let mut i: u32 = 0;
    while i < n
        invariant
            i <= n,
            vals@.len() == i,
            ctx.wf(),
            c < ctx.board.comp_count,
            run.wf(ctx.board),
            part == ctx.board.part(c as int),
            n == part.outputs.len(),
            ins == ctx.ins(c as int),
            ins.len() == part.inputs.len(),
            width + n <= part.inputs.len() <= u32::MAX,
            at + n <= part.mem_bits() <= u64::MAX,
            mem0 == old(run).state(ctx.board, c as int).mem,
            mem0.len() == part.mem_bits(),
            components::touched(ctx.board, c as int, old(run), run),
            forall|k: int| 0 <= k < i ==> #[trigger] vals@[k] == ins[width + k],
            run.state(ctx.board, c as int) == (PartState {
                mem: components::overlaid(mem0, at as int, vals@),
                ..old(run).state(ctx.board, c as int)
            }),
        decreases n - i,
    {
        let d: bool = ctx.input(c, width + i);
        let ghost before = *run;
        run.ram_set(ctx.board, c, at + i as u64, d);
        vals.push(d);
        proof {
            components::lemma_scratch_touched(ctx.board, c as int, old(run), &before, run);
            assert(run.state(ctx.board, c as int).mem =~= components::overlaid(
                mem0,
                at as int,
                vals@,
            ));
        }
        i = i + 1;
    }
    assert(vals@ =~= ins.subrange(width as int, width + n));
}

/// Copy memory from bit `at` on to `vals`.
fn load(c: u32, ctx: &TickCtx, run: &RunState, at: u64, vals: &mut Vec<bool>)
    requires
        components::ready(ctx, c, CompType::Ram, run),
        at + ctx.board.part(c as int).outputs.len() <= ctx.board.part(c as int).mem_bits(),
        ctx.board.part(c as int).mem_bits() <= u64::MAX,
        old(vals)@.len() == 0,
    ensures
        final(vals)@ == run.state(ctx.board, c as int).mem.subrange(
            at as int,
            at + ctx.board.part(c as int).outputs.len(),
        ),
{
    let ghost mem = run.state(ctx.board, c as int).mem;
    let n: u32 = ctx.output_count(c);
    let mut i: u32 = 0;
    while i < n
        invariant
            i <= n,
            vals@.len() == i,
            ctx.wf(),
            c < ctx.board.comp_count,
            run.wf(ctx.board),
            n == ctx.board.part(c as int).outputs.len(),
            at + n <= ctx.board.part(c as int).mem_bits() <= u64::MAX,
            mem == run.state(ctx.board, c as int).mem,
            forall|k: int| 0 <= k < i ==> #[trigger] vals@[k] == mem[at + k],
        decreases n - i,
    {
        vals.push(run.ram_get(ctx.board, c, at + i as u64));
        i = i + 1;
    }
    assert(vals@ =~= mem.subrange(at as int, at + n));
}

} // verus!
