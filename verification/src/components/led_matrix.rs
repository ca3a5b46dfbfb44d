//! LED matrix: a display whose outputs are its LEDs.
//!
//! The inputs are the row address, the data bus and the clock. On a rising clock the data bus is
//! latched into the addressed row; an address past the last LED latches nothing.

use vstd::prelude::*;
#[allow(unused_imports)]
use crate::arith;
use crate::components::flipflops;
#[allow(unused_imports)]
use crate::components::{self, TickCtx};
#[allow(unused_imports)]
use crate::netlist::Part;
use crate::state::RunState;
use crate::types::CompType;

verus! {

/// LED matrix: on a rising clock, latch the data bus into the addressed row.
pub fn led_matrix(c: u32, ctx: &TickCtx, run: &mut RunState)
    requires
        components::ready(ctx, c, CompType::LedMatrix, old(run)),
    ensures
        components::evaluated(ctx, c, old(run), final(run)),
{
    let ghost part = ctx.board.part(c as int);
    let ghost ins = ctx.ins(c as int);
    let n: u32 = ctx.output_count(c);
    let in_count: u32 = ctx.input_count(c);
    let data: u32 = ctx.config(c).a;
    let width: u32 = ctx.config(c).b;
    assert(ctx.board.comp_config@[c as int].b == part.addr_width());
    let clk: bool = ctx.input(c, in_count - 1);
    proof {
        components::lemma_untouched(ctx.board, c as int, run);
        lemma_address_width(part);
    }
    if clk && !run.scratch.edge_prev(c) {
        let row: u64 = ctx.number(c, 0, width);
        proof {
            arith::lemma_small_powers();
            arith::lemma_pow2_monotone(width as nat, 32);
            assert(row * data <= 4294967296 * 8) by (nonlinear_arith)
                requires
                    0 <= row <= 4294967296,
                    0 <= data <= 8,
            ;
        }
        let at: u64 = row * data as u64;
        if at < n as u64 {
            let left: u32 = n - at as u32;
            let count: u32 = if left < data {
                left
            } else {
                data
            };
            let mut vals: Vec<bool> = Vec::new();
            let mut i: u32 = 0;
            while i < count
                invariant
                    i <= count <= data,
                    vals@.len() == i,
                    ctx.wf(),
                    c < ctx.board.comp_count,
                    ins == ctx.ins(c as int),
                    width + data < ctx.board.part(c as int).inputs.len() <= u32::MAX,
                    forall|k: int| 0 <= k < i ==> #[trigger] vals@[k] == ins[width + k],
                decreases count - i,
            {
                vals.push(ctx.input(c, width + i));
                i = i + 1;
            }
            components::put_all(run, ctx.board, c, at as u32, &vals, Ghost(*old(run)));
        }
        assert(run.state(ctx.board, c as int).outs =~= ctx.next(
            c,
            old(run).state(ctx.board, c as int),
        ).outs);
    }
    flipflops::latch(c, ctx, run, clk, Ghost(*old(run)));
}

/// The row address of a LED matrix has at most 32 bits.
proof fn lemma_address_width(part: Part)
    requires
        part.valid(),
        part.ty == CompType::LedMatrix,
        part.outputs.len() <= u32::MAX,
    ensures
        0 <= part.addr_width() <= 32,
{
    if part.addr_width() > 32 {
        arith::lemma_small_powers();
        arith::lemma_pow2_monotone(32, (part.addr_width() - 1) as nat);
    }
}

} // verus!
