//! ROM: a combinational lookup table.
//!
//! The inputs form an address; the outputs show that many consecutive bits of the contents, from
//! bit `address * outputs` on.

use vstd::prelude::*;
#[allow(unused_imports)]
use vstd::arithmetic::power2;
#[allow(unused_imports)]
use crate::arith;
#[allow(unused_imports)]
use crate::behavior;
#[allow(unused_imports)]
use crate::components::{self, TickCtx};
#[allow(unused_imports)]
use crate::netlist;
use crate::state::RunState;
use crate::types::CompType;

verus! {

/// ROM: show the word at the address on the inputs.
pub fn rom(c: u32, ctx: &TickCtx, run: &mut RunState)
    requires
        components::ready(ctx, c, CompType::Rom, old(run)),
    ensures
        components::evaluated(ctx, c, old(run), final(run)),
{
    let ghost part = ctx.board.part(c as int);
    let ghost ins = ctx.ins(c as int);
    let n: u32 = ctx.output_count(c);
    let width: u32 = ctx.input_count(c);
    let off: u32 = ctx.config(c).a;
    let addr: u64 = ctx.number(c, 0, width);
    proof {
        assert(ins.subrange(0, ins.len() as int) =~= ins);
        arith::lemma_small_powers();
        arith::lemma_pow2_monotone(width as nat, 16);
        behavior::lemma_in_memory(addr as nat, width as nat, n as nat);
        assert(n * power2::pow2(width as nat) <= 64 * 65536) by (nonlinear_arith)
            requires
                0 <= n <= 64,
                0 <= power2::pow2(width as nat) <= 65536,
        ;
        assert(ctx.board.comp_config@[c as int].a + part.rom.len() <= ctx.board.rom_data@.len());
        assert(addr * n <= 64 * 65536);
        components::lemma_untouched(ctx.board, c as int, run);
    }
    let at: u64 = addr * n as u64;
    let pool: usize = ctx.board.rom_data.len();
    let mut vals: Vec<bool> = Vec::new();
    let mut i: u32 = 0;
    while i < n
        invariant
            i <= n,
            vals@.len() == i,
            ctx.wf(),
            c < ctx.board.comp_count,
            part == ctx.board.part(c as int),
            part.ty == CompType::Rom,
            off == ctx.board.comp_config@[c as int].a,
            off + part.rom.len() <= pool == ctx.board.rom_data@.len(),
            part.rom.len() == netlist::rom_size(width as nat, n as nat),
            part.rom == ctx.board.rom_data@.subrange(off as int, off + part.rom.len()),
            at + n <= n * power2::pow2(width as nat) <= 64 * 65536,
            forall|k: int|
                0 <= k < i ==> #[trigger] vals@[k] == behavior::byte_bit(part.rom, at + k),
        decreases n - i,
    {
        let k: u64 = at + i as u64;
        assert(part.rom[k as int / 8] == ctx.board.rom_data@[off + k as int / 8]);
        let byte: u8 = ctx.board.rom_data[off as usize + (k / 8) as usize];
        vals.push((byte >> ((k % 8) as u8)) & 1 == 1);
        i = i + 1;
    }
    components::put_all(run, ctx.board, c, 0, &vals, Ghost(*old(run)));
    assert(run.state(ctx.board, c as int).outs =~= ctx.next(
        c,
        old(run).state(ctx.board, c as int),
    ).outs);
}

} // verus!
