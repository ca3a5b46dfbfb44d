//! RNG: a random source gated by its enable input.
//!
//! The bits drawn are a function of the component id and the tick alone, so runs are reproducible
//! and a second evaluation within a tick draws the same bits. A low enable holds the outputs.

use vstd::prelude::*;
#[allow(unused_imports)]
use crate::behavior;
#[allow(unused_imports)]
use crate::bits;
#[allow(unused_imports)]
use crate::components::{self, TickCtx};
use crate::scratch;
use crate::state::RunState;
use crate::types::CompType;

verus! {

/// RNG: while enabled, fill the outputs with the bits of this tick.
pub fn rng(c: u32, ctx: &TickCtx, run: &mut RunState)
    requires
        components::ready(ctx, c, CompType::Rng, old(run)),
    ensures
        components::evaluated(ctx, c, old(run), final(run)),
{
    proof {
        components::lemma_untouched(ctx.board, c as int, run);
    }
    if !ctx.input(c, 0) {
        return;
    }
    let n: u32 = ctx.output_count(c);
    assert(run.scratch.rng_seed@[c as int] == behavior::mix(behavior::BOARD_SEED ^ (c as u64)));
    let base: u64 = run.scratch.rng_seed(c) ^ scratch::splitmix64(ctx.tick);
    let mut vals: Vec<bool> = Vec::new();
    let mut word: u64 = 0;
    let mut i: u32 = 0;
    while i < n
        invariant
            i <= n,
            vals@.len() == i,
            base == behavior::mix(behavior::BOARD_SEED ^ (c as u64)) ^ behavior::mix(ctx.tick),
            i % 64 != 0 ==> word == behavior::drawn_word(c, ctx.tick, (i as int / 64) as u64),
            forall|k: int|
                0 <= k < i ==> #[trigger] vals@[k] == behavior::drawn(c, ctx.tick, n as nat)[k],
        decreases n - i,
    {
        if i % 64 == 0 {
            word = scratch::splitmix64(base ^ ((i / 64) as u64));
        }
        vals.push((word >> ((i % 64) as u64)) & 1 == 1);
        i = i + 1;
    }
    components::put_all(run, ctx.board, c, 0, &vals, Ghost(*old(run)));
    assert(run.state(ctx.board, c as int).outs =~= ctx.next(
        c,
        old(run).state(ctx.board, c as int),
    ).outs);
}

} // verus!
