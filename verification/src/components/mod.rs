//! Component types: the arity table and the kernels.
//!
//! A kernel evaluates one component: it reads the frozen link values through a [`TickCtx`] and
//! writes outputs through [`RunState::drive`]. Each is proved to do what
//! [`Part::step`](crate::netlist::Part::step) says.

pub mod adders;
pub mod clk;
pub mod flipflops;
pub mod gates;
pub mod led_matrix;
pub mod ram;
pub mod rng;
pub mod rom;
pub mod selectors;
pub mod user_input;

use vstd::prelude::*;
#[allow(unused_imports)]
use vstd::arithmetic::power2;
#[allow(unused_imports)]
use crate::arith;
#[allow(unused_imports)]
use crate::behavior::{self, PartState};
use crate::bitset::BitSet;
use crate::board::{Board, CompConfig};
#[allow(unused_imports)]
use crate::machine;
#[allow(unused_imports)]
use crate::netlist::{self, Part};
#[allow(unused_imports)]
use crate::state::{self, RunState};
use crate::types::CompType;

verus! {

/// Upper bound standing for "any number", as in an N-input AND.
pub const INF: usize = usize::MAX;

/// Permitted input/output/ops counts of a component type.
#[derive(Clone, Copy, Debug)]
pub struct Arity {
    pub in_min: usize,
    pub in_max: usize,
    pub out_min: usize,
    pub out_max: usize,
    pub ops_min: usize,
    pub ops_max: usize,
}

impl Arity {
    /// Whether the given counts satisfy the arity.
    pub open spec fn admits(self, ins: nat, outs: nat, ops: nat) -> bool {
        &&& self.in_min <= ins <= self.in_max
        &&& self.out_min <= outs <= self.out_max
        &&& self.ops_min <= ops <= self.ops_max
    }

    /// Whether the given counts satisfy this arity.
    pub fn accepts(&self, ins: usize, outs: usize, ops: usize) -> (r: bool)
        ensures
            r == self.admits(ins as nat, outs as nat, ops as nat),
    {
        self.in_min <= ins && ins <= self.in_max && self.out_min <= outs && outs <= self.out_max
            && self.ops_min <= ops && ops <= self.ops_max
    }
}

/// An arity from its six bounds.
pub open spec fn bounds(
    in_min: usize,
    in_max: usize,
    out_min: usize,
    out_max: usize,
    ops_min: usize,
    ops_max: usize,
) -> Arity {
    Arity { in_min, in_max, out_min, out_max, ops_min, ops_max }
}

/// The arity table.
pub open spec fn arity_of(ty: CompType) -> Arity {
    match ty {
        CompType::Not => bounds(1, 1, 1, 1, 0, 0),
        CompType::And => bounds(2, INF, 1, 1, 0, 0),
        CompType::Or => bounds(2, INF, 1, 1, 0, 0),
        CompType::Xor => bounds(2, INF, 1, 1, 0, 0),
        CompType::Delay => bounds(1, 1, 1, 1, 0, 0),
        CompType::Clk => bounds(1, 1, 1, 1, 1, 1),
        CompType::HalfAdder => bounds(2, 2, 2, 2, 0, 0),
        CompType::FullAdder => bounds(3, 3, 2, 2, 0, 0),
        CompType::Rom => bounds(1, 16, 1, 64, 0, INF),
        CompType::DFf => bounds(2, 2, 2, 2, 0, 0),
        CompType::JkFf => bounds(3, 3, 2, 2, 0, 0),
        CompType::SrFf => bounds(3, 3, 2, 2, 0, 0),
        CompType::Rng => bounds(1, 1, 1, INF, 0, 0),
        CompType::Ram => bounds(3, INF, 1, INF, 0, 0),
        CompType::Decoder => bounds(1, 16, 2, INF, 0, 0),
        CompType::Encoder => bounds(2, INF, 1, 16, 0, 0),
        CompType::Mux => bounds(3, INF, 1, 1, 1, 1),
        CompType::Demux => bounds(2, INF, 2, INF, 0, 0),
        CompType::UserInput => bounds(0, 0, 1, INF, 0, 0),
        CompType::LedMatrix => bounds(5, INF, 4, INF, 1, 1),
    }
}

/// The arity rule of a component type.
pub fn arity(ty: CompType) -> (r: Arity)
    ensures
        r == arity_of(ty),
{
    let (in_min, in_max, out_min, out_max, ops_min, ops_max): (
        usize,
        usize,
        usize,
        usize,
        usize,
        usize,
    ) = match ty {
        CompType::Not => (1, 1, 1, 1, 0, 0),
        CompType::And => (2, INF, 1, 1, 0, 0),
        CompType::Or => (2, INF, 1, 1, 0, 0),
        CompType::Xor => (2, INF, 1, 1, 0, 0),
        CompType::Delay => (1, 1, 1, 1, 0, 0),
        CompType::Clk => (1, 1, 1, 1, 1, 1),
        CompType::HalfAdder => (2, 2, 2, 2, 0, 0),
        CompType::FullAdder => (3, 3, 2, 2, 0, 0),
        CompType::Rom => (1, 16, 1, 64, 0, INF),
        CompType::DFf => (2, 2, 2, 2, 0, 0),
        CompType::JkFf => (3, 3, 2, 2, 0, 0),
        CompType::SrFf => (3, 3, 2, 2, 0, 0),
        CompType::Rng => (1, 1, 1, INF, 0, 0),
        CompType::Ram => (3, INF, 1, INF, 0, 0),
        CompType::Decoder => (1, 16, 2, INF, 0, 0),
        CompType::Encoder => (2, INF, 1, 16, 0, 0),
        CompType::Mux => (3, INF, 1, 1, 1, 1),
        CompType::Demux => (2, INF, 2, INF, 0, 0),
        CompType::UserInput => (0, 0, 1, INF, 0, 0),
        CompType::LedMatrix => (5, INF, 4, INF, 1, 1),
    };
    Arity { in_min, in_max, out_min, out_max, ops_min, ops_max }
}

/// What a kernel reads: the board, the link values frozen for the tick, and the tick.
pub struct TickCtx<'a> {
    pub board: &'a Board,
    pub link_state: &'a BitSet,
    pub tick: u64,
}

impl<'a> TickCtx<'a> {
    /// The link values match the board.
    pub open spec fn wf(&self) -> bool {
        &&& self.board.wf()
        &&& self.link_state.wf()
        &&& self.link_state@.len() == self.board.link_count
    }

    /// What the input pins of component `c` read.
    pub open spec fn ins(&self, c: int) -> Seq<bool> {
        self.board.part(c).reads(self.link_state@)
    }

    /// The state of component `c` after an evaluation.
    pub open spec fn next(&self, c: u32, st: PartState) -> PartState {
        self.board.part(c as int).step(c, self.ins(c as int), self.tick, st)
    }

    /// A context over a board and its frozen link values.
    pub fn new(board: &'a Board, link_state: &'a BitSet, tick: u64) -> (r: Self)
        ensures
            r.board == board,
            r.link_state == link_state,
            r.tick == tick,
    {
        TickCtx { board, link_state, tick }
    }

    /// The input links of component `c`.
    pub fn inputs(&self, c: u32) -> (r: &'a [u32])
        requires
            self.wf(),
            c < self.board.comp_count,
        ensures
            r@ == self.board.part(c as int).inputs,
    {
        self.board.inputs(c)
    }

    /// Number of input pins of component `c`.
    pub fn input_count(&self, c: u32) -> (n: u32)
        requires
            self.wf(),
            c < self.board.comp_count,
        ensures
            n == self.board.part(c as int).inputs.len(),
            n == self.ins(c as int).len(),
    {
        proof {
            let off = self.board.comp_in_off@;
            assert(off[c as int] <= off[c + 1] <= off[self.board.comp_count as int]);
        }
        self.board.comp_in_off[c as usize + 1] - self.board.comp_in_off[c as usize]
    }

    /// Number of output pins of component `c`.
    pub fn output_count(&self, c: u32) -> (n: u32)
        requires
            self.wf(),
            c < self.board.comp_count,
        ensures
            n == self.board.part(c as int).outputs.len(),
    {
        proof {
            let off = self.board.comp_out_off@;
            assert(off[c as int] <= off[c + 1] <= off[self.board.comp_count as int]);
        }
        self.board.comp_out_off[c as usize + 1] - self.board.comp_out_off[c as usize]
    }

    /// Parameters of component `c`.
    pub fn config(&self, c: u32) -> (r: CompConfig)
        requires
            self.wf(),
            c < self.board.comp_count,
        ensures
            r == self.board.comp_config@[c as int],
    {
        self.board.config(c)
    }

    /// What input pin `pin` of component `c` reads.
    pub fn input(&self, c: u32, pin: u32) -> (v: bool)
        requires
            self.wf(),
            c < self.board.comp_count,
            pin < self.board.part(c as int).inputs.len(),
        ensures
            v == self.ins(c as int)[pin as int],
    {
        let b = self.board;
        proof {
            let off = b.comp_in_off@;
            assert(off[c as int] <= off[c + 1] <= off[b.comp_count as int]);
            assert(b@.parts[c as int].inputs[pin as int] < b.link_count);
        }
        let at: u32 = b.comp_in_off[c as usize] + pin;
        self.link_state.get(b.comp_inputs[at as usize]) != b.in_negate.get(at)
    }

    /// The binary number on `n` input pins of component `c`, from pin `from` on.
    pub fn number(&self, c: u32, from: u32, n: u32) -> (v: u64)
        requires
            self.wf(),
            c < self.board.comp_count,
            from + n <= self.board.part(c as int).inputs.len(),
            n <= 63,
        ensures
            v == behavior::word(self.ins(c as int).subrange(from as int, from + n)),
            v < power2::pow2(n as nat),
    {
        let ghost ins = self.ins(c as int);
        proof {
            arith::lemma_small_powers();
        }
        let mut v: u64 = 0;
        let mut i: u32 = 0;
        while i < n
            invariant
                i <= n <= 63,
                self.wf(),
                c < self.board.comp_count,
                ins == self.ins(c as int),
                from + n <= ins.len(),
                from + n <= self.board.part(c as int).inputs.len() <= u32::MAX,
                v == behavior::word(ins.subrange(from as int, from + i)),
                v < power2::pow2(i as nat),
            decreases n - i,
        {
            let ghost s = ins.subrange(from as int, from + i);
            let b: bool = self.input(c, from + i);
            proof {
                assert(ins.subrange(from as int, from + i + 1) =~= s.push(b));
                behavior::lemma_word_push(s, b);
                behavior::lemma_word_bound(s.push(b));
                vstd::bits::lemma_u64_pow2_no_overflow((i + 1) as nat);
            }
            if b {
                v = v + arith::two_to(i);
            }
            i = i + 1;
        }
        proof {
            behavior::lemma_word_bound(ins.subrange(from as int, from + n));
        }
        v
    }
}

/// Component `c` is of type `ty` and can be evaluated.
pub open spec fn ready(ctx: &TickCtx, c: u32, ty: CompType, run: &RunState) -> bool {
    &&& ctx.wf()
    &&& run.wf(ctx.board)
    &&& c < ctx.board.comp_count
    &&& ctx.board.comp_ty@[c as int] == ty
    &&& ctx.board.part(c as int).valid()
    &&& ctx.board.part(c as int).sane(run.state(ctx.board, c as int))
}

/// Between `a` and `b` only component `c` changed, and the links of its flipped outputs were
/// scheduled, with one entry for each.
pub open spec fn touched(board: &Board, c: int, a: &RunState, b: &RunState) -> bool {
    &&& b.wf(board)
    &&& b.states(board) == a.states(board).update(c, b.state(board, c))
    &&& b.writes() == a.writes().union(
        state::moved(board.part(c), a.state(board, c), b.state(board, c)),
    )
    &&& b.write_buf@.len() == a.write_buf@.len() + state::flipped(
        board.part(c),
        a.state(board, c),
        b.state(board, c),
    )
}

/// Between `a` and `b` component `c` was evaluated.
pub open spec fn evaluated(ctx: &TickCtx, c: u32, a: &RunState, b: &RunState) -> bool {
    &&& touched(ctx.board, c as int, a, b)
    &&& b.state(ctx.board, c as int) == ctx.next(c, a.state(ctx.board, c as int))
}

/// Nothing changed: a starting point for [`touched`].
pub proof fn lemma_untouched(board: &Board, c: int, a: &RunState)
    requires
        a.wf(board),
        0 <= c < board.comp_count,
    ensures
        touched(board, c, a, a),
{
    state::lemma_differing_none(a.state(board, c).outs, board.part(c).outputs.len() as int);
    assert(a.states(board).update(c, a.state(board, c)) =~= a.states(board));
    assert(a.writes().union(state::moved(board.part(c), a.state(board, c), a.state(board, c)))
        =~= a.writes());
}

/// Changing scratch after outputs keeps the outputs' links scheduled.
pub proof fn lemma_scratch_touched(board: &Board, c: int, a: &RunState, b: &RunState, d: &RunState)
    requires
        touched(board, c, a, b),
        0 <= c < board.comp_count,
        d.wf(board),
        d.states(board) == b.states(board).update(c, d.state(board, c)),
        d.state(board, c).outs == b.state(board, c).outs,
        d.write_buf == b.write_buf,
    ensures
        touched(board, c, a, d),
{
    assert(d.states(board) =~= a.states(board).update(c, d.state(board, c)));
    assert(state::moved(board.part(c), a.state(board, c), d.state(board, c)) =~= state::moved(
        board.part(c),
        a.state(board, c),
        b.state(board, c),
    ));
}

/// Set output pin `pin` of component `c`, which has not been set since `a`.
pub(crate) fn put(
    run: &mut RunState,
    board: &Board,
    c: u32,
    pin: u32,
    v: bool,
    Ghost(a): Ghost<RunState>,
)
    requires
        board.wf(),
        old(run).wf(board),
        c < board.comp_count,
        pin < board.part(c as int).outputs.len(),
        touched(board, c as int, &a, old(run)),
        old(run).state(board, c as int).outs[pin as int] == a.state(board, c as int).outs[pin as int],
    ensures
        touched(board, c as int, &a, final(run)),
        final(run).state(board, c as int) == old(run).state(board, c as int).with_outs(
            old(run).state(board, c as int).outs.update(pin as int, v),
        ),
{
    let ghost part = board.part(c as int);
    let ghost st = run.state(board, c as int);
    let ghost st0 = a.state(board, c as int);
    run.drive(board, c, pin, v);
    proof {
        let st1 = run.state(board, c as int);
        assert(run.states(board) =~= a.states(board).update(c as int, st1));
        let off = board.comp_out_off@;
        assert(off[c as int] <= off[c + 1] <= off[board.comp_count as int]);
        assert(st.outs.len() == part.outputs.len());
        let before = state::moved(part, st0, st);
        let after = state::moved(part, st0, st1);
        assert forall|l: u32| after.contains(l) <==> before.contains(l) || (st.outs[pin as int] != v
            && l == part.outputs[pin as int]) by {
            if after.contains(l) {
                let p = choose|p: int|
                    0 <= p < part.outputs.len() && #[trigger] part.outputs[p] == l && st0.outs[p]
                        != st1.outs[p];
                if p != pin {
                    assert(part.outputs[p] == l && st0.outs[p] != st.outs[p]);
                }
            }
            if before.contains(l) {
                let p = choose|p: int|
                    0 <= p < part.outputs.len() && #[trigger] part.outputs[p] == l && st0.outs[p]
                        != st.outs[p];
                assert(part.outputs[p] == l && st0.outs[p] != st1.outs[p]);
            }
            if st.outs[pin as int] != v && l == part.outputs[pin as int] {
                assert(part.outputs[pin as int] == l && st0.outs[pin as int] != st1.outs[pin as int]);
            }
        }
        assert(run.writes() =~= a.writes().union(after));
        state::lemma_differing_set(
            st0.outs,
            st.outs,
            pin as int,
            v,
            part.outputs.len() as int,
        );
    }
}

/// Set the output pins of component `c` from `first` on, none of which has been set since `a`.
pub(crate) fn put_all(
    run: &mut RunState,
    board: &Board,
    c: u32,
    first: u32,
    vals: &Vec<bool>,
    Ghost(a): Ghost<RunState>,
)
    requires
        board.wf(),
        old(run).wf(board),
        c < board.comp_count,
        first + vals@.len() <= board.part(c as int).outputs.len(),
        touched(board, c as int, &a, old(run)),
        forall|i: int|
            first <= i < first + vals@.len() ==> #[trigger] old(run).state(board, c as int).outs[i]
                == a.state(board, c as int).outs[i],
    ensures
        touched(board, c as int, &a, final(run)),
        final(run).state(board, c as int) == old(run).state(board, c as int).with_outs(
            overlaid(old(run).state(board, c as int).outs, first as int, vals@),
        ),
{
    let n: usize = vals.len();
    let ghost outs0 = run.state(board, c as int).outs;
    proof {
        let off = board.comp_out_off@;
        assert(off[c as int] <= off[c + 1] <= off[board.comp_count as int]);
        assert(outs0.len() == board.part(c as int).outputs.len());
        assert(overlaid(outs0, first as int, vals@.subrange(0, 0)) =~= outs0);
        assert(board.part(c as int).outputs.len() <= u32::MAX);
    }
    let mut i: usize = 0;
    while i < n
        invariant
            i <= n,
            n == vals@.len(),
            board.wf(),
            run.wf(board),
            c < board.comp_count,
            board.part(c as int).outputs.len() <= u32::MAX,
            first + n <= board.part(c as int).outputs.len(),
            outs0.len() == board.part(c as int).outputs.len(),
            outs0 == old(run).state(board, c as int).outs,
            touched(board, c as int, &a, run),
            forall|k: int|
                first <= k < first + n ==> #[trigger] outs0[k] == a.state(board, c as int).outs[k],
            run.state(board, c as int) == old(run).state(board, c as int).with_outs(
                overlaid(outs0, first as int, vals@.subrange(0, i as int)),
            ),
        decreases n - i,
    {
        assert(outs0[first + i] == a.state(board, c as int).outs[first + i]);
        put(run, board, c, first + i as u32, vals[i], Ghost(a));
        proof {
            assert(overlaid(outs0, first as int, vals@.subrange(0, i + 1)) =~= overlaid(
                outs0,
                first as int,
                vals@.subrange(0, i as int),
            ).update(first + i, vals@[i as int]));
        }
        i = i + 1;
    }
    assert(vals@.subrange(0, n as int) =~= vals@);
}

/// `s` with the entries from `at` on replaced by `t`.
pub open spec fn overlaid(s: Seq<bool>, at: int, t: Seq<bool>) -> Seq<bool> {
    Seq::new(
        s.len(),
        |i: int|
            if at <= i < at + t.len() {
                t[i - at]
            } else {
                s[i]
            },
    )
}

/// Number of component types.
pub const N_TYPES: usize = 20;

/// Position of a type in the order in which the compute phase visits the types.
pub open spec fn type_rank(ty: CompType) -> int {
    match ty {
        CompType::Not => 0,
        CompType::And => 1,
        CompType::Or => 2,
        CompType::Xor => 3,
        CompType::Delay => 4,
        CompType::Clk => 5,
        CompType::HalfAdder => 6,
        CompType::FullAdder => 7,
        CompType::Rom => 8,
        CompType::DFf => 9,
        CompType::JkFf => 10,
        CompType::SrFf => 11,
        CompType::Rng => 12,
        CompType::Ram => 13,
        CompType::Decoder => 14,
        CompType::Encoder => 15,
        CompType::Mux => 16,
        CompType::Demux => 17,
        CompType::UserInput => 18,
        CompType::LedMatrix => 19,
    }
}

/// Index of a type's compute queue.
pub fn type_index(ty: CompType) -> (i: usize)
    ensures
        i == type_rank(ty),
        i < N_TYPES,
{
    match ty {
        CompType::Not => 0,
        CompType::And => 1,
        CompType::Or => 2,
        CompType::Xor => 3,
        CompType::Delay => 4,
        CompType::Clk => 5,
        CompType::HalfAdder => 6,
        CompType::FullAdder => 7,
        CompType::Rom => 8,
        CompType::DFf => 9,
        CompType::JkFf => 10,
        CompType::SrFf => 11,
        CompType::Rng => 12,
        CompType::Ram => 13,
        CompType::Decoder => 14,
        CompType::Encoder => 15,
        CompType::Mux => 16,
        CompType::Demux => 17,
        CompType::UserInput => 18,
        CompType::LedMatrix => 19,
    }
}

/// The type whose compute queue has index `i`.
pub fn type_from_index(i: usize) -> (ty: CompType)
    requires
        i < N_TYPES,
    ensures
        type_rank(ty) == i,
{
    match i {
        0 => CompType::Not,
        1 => CompType::And,
        2 => CompType::Or,
        3 => CompType::Xor,
        4 => CompType::Delay,
        5 => CompType::Clk,
        6 => CompType::HalfAdder,
        7 => CompType::FullAdder,
        8 => CompType::Rom,
        9 => CompType::DFf,
        10 => CompType::JkFf,
        11 => CompType::SrFf,
        12 => CompType::Rng,
        13 => CompType::Ram,
        14 => CompType::Decoder,
        15 => CompType::Encoder,
        16 => CompType::Mux,
        17 => CompType::Demux,
        18 => CompType::UserInput,
        _ => CompType::LedMatrix,
    }
}

/// Give component `c` the outputs its type holds before it has seen any input, and start it if it
/// is a clock.
pub fn dispatch_init(ty: CompType, c: u32, board: &Board, run: &mut RunState)
    requires
        board.wf(),
        old(run).wf(board),
        c < board.comp_count,
        board.comp_ty@[c as int] == ty,
        board.part(c as int).valid(),
        old(run).state(board, c as int) == (PartState {
            running: false,
            ..board.part(c as int).cleared()
        }),
    ensures
        touched(board, c as int, old(run), final(run)),
        final(run).state(board, c as int) == board.part(c as int).seeded(),
{
    let ghost part = board.part(c as int);
    proof {
        lemma_untouched(board, c as int, run);
        arith::lemma_pow2_monotone(part.inputs.len(), part.inputs.len());
    }
    match ty {
        CompType::Not => {
            put(run, board, c, 0, true, Ghost(*old(run)));
        },
        CompType::DFf | CompType::JkFf | CompType::SrFf => {
            put(run, board, c, 1, true, Ghost(*old(run)));
        },
        CompType::Decoder => {
            put(run, board, c, 0, true, Ghost(*old(run)));
        },
        CompType::Clk => {
            run.set_running(board, c, true);
            proof {
                lemma_scratch_touched(board, c as int, old(run), old(run), run);
            }
        },
        _ => {},
    }
    assert(run.state(board, c as int).outs =~= part.seeded().outs);
}

/// Evaluate component `c`.
pub fn evaluate(ty: CompType, c: u32, ctx: &TickCtx, run: &mut RunState)
    requires
        ready(ctx, c, ty, old(run)),
    ensures
        evaluated(ctx, c, old(run), final(run)),
{
    match ty {
        CompType::Not => gates::not(c, ctx, run),
        CompType::And => gates::and(c, ctx, run),
        CompType::Or => gates::or(c, ctx, run),
        CompType::Xor => gates::xor(c, ctx, run),
        CompType::Delay => gates::delay(c, ctx, run),
        CompType::Clk => clk::clk(c, ctx, run),
        CompType::HalfAdder => adders::half_adder(c, ctx, run),
        CompType::FullAdder => adders::full_adder(c, ctx, run),
        CompType::Rom => rom::rom(c, ctx, run),
        CompType::DFf => flipflops::d_ff(c, ctx, run),
        CompType::JkFf => flipflops::jk_ff(c, ctx, run),
        CompType::SrFf => flipflops::sr_ff(c, ctx, run),
        CompType::Rng => rng::rng(c, ctx, run),
        CompType::Ram => ram::ram(c, ctx, run),
        CompType::Decoder => selectors::decoder(c, ctx, run),
        CompType::Encoder => selectors::encoder(c, ctx, run),
        CompType::Mux => selectors::mux(c, ctx, run),
        CompType::Demux => selectors::demux(c, ctx, run),
        CompType::UserInput => user_input::user_input(c, ctx, run),
        CompType::LedMatrix => led_matrix::led_matrix(c, ctx, run),
    }
}

/// The states after the components in `dirty` have been evaluated once each.
pub open spec fn stepped(ctx: &TickCtx, dirty: Set<u32>, states: Seq<PartState>) -> Seq<PartState> {
    machine::stepped(ctx.board@, ctx.link_state@, ctx.tick, dirty, states)
}

/// From the states `s0` and the schedule `w0` the components in `dirty` have been evaluated.
pub open spec fn computed(
    ctx: &TickCtx,
    dirty: Set<u32>,
    s0: Seq<PartState>,
    w0: Seq<u32>,
    run: &RunState,
) -> bool {
    &&& run.wf(ctx.board)
    &&& run.sane(ctx.board)
    &&& run.states(ctx.board) == stepped(ctx, dirty, s0)
    &&& run.writes() == w0.to_set().union(
        state::moved_any(ctx.board@, s0, run.states(ctx.board)),
    )
    &&& run.write_buf@.len() == w0.len() + state::flipped_all(
        ctx.board@,
        s0,
        run.states(ctx.board),
    )
}

/// Nothing evaluated yet: a starting point for [`computed`].
pub proof fn lemma_nothing_computed(ctx: &TickCtx, run: &RunState)
    requires
        run.wf(ctx.board),
        run.sane(ctx.board),
    ensures
        computed(ctx, Set::empty(), run.states(ctx.board), run.write_buf@, run),
{
    let s0 = run.states(ctx.board);
    assert(stepped(ctx, Set::empty(), s0) =~= s0);
    assert(run.writes().union(state::moved_any(ctx.board@, s0, s0)) =~= run.writes());
    state::lemma_flipped_none(ctx.board@, s0, s0, ctx.board@.parts.len() as int);
}

/// Evaluating one more component, whether or not it was evaluated before.
pub proof fn lemma_computed_more(
    ctx: &TickCtx,
    dirty: Set<u32>,
    s0: Seq<PartState>,
    w0: Seq<u32>,
    a: &RunState,
    b: &RunState,
    c: u32,
)
    requires
        ctx.wf(),
        c < ctx.board.comp_count,
        s0.len() == ctx.board.comp_count,
        forall|k: int|
            0 <= k < ctx.board.comp_count ==> ctx.board.part(k).sane(#[trigger] s0[k]),
        computed(ctx, dirty, s0, w0, a),
        evaluated(ctx, c, a, b),
    ensures
        computed(ctx, dirty.insert(c), s0, w0, b),
{
    let board = ctx.board;
    let net = board@;
    let part = board.part(c as int);
    let sa = a.states(board);
    let sb = b.states(board);
    assert(net.parts[c as int].valid());
    assert(sa[c as int] == a.state(board, c as int));
    behavior::lemma_step_sane(part, c, ctx.ins(c as int), ctx.tick, sa[c as int]);
    assert(part.sane(s0[c as int]));
    behavior::law_step_idempotent(part, c, ctx.ins(c as int), ctx.tick, s0[c as int]);
    assert(sb =~= stepped(ctx, dirty.insert(c), s0));
    assert forall|k: int| 0 <= k < board.comp_count implies board.part(k).sane(
        #[trigger] b.state(board, k),
    ) by {
        assert(sb[k] == b.state(board, k));
        assert(sa[k] == a.state(board, k));
    }
    let ma = state::moved_any(net, s0, sa);
    let mb = state::moved_any(net, s0, sb);
    let m = state::moved(part, sa[c as int], sb[c as int]);
    assert(sb[c as int] == b.state(board, c as int));
    assert forall|l: u32| mb.contains(l) <==> ma.contains(l) || m.contains(l) by {
        if mb.contains(l) {
            let k = choose|k: int|
                0 <= k < net.parts.len() && #[trigger] state::moved(
                    net.parts[k],
                    s0[k],
                    sb[k],
                ).contains(l);
            if k != c {
                assert(state::moved(net.parts[k], s0[k], sa[k]).contains(l));
            } else if dirty.contains(c) {
                assert(sa[k] == sb[k]);
                assert(state::moved(net.parts[k], s0[k], sa[k]).contains(l));
            }
        }
        if ma.contains(l) {
            let k = choose|k: int|
                0 <= k < net.parts.len() && #[trigger] state::moved(
                    net.parts[k],
                    s0[k],
                    sa[k],
                ).contains(l);
            if k == c && !dirty.contains(c) {
                assert(sa[k] == s0[k]);
            }
            assert(state::moved(net.parts[k], s0[k], sb[k]).contains(l));
        }
        if m.contains(l) {
            if dirty.contains(c) {
                assert(sa[c as int] == sb[c as int]);
            } else {
                assert(sa[c as int] == s0[c as int]);
            }
            assert(state::moved(net.parts[c as int], s0[c as int], sb[c as int]).contains(l));
        }
    }
    assert(b.writes() =~= w0.to_set().union(mb));
    if dirty.contains(c) {
        assert(sa[c as int] == sb[c as int]);
        assert(sb =~= sa);
        state::lemma_differing_none(sa[c as int].outs, part.outputs.len() as int);
    } else {
        assert(sa[c as int] == s0[c as int]);
        state::lemma_flipped_update(
            net,
            s0,
            sa,
            c as int,
            sb[c as int],
            net.parts.len() as int,
        );
    }
}

/// Evaluate every component of type `ty` in `dirty`. A component may be listed more than once, and
/// the order does not matter.
pub(crate) fn dispatch_compute(
    ty: CompType,
    dirty: &[u32],
    ctx: &TickCtx,
    run: &mut RunState,
    Ghost(before): Ghost<Set<u32>>,
    Ghost(s0): Ghost<Seq<PartState>>,
    Ghost(w0): Ghost<Seq<u32>>,
)
    requires
        ctx.wf(),
        s0.len() == ctx.board.comp_count,
        forall|k: int|
            0 <= k < ctx.board.comp_count ==> ctx.board.part(k).sane(#[trigger] s0[k]),
        computed(ctx, before, s0, w0, old(run)),
        forall|i: int|
            0 <= i < dirty@.len() ==> #[trigger] dirty@[i] < ctx.board.comp_count
                && ctx.board.comp_ty@[dirty@[i] as int] == ty,
    ensures
        computed(ctx, before.union(dirty@.to_set()), s0, w0, final(run)),
{
    let n: usize = dirty.len();
    let ghost mut done = before;
    let mut i: usize = 0;
    while i < n
        invariant
            i <= n,
            n == dirty@.len(),
            ctx.wf(),
            s0.len() == ctx.board.comp_count,
            forall|k: int|
                0 <= k < ctx.board.comp_count ==> ctx.board.part(k).sane(#[trigger] s0[k]),
            computed(ctx, done, s0, w0, run),
            forall|k: int|
                0 <= k < dirty@.len() ==> #[trigger] dirty@[k] < ctx.board.comp_count
                    && ctx.board.comp_ty@[dirty@[k] as int] == ty,
            done == before.union(dirty@.subrange(0, i as int).to_set()),
        decreases n - i,
    {
        let c: u32 = dirty[i];
        let ghost a = *run;
        proof {
            assert(ctx.board@.parts[c as int].valid());
            assert(ctx.board.part(c as int).sane(run.state(ctx.board, c as int)));
        }
        evaluate(ty, c, ctx, run);
        proof {
            lemma_computed_more(ctx, done, s0, w0, &a, run, c);
            assert(dirty@.subrange(0, i + 1) =~= dirty@.subrange(0, i as int).push(c));
            state::lemma_push_to_set(dirty@.subrange(0, i as int), c);
            assert(done.insert(c) =~= before.union(dirty@.subrange(0, i + 1).to_set()));
            done = done.insert(c);
        }
        i = i + 1;
    }
    assert(dirty@.subrange(0, n as int) =~= dirty@);
}

/// The types are visited in the order of the numbers that stand for them in a file.
pub proof fn law_types_are_visited_by_number(a: CompType, b: CompType)
    ensures
        0 <= type_rank(a) < 20,
        type_rank(a) < type_rank(b) <==> a.number() < b.number(),
        type_rank(a) == type_rank(b) <==> a == b,
{
}

} // verus!
