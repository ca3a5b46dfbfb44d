//! What each component type does: its state, its power-on state, and one evaluation.

use vstd::prelude::*;
#[allow(unused_imports)]
use vstd::arithmetic::power2;
#[allow(unused_imports)]
use crate::arith;
#[allow(unused_imports)]
use crate::bits;
use crate::netlist::Part;
#[allow(unused_imports)]
use crate::types::CompType;

verus! {

/// State of one component.
#[verifier::ext_equal]
pub struct PartState {
    /// Logical value of each output pin, before a negated pin inverts it.
    pub outs: Seq<bool>,
    /// Output a decoder or demultiplexer last selected.
    pub sel: int,
    /// Clock level an edge-triggered component last saw.
    pub edge: bool,
    /// Contents of a RAM.
    pub mem: Seq<bool>,
    /// Whether a clock is counting.
    pub running: bool,
    /// Ticks a clock has counted towards its period.
    pub count: int,
}

/// The number whose binary digits, lowest first, are `s`.
pub open spec fn word(s: Seq<bool>) -> nat
    decreases s.len(),
{
    if s.len() == 0 {
        0
    } else {
        word(s.drop_last()) + if s.last() {
            power2::pow2((s.len() - 1) as nat)
        } else {
            0
        }
    }
}

/// How many entries are set.
pub open spec fn ones(s: Seq<bool>) -> nat
    decreases s.len(),
{
    if s.len() == 0 {
        0
    } else {
        ones(s.drop_last()) + if s.last() {
            1nat
        } else {
            0
        }
    }
}

/// Every entry is set.
pub open spec fn all(s: Seq<bool>) -> bool {
    forall|i: int| 0 <= i < s.len() ==> s[i]
}

/// Some entry is set.
pub open spec fn any(s: Seq<bool>) -> bool {
    exists|i: int| 0 <= i < s.len() && s[i]
}

/// The highest set position among `1..n`, or 0 if none is set there.
pub open spec fn highest(s: Seq<bool>, n: int) -> nat
    decreases n,
{
    if n <= 1 {
        0
    } else if s[n - 1] {
        (n - 1) as nat
    } else {
        highest(s, n - 1)
    }
}

/// Binary digit `i` of `v`.
pub open spec fn digit(v: nat, i: nat) -> bool {
    (v / power2::pow2(i)) % 2 == 1
}

/// A run of `n` entries of which only `i` is set.
pub open spec fn one_hot(n: nat, i: int) -> Seq<bool> {
    Seq::new(n, |k: int| k == i)
}

/// Seed common to all random sources of a board.
pub const BOARD_SEED: u64 = 0x1234_5678_9ABC_DEF0;

/// The SplitMix64 mixing function.
pub open spec fn mix(x: u64) -> u64 {
    let a = x.wrapping_add(0x9E37_79B9_7F4A_7C15);
    let b = (a ^ (a >> 30)).wrapping_mul(0xBF58_476D_1CE4_E5B9);
    let c = (b ^ (b >> 27)).wrapping_mul(0x94D0_49BB_1331_11EB);
    c ^ (c >> 31)
}

/// The `k`-th 64 bits component `id` draws at a tick.
pub open spec fn drawn_word(id: u32, tick: u64, k: u64) -> u64 {
    mix((mix(BOARD_SEED ^ (id as u64)) ^ mix(tick)) ^ k)
}

/// The bits component `id` draws at a tick: a function of the two alone.
pub open spec fn drawn(id: u32, tick: u64, n: nat) -> Seq<bool> {
    Seq::new(n, |i: int| bits::bit64(drawn_word(id, tick, (i / 64) as u64), i % 64))
}

/// Bit `k` of a byte string.
pub open spec fn byte_bit(data: Seq<u8>, k: int) -> bool {
    bits::bit8(data[k / 8], k % 8)
}

impl PartState {
    /// Replace the outputs.
    pub open spec fn with_outs(self, outs: Seq<bool>) -> PartState {
        PartState { outs, ..self }
    }
}

impl Part {
    /// What the input pins read from the links, with negated pins inverted.
    pub open spec fn reads(self, links: Seq<bool>) -> Seq<bool> {
        Seq::new(self.inputs.len(), |p: int| links[self.inputs[p] as int] != self.neg_inputs[p])
    }

    /// What output pin `p` puts on its link.
    pub open spec fn drives(self, st: PartState, p: int) -> bool {
        st.outs[p] != self.neg_outputs[p]
    }

    /// The address on the first `n` of the given inputs.
    pub open spec fn addr(self, ins: Seq<bool>) -> nat {
        word(ins.subrange(0, self.addr_width()))
    }

    /// One evaluation of component `id` on the given inputs.
    pub open spec fn step(self, id: u32, ins: Seq<bool>, tick: u64, st: PartState) -> PartState {
        let n = self.outputs.len();
        let last = ins.len() - 1;
        match self.ty {
            CompType::Not => st.with_outs(seq![!ins[0]]),
            CompType::And => st.with_outs(seq![all(ins)]),
            CompType::Or => st.with_outs(seq![any(ins)]),
            CompType::Xor => st.with_outs(seq![ones(ins) % 2 == 1]),
            CompType::Delay => st.with_outs(seq![ins[0]]),
            CompType::Clk => if ins[0] {
                PartState { outs: seq![false], running: false, ..st }
            } else {
                PartState { running: true, ..st }
            },
            CompType::HalfAdder => st.with_outs(seq![ins[0] != ins[1], ins[0] && ins[1]]),
            CompType::FullAdder => {
                let half = ins[0] != ins[1];
                st.with_outs(seq![half != ins[2], (ins[0] && ins[1]) || (half && ins[2])])
            },
            CompType::Rom => st.with_outs(
                Seq::new(n, |i: int| byte_bit(self.rom, word(ins) * n + i)),
            ),
            CompType::DFf => if ins[1] && !st.edge {
                PartState { outs: seq![ins[0], !ins[0]], edge: true, ..st }
            } else {
                PartState { edge: ins[1], ..st }
            },
            CompType::JkFf => if ins[1] && !st.edge {
                let outs = if ins[0] && ins[2] {
                    seq![!st.outs[0], !st.outs[1]]
                } else if ins[0] {
                    seq![true, false]
                } else if ins[2] {
                    seq![false, true]
                } else {
                    st.outs
                };
                PartState { outs, edge: true, ..st }
            } else {
                PartState { edge: ins[1], ..st }
            },
            CompType::SrFf => if ins[1] && !st.edge {
                let outs = if ins[0] {
                    seq![true, false]
                } else if ins[2] {
                    seq![false, true]
                } else {
                    st.outs
                };
                PartState { outs, edge: true, ..st }
            } else {
                PartState { edge: ins[1], ..st }
            },
            CompType::Rng => if ins[0] {
                st.with_outs(drawn(id, tick, n))
            } else {
                st
            },
            CompType::Ram => if ins[last] && !st.edge {
                let at = self.addr(ins) * n;
                let data = ins.subrange(self.addr_width(), self.addr_width() + n);
                if ins[last - 1] {
                    PartState {
                        outs: data,
                        mem: Seq::new(
                            st.mem.len(),
                            |k: int|
                                if at <= k < at + n {
                                    data[k - at]
                                } else {
                                    st.mem[k]
                                },
                        ),
                        edge: true,
                        ..st
                    }
                } else {
                    PartState { outs: st.mem.subrange(at as int, (at + n) as int), edge: true, ..st }
                }
            } else {
                PartState { edge: ins[last], ..st }
            },
            CompType::Decoder => PartState {
                outs: one_hot(n, word(ins) as int),
                sel: word(ins) as int,
                ..st
            },
            CompType::Encoder => st.with_outs(
                Seq::new(n, |i: int| digit(highest(ins, ins.len() as int), i as nat)),
            ),
            CompType::Mux => st.with_outs(
                seq![ins[self.param + word(ins.subrange(0, self.param))]],
            ),
            CompType::Demux => {
                let sel = word(ins.subrange(1, ins.len() as int)) as int;
                PartState { outs: Seq::new(n, |i: int| i == sel && ins[0]), sel, ..st }
            },
            CompType::UserInput => st,
            CompType::LedMatrix => if ins[last] && !st.edge {
                let at = self.addr(ins) * self.param;
                let data = ins.subrange(self.addr_width(), self.addr_width() + self.param);
                PartState {
                    outs: Seq::new(
                        n,
                        |i: int|
                            if at <= i < at + self.param {
                                data[i - at]
                            } else {
                                st.outs[i]
                            },
                    ),
                    edge: true,
                    ..st
                }
            } else {
                PartState { edge: ins[last], ..st }
            },
        }
    }

    /// The state every component starts from: all low, clocks counting.
    pub open spec fn cleared(self) -> PartState {
        PartState {
            outs: Seq::new(self.outputs.len(), |p: int| false),
            sel: 0,
            edge: false,
            mem: Seq::new(self.mem_bits(), |k: int| false),
            running: self.ty == CompType::Clk,
            count: 0,
        }
    }

    /// The outputs a type holds before it has seen any input.
    pub open spec fn seeded(self) -> PartState {
        let st = self.cleared();
        match self.ty {
            CompType::Not => st.with_outs(seq![true]),
            CompType::DFf | CompType::JkFf | CompType::SrFf => st.with_outs(seq![false, true]),
            CompType::Decoder => st.with_outs(one_hot(self.outputs.len(), 0)),
            _ => st,
        }
    }

    /// The state at power-on: the seed, evaluated once with every link low.
    pub open spec fn power_on(self, id: u32, links: nat) -> PartState {
        self.step(id, self.reads(all_low(links)), 0, self.seeded())
    }

    /// What the section between ticks does to a clock: a high output falls, a low one rises once
    /// the period has been counted.
    pub open spec fn beat(self, st: PartState) -> PartState {
        if self.ty != CompType::Clk || !st.running {
            st
        } else if st.outs[0] {
            st.with_outs(seq![false])
        } else if st.count + 1 >= self.param {
            PartState { outs: seq![true], count: 0, ..st }
        } else {
            PartState { count: st.count + 1, ..st }
        }
    }

    /// What holds of the component's state at all times.
    pub open spec fn sane(self, st: PartState) -> bool {
        &&& st.outs.len() == self.outputs.len()
        &&& st.mem.len() == self.mem_bits()
        &&& match self.ty {
            CompType::Clk => 0 <= st.count < self.param && (!st.running ==> !st.outs[0]),
            CompType::Decoder => 0 <= st.sel < self.outputs.len() && st.outs == one_hot(
                self.outputs.len(),
                st.sel,
            ),
            CompType::Demux => 0 <= st.sel < self.outputs.len() && forall|i: int|
                0 <= i < self.outputs.len() && i != st.sel ==> !st.outs[i],
            _ => true,
        }
    }
}

/// A board's links with none powered.
pub open spec fn all_low(links: nat) -> Seq<bool> {
    Seq::new(links, |l: int| false)
}

/// A number of `n` binary digits is below `2^n`.
pub proof fn lemma_word_bound(s: Seq<bool>)
    ensures
        word(s) < power2::pow2(s.len()),
    decreases s.len(),
{
    arith::lemma_small_powers();
    if s.len() > 0 {
        lemma_word_bound(s.drop_last());
        power2::lemma_pow2_unfold(s.len());
    }
}

/// Appending the next higher digit.
pub proof fn lemma_word_push(s: Seq<bool>, b: bool)
    ensures
        word(s.push(b)) == word(s) + if b {
            power2::pow2(s.len())
        } else {
            0
        },
{
    assert(s.push(b).drop_last() =~= s);
}

/// Appending an entry to a count.
pub proof fn lemma_ones_push(s: Seq<bool>, b: bool)
    ensures
        ones(s.push(b)) == ones(s) + if b {
            1nat
        } else {
            0
        },
{
    assert(s.push(b).drop_last() =~= s);
}

/// The bits from an address on that a memory of `2^width` words of `n` bits holds.
pub proof fn lemma_in_memory(addr: nat, width: nat, n: nat)
    requires
        addr < power2::pow2(width),
    ensures
        addr * n + n <= n * power2::pow2(width),
{
    assert(addr * n + n <= n * power2::pow2(width)) by (nonlinear_arith)
        requires
            0 <= addr,
            addr + 1 <= power2::pow2(width),
            0 <= n,
    ;
}

/// An evaluation keeps a component's state sane.
pub proof fn lemma_step_sane(part: Part, id: u32, ins: Seq<bool>, tick: u64, st: PartState)
    requires
        part.valid(),
        part.sane(st),
        ins.len() == part.inputs.len(),
    ensures
        part.sane(part.step(id, ins, tick, st)),
{
    lemma_word_bound(ins);
    if part.ty == CompType::Demux {
        lemma_word_bound(ins.subrange(1, ins.len() as int));
    }
    if part.ty == CompType::Ram {
        lemma_word_bound(ins.subrange(0, part.addr_width()));
        lemma_in_memory(part.addr(ins), part.addr_width() as nat, part.outputs.len());
    }
}

/// The seed is sane, and so is the power-on state.
pub proof fn lemma_power_on_sane(part: Part, id: u32, links: nat)
    requires
        part.valid(),
    ensures
        part.sane(part.seeded()),
        part.sane(part.power_on(id, links)),
{
    arith::lemma_small_powers();
    if part.ty == CompType::Decoder {
        arith::lemma_pow2_monotone(0, part.inputs.len());
    }
    if part.ty == CompType::Demux {
        arith::lemma_pow2_monotone(0, (part.inputs.len() - 1) as nat);
    }
    assert(part.sane(part.seeded()));
    lemma_step_sane(part, id, part.reads(all_low(links)), 0, part.seeded());
}

/// The between-tick section keeps a clock's state sane.
pub proof fn lemma_beat_sane(part: Part, st: PartState)
    requires
        part.valid(),
        part.sane(st),
    ensures
        part.sane(part.beat(st)),
{
}

/// Evaluating a component a second time within a tick changes nothing, so a component may be queued
/// any number of times.
pub proof fn law_step_idempotent(part: Part, id: u32, ins: Seq<bool>, tick: u64, st: PartState)
    requires
        part.valid(),
        part.sane(st),
        ins.len() == part.inputs.len(),
    ensures
        part.step(id, ins, tick, part.step(id, ins, tick, st)) == part.step(id, ins, tick, st),
{
    let once = part.step(id, ins, tick, st);
    let twice = part.step(id, ins, tick, once);
    lemma_step_sane(part, id, ins, tick, st);
    assert(twice.outs =~= once.outs);
    assert(twice.mem =~= once.mem);
}

/// A board without negated pins powers on to its seed; only a ROM shows more, its word at address 0.
pub proof fn law_plain_power_on(part: Part, id: u32, links: nat)
    requires
        part.valid(),
        part.plain(),
        forall|p: int| 0 <= p < part.inputs.len() ==> #[trigger] part.inputs[p] < links,
    ensures
        part.power_on(id, links) == if part.ty == CompType::Rom {
            part.seeded().with_outs(
                Seq::new(part.outputs.len(), |i: int| byte_bit(part.rom, i)),
            )
        } else {
            part.seeded()
        },
{
    let ins = part.reads(all_low(links));
    let st = part.power_on(id, links);
    arith::lemma_small_powers();
    assert(forall|p: int| 0 <= p < ins.len() ==> !ins[p]);
    lemma_word_low(ins);
    lemma_highest_low(ins, ins.len() as int);
    lemma_ones_low(ins);
    match part.ty {
        CompType::Mux => {
            lemma_word_low(ins.subrange(0, part.param));
            arith::lemma_pow2_monotone(0, part.param as nat);
        },
        CompType::Demux => {
            lemma_word_low(ins.subrange(1, ins.len() as int));
        },
        _ => {},
    }
    if part.ty == CompType::Encoder {
        assert forall|i: nat| !digit(0, i) by {
            power2::lemma_pow2_pos(i);
            assert(0nat / power2::pow2(i) == 0) by (nonlinear_arith)
                requires
                    power2::pow2(i) > 0,
            ;
        }
    }
    assert(st.outs =~= if part.ty == CompType::Rom {
        Seq::new(part.outputs.len(), |i: int| byte_bit(part.rom, i))
    } else {
        part.seeded().outs
    });
}

proof fn lemma_word_low(s: Seq<bool>)
    requires
        forall|i: int| 0 <= i < s.len() ==> !s[i],
    ensures
        word(s) == 0,
    decreases s.len(),
{
    if s.len() > 0 {
        lemma_word_low(s.drop_last());
    }
}

pub proof fn lemma_ones_low(s: Seq<bool>)
    requires
        forall|i: int| 0 <= i < s.len() ==> !s[i],
    ensures
        ones(s) == 0,
    decreases s.len(),
{
    if s.len() > 0 {
        lemma_ones_low(s.drop_last());
    }
}

proof fn lemma_highest_low(s: Seq<bool>, n: int)
    requires
        n <= s.len(),
        forall|i: int| 0 <= i < s.len() ==> !s[i],
    ensures
        highest(s, n) == 0,
    decreases n,
{
    if n > 1 {
        lemma_highest_low(s, n - 1);
    }
}

} // verus!
