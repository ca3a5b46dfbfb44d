//! What each component type does, pin by pin.
//!
//! The statements here are about the values on the pins. A number on a group of pins is given by its
//! binary digits, lowest pin first.

use vstd::prelude::*;
#[allow(unused_imports)]
use vstd::arithmetic::power2;
#[allow(unused_imports)]
use crate::arith;
#[allow(unused_imports)]
use crate::behavior::{self, PartState};
#[allow(unused_imports)]
use crate::bits;
#[allow(unused_imports)]
use crate::laws;
#[allow(unused_imports)]
use crate::netlist::Part;
#[allow(unused_imports)]
use crate::types::CompType;

verus! {

/// A number is the one its binary digits stand for.
proof fn lemma_word_of_digits(s: Seq<bool>, a: nat)
    requires
        a < power2::pow2(s.len()),
        forall|i: int|
            0 <= i < s.len() ==> #[trigger] s[i] == ((a / power2::pow2(i as nat)) % 2 == 1),
    ensures
        behavior::word(s) == a,
    decreases s.len(),
{
    arith::lemma_small_powers();
    if s.len() > 0 {
        let low = s.drop_last();
        let k = (s.len() - 1) as nat;
        let p = power2::pow2(k);
        power2::lemma_pow2_pos(k);
        power2::lemma_pow2_unfold(s.len());
        assert(power2::pow2(s.len()) == 2 * p);
        let q = a / p;
        let r = a % p;
        assert(a == q * p + r && r < p && q < 2) by (nonlinear_arith)
            requires
                p > 0,
                a < 2 * p,
                q == a / p,
                r == a % p,
        ;
        assert(s[k as int] == (q % 2 == 1));
        assert forall|i: int| 0 <= i < low.len() implies #[trigger] low[i] == ((r / power2::pow2(
            i as nat,
        )) % 2 == 1) by {
            assert(low[i] == s[i]);
            lemma_low_digit(a, q, r, i as nat, k);
        }
        lemma_word_of_digits(low, r);
        assert(q == 0 ==> q * p == 0) by (nonlinear_arith);
        assert(q == 1 ==> q * p == p) by (nonlinear_arith);
    }
}

/// Adding a multiple of a higher power of two changes no lower digit.
proof fn lemma_low_digit(a: nat, q: nat, r: nat, i: nat, k: nat)
    requires
        i < k,
        a == q * power2::pow2(k) + r,
    ensures
        (a / power2::pow2(i)) % 2 == (r / power2::pow2(i)) % 2,
{
    power2::lemma_pow2_pos(i);
    power2::lemma_pow2_adds(i, (k - i) as nat);
    power2::lemma_pow2_unfold((k - i) as nat);
    let p = power2::pow2(i);
    let h = power2::pow2((k - i - 1) as nat);
    assert(q * power2::pow2(k) == p * (2 * (q * h))) by (nonlinear_arith)
        requires
            power2::pow2(k) == p * (2 * h),
    ;
    let e = 2 * (q * h);
    assert((p * e + r) / p == e + r / p) by (nonlinear_arith)
        requires
            p > 0,
            r >= 0,
    ;
}

/// Two groups of pins with the same number on them are alike.
proof fn lemma_word_injective(s: Seq<bool>, t: Seq<bool>)
    requires
        s.len() == t.len(),
        behavior::word(s) == behavior::word(t),
    ensures
        s == t,
{
    assert forall|i: int| 0 <= i < s.len() implies s[i] == t[i] by {
        laws::law_digits_of_word(s, i);
        laws::law_digits_of_word(t, i);
    }
    assert(s =~= t);
}

/// A NOT drives the inverse of its input, a delay its input; an AND is high when every input is, an OR
/// when some input is.
pub proof fn law_gates(part: Part, id: u32, ins: Seq<bool>, tick: u64, st: PartState)
    requires
        part.valid(),
        ins.len() == part.inputs.len(),
    ensures
        ({
            let out = part.step(id, ins, tick, st).outs;
            &&& part.ty == CompType::Not ==> out.len() == 1 && out[0] != ins[0]
            &&& part.ty == CompType::Delay ==> out.len() == 1 && out[0] == ins[0]
            &&& part.ty == CompType::And ==> out.len() == 1 && (out[0] <==> forall|i: int|
                0 <= i < ins.len() ==> #[trigger] ins[i])
            &&& part.ty == CompType::Or ==> out.len() == 1 && (out[0] <==> exists|i: int|
                0 <= i < ins.len() && #[trigger] ins[i])
        }),
{
}

/// Inverting one entry changes the number of set ones by one.
proof fn lemma_ones_flip(s: Seq<bool>, p: int)
    requires
        0 <= p < s.len(),
    ensures
        behavior::ones(s.update(p, !s[p])) == behavior::ones(s) + (if s[p] {
            -1int
        } else {
            1int
        }),
    decreases s.len(),
{
    let t = s.update(p, !s[p]);
    if p == s.len() - 1 {
        assert(t.drop_last() =~= s.drop_last());
    } else {
        lemma_ones_flip(s.drop_last(), p);
        assert(t.drop_last() =~= s.drop_last().update(p, !s[p]));
    }
}

/// Inverting any one input of an XOR inverts its output.
pub proof fn law_xor_follows_every_input(
    part: Part,
    id: u32,
    ins: Seq<bool>,
    tick: u64,
    st: PartState,
    p: int,
)
    requires
        part.valid(),
        part.ty == CompType::Xor,
        ins.len() == part.inputs.len(),
        0 <= p < ins.len(),
    ensures
        part.step(id, ins, tick, st).outs.len() == 1,
        part.step(id, ins.update(p, !ins[p]), tick, st).outs[0] != part.step(
            id,
            ins,
            tick,
            st,
        ).outs[0],
{
    lemma_ones_flip(ins, p);
}

/// With every input low, an XOR is low.
pub proof fn law_xor_of_low_is_low(part: Part, id: u32, ins: Seq<bool>, tick: u64, st: PartState)
    requires
        part.valid(),
        part.ty == CompType::Xor,
        forall|i: int| 0 <= i < ins.len() ==> !#[trigger] ins[i],
    ensures
        !part.step(id, ins, tick, st).outs[0],
{
    behavior::lemma_ones_low(ins);
}

/// The sum output of an adder is high when an odd number of its inputs is, the carry when two or more
/// are.
pub proof fn law_adder_outputs(part: Part, id: u32, ins: Seq<bool>, tick: u64, st: PartState)
    requires
        part.valid(),
        ins.len() == part.inputs.len(),
    ensures
        ({
            let out = part.step(id, ins, tick, st).outs;
            &&& part.ty == CompType::HalfAdder ==> {
                &&& out.len() == 2
                &&& out[0] == (ins[0] != ins[1])
                &&& out[1] == (ins[0] && ins[1])
            }
            &&& part.ty == CompType::FullAdder ==> {
                &&& out.len() == 2
                &&& out[0] == ((ins[0] != ins[1]) != ins[2])
                &&& out[1] == ((ins[0] && ins[1]) || (ins[0] && ins[2]) || (ins[1] && ins[2]))
            }
        }),
{
}

/// On a rising clock a D flip-flop takes its data input.
pub proof fn law_d_flip_flop(part: Part, id: u32, ins: Seq<bool>, tick: u64, st: PartState)
    requires
        part.valid(),
        part.ty == CompType::DFf,
        ins.len() == 2,
        ins[1] && !st.edge,
    ensures
        part.step(id, ins, tick, st).outs == seq![ins[0], !ins[0]],
        part.step(id, ins, tick, st).edge,
{
}

/// On a rising clock a JK flip-flop is set by J, reset by K, toggled by both and held by neither.
pub proof fn law_jk_flip_flop(part: Part, id: u32, ins: Seq<bool>, tick: u64, st: PartState)
    requires
        part.valid(),
        part.ty == CompType::JkFf,
        part.sane(st),
        ins.len() == 3,
        ins[1] && !st.edge,
    ensures
        ({
            let out = part.step(id, ins, tick, st).outs;
            &&& out.len() == 2
            &&& ins[0] && !ins[2] ==> out[0] && !out[1]
            &&& !ins[0] && ins[2] ==> !out[0] && out[1]
            &&& ins[0] && ins[2] ==> out[0] != st.outs[0] && out[1] != st.outs[1]
            &&& !ins[0] && !ins[2] ==> out[0] == st.outs[0] && out[1] == st.outs[1]
            &&& part.step(id, ins, tick, st).edge
        }),
{
}

/// On a rising enable an SR flip-flop is set by S, whatever R is, reset by R alone and held by
/// neither.
pub proof fn law_sr_flip_flop(part: Part, id: u32, ins: Seq<bool>, tick: u64, st: PartState)
    requires
        part.valid(),
        part.ty == CompType::SrFf,
        part.sane(st),
        ins.len() == 3,
        ins[1] && !st.edge,
    ensures
        ({
            let out = part.step(id, ins, tick, st).outs;
            &&& out.len() == 2
            &&& ins[0] ==> out[0] && !out[1]
            &&& !ins[0] && ins[2] ==> !out[0] && out[1]
            &&& !ins[0] && !ins[2] ==> out[0] == st.outs[0] && out[1] == st.outs[1]
            &&& part.step(id, ins, tick, st).edge
        }),
{
}

/// Without a rising clock a flip-flop holds its outputs, and it has seen the level of its clock. The
/// clock of a flip-flop is its second input, that of a memory or display its last.
pub proof fn law_nothing_happens_without_a_rising_clock(
    part: Part,
    id: u32,
    ins: Seq<bool>,
    tick: u64,
    st: PartState,
    clock: int,
)
    requires
        part.valid(),
        ins.len() == part.inputs.len(),
        part.ty == CompType::DFf || part.ty == CompType::JkFf || part.ty == CompType::SrFf ==> clock
            == 1,
        part.ty == CompType::Ram || part.ty == CompType::LedMatrix ==> clock == ins.len() - 1,
        part.ty == CompType::DFf || part.ty == CompType::JkFf || part.ty == CompType::SrFf
            || part.ty == CompType::Ram || part.ty == CompType::LedMatrix,
    ensures
        part.step(id, ins, tick, st).edge == ins[clock],
        !ins[clock] || st.edge ==> part.step(id, ins, tick, st) == (PartState {
            edge: ins[clock],
            ..st
        }),
{
}

/// A clock whose input is high is stopped and low; otherwise it runs and its output is left alone.
pub proof fn law_clock_is_stopped_by_its_input(
    part: Part,
    id: u32,
    ins: Seq<bool>,
    tick: u64,
    st: PartState,
)
    requires
        part.valid(),
        part.ty == CompType::Clk,
        part.sane(st),
        ins.len() == 1,
    ensures
        ({
            let next = part.step(id, ins, tick, st);
            &&& next.running != ins[0]
            &&& ins[0] ==> next.outs.len() == 1 && !next.outs[0]
            &&& !ins[0] ==> next.outs == st.outs
            &&& next.count == st.count
        }),
{
}

/// Between ticks a running clock that is high falls; one that is low counts, and rises with the count
/// it has been told. A stopped clock and any other component are left alone.
pub proof fn law_clock_counts_to_its_period(part: Part, st: PartState)
    requires
        part.valid(),
        part.sane(st),
    ensures
        part.ty != CompType::Clk ==> part.beat(st) == st,
        part.ty == CompType::Clk ==> {
            let next = part.beat(st);
            &&& next.running == st.running
            &&& !st.running ==> next == st
            &&& st.running && st.outs[0] ==> !next.outs[0] && next.count == st.count
            &&& st.running && !st.outs[0] ==> {
                &&& next.outs[0] <==> st.count == part.param - 1
                &&& next.outs[0] ==> next.count == 0
                &&& !next.outs[0] ==> next.count == st.count + 1
            }
        },
{
}

/// The bits of a byte are its binary digits.
pub proof fn lemma_byte_digit(b: u8, k: int)
    requires
        0 <= k < 8,
    ensures
        bits::bit8(b, k) == ((b as nat / power2::pow2(k as nat)) % 2 == 1),
{
    power2::lemma2_to64();
    let s = k as u8;
    let p: u8 = 1u8 << s;
    assert((b >> s) & 1 == (b >> s) % 2) by (bit_vector);
    vstd::bits::lemma_u8_shr_is_div(b, s);
}

/// The bits of a word are its binary digits.
pub proof fn lemma_word_digit(w: u64, k: int)
    requires
        0 <= k < 64,
    ensures
        bits::bit64(w, k) == ((w as nat / power2::pow2(k as nat)) % 2 == 1),
{
    let s = k as u64;
    assert((w >> s) & 1 == (w >> s) % 2) by (bit_vector);
    vstd::bits::lemma_u64_shr_is_div(w, s);
}

/// With address `a` on its inputs a ROM shows its word `a`: output `i` is bit `a * n + i` of its
/// bytes, counted from the lowest bit of the first one, where `n` is the number of outputs.
pub proof fn law_rom_looks_its_word_up(
    part: Part,
    id: u32,
    ins: Seq<bool>,
    tick: u64,
    st: PartState,
    a: nat,
    i: int,
)
    requires
        part.valid(),
        part.ty == CompType::Rom,
        ins.len() == part.inputs.len(),
        a < power2::pow2(ins.len()),
        forall|p: int|
            0 <= p < ins.len() ==> #[trigger] ins[p] == ((a / power2::pow2(p as nat)) % 2 == 1),
        0 <= i < part.outputs.len(),
    ensures
        part.step(id, ins, tick, st).outs.len() == part.outputs.len(),
        ({
            let k = a * part.outputs.len() + i;
            &&& 0 <= k / 8 < part.rom.len()
            &&& part.step(id, ins, tick, st).outs[i] == ((part.rom[k / 8] as nat / power2::pow2(
                (k % 8) as nat,
            )) % 2 == 1)
        }),
{
    lemma_word_of_digits(ins, a);
    let n = part.outputs.len();
    behavior::lemma_in_memory(a, ins.len(), n);
    let k = a * n + i;
    assert(0 <= a * n) by (nonlinear_arith);
    lemma_byte_digit(part.rom[k / 8], k % 8);
}

/// With number `a` on its inputs a decoder holds output `a` high and every other one low.
pub proof fn law_decoder_selects(
    part: Part,
    id: u32,
    ins: Seq<bool>,
    tick: u64,
    st: PartState,
    a: nat,
    i: int,
)
    requires
        part.valid(),
        part.ty == CompType::Decoder,
        ins.len() == part.inputs.len(),
        a < power2::pow2(ins.len()),
        forall|p: int|
            0 <= p < ins.len() ==> #[trigger] ins[p] == ((a / power2::pow2(p as nat)) % 2 == 1),
        0 <= i < part.outputs.len(),
    ensures
        part.step(id, ins, tick, st).outs.len() == part.outputs.len(),
        part.step(id, ins, tick, st).outs[i] <==> i == a,
{
    lemma_word_of_digits(ins, a);
}

/// The highest set entry of a list that has one.
proof fn lemma_highest(s: Seq<bool>, h: int, n: int)
    requires
        0 <= h < n <= s.len(),
        h > 0 ==> s[h],
        forall|j: int| h < j < n ==> !#[trigger] s[j],
    ensures
        behavior::highest(s, n) == h,
    decreases n,
{
    if n > 1 && h < n - 1 {
        assert(!s[n - 1]);
        lemma_highest(s, h, n - 1);
    }
}

/// With `h` its highest input that is high, or 0 if none is, an encoder shows the number `h`: its
/// outputs are the binary digits of it.
pub proof fn law_encoder_numbers_its_highest_input(
    part: Part,
    id: u32,
    ins: Seq<bool>,
    tick: u64,
    st: PartState,
    h: int,
    i: int,
)
    requires
        part.valid(),
        part.ty == CompType::Encoder,
        ins.len() == part.inputs.len(),
        0 <= h < ins.len(),
        h > 0 ==> ins[h],
        forall|j: int| h < j < ins.len() ==> !#[trigger] ins[j],
        0 <= i < part.outputs.len(),
    ensures
        part.step(id, ins, tick, st).outs.len() == part.outputs.len(),
        part.step(id, ins, tick, st).outs[i] == ((h as nat / power2::pow2(i as nat)) % 2 == 1),
{
    lemma_highest(ins, h, ins.len() as int);
}

/// With number `a` on its select inputs, which come first, a multiplexer shows data input `a`.
pub proof fn law_mux_selects(
    part: Part,
    id: u32,
    ins: Seq<bool>,
    tick: u64,
    st: PartState,
    a: nat,
)
    requires
        part.valid(),
        part.ty == CompType::Mux,
        ins.len() == part.inputs.len(),
        a < power2::pow2(part.param as nat),
        forall|p: int|
            0 <= p < part.param ==> #[trigger] ins[p] == ((a / power2::pow2(p as nat)) % 2 == 1),
    ensures
        part.step(id, ins, tick, st).outs.len() == 1,
        part.step(id, ins, tick, st).outs[0] == ins[part.param + a],
{
    lemma_word_of_digits(ins.subrange(0, part.param), a);
}

/// With number `a` on its select inputs, which follow the data input, a demultiplexer shows the data
/// on output `a` and holds every other output low.
pub proof fn law_demux_selects(
    part: Part,
    id: u32,
    ins: Seq<bool>,
    tick: u64,
    st: PartState,
    a: nat,
    i: int,
)
    requires
        part.valid(),
        part.ty == CompType::Demux,
        ins.len() == part.inputs.len(),
        a < power2::pow2((ins.len() - 1) as nat),
        forall|p: int|
            1 <= p < ins.len() ==> #[trigger] ins[p] == ((a / power2::pow2((p - 1) as nat)) % 2
                == 1),
        0 <= i < part.outputs.len(),
    ensures
        part.step(id, ins, tick, st).outs.len() == part.outputs.len(),
        part.step(id, ins, tick, st).outs[i] == (i == a && ins[0]),
{
    let sel = ins.subrange(1, ins.len() as int);
    assert forall|p: int| 0 <= p < sel.len() implies #[trigger] sel[p] == ((a / power2::pow2(
        p as nat,
    )) % 2 == 1) by {
        assert(sel[p] == ins[p + 1]);
    }
    lemma_word_of_digits(sel, a);
}

/// An evaluation leaves a user input alone.
pub proof fn law_user_input_is_left_alone(
    part: Part,
    id: u32,
    ins: Seq<bool>,
    tick: u64,
    st: PartState,
)
    requires
        part.ty == CompType::UserInput,
    ensures
        part.step(id, ins, tick, st) == st,
{
}

/// With row `a` on its address inputs, a LED matrix takes its data inputs into the LEDs of row `a` on a
/// rising clock, whatever they showed, and leaves every other LED alone. Address, data and clock
/// follow each other, and a row is as wide as the data.
pub proof fn law_led_matrix_takes_a_row(
    part: Part,
    id: u32,
    ins: Seq<bool>,
    tick: u64,
    st: PartState,
    a: nat,
    i: int,
)
    requires
        part.valid(),
        part.ty == CompType::LedMatrix,
        part.sane(st),
        ins.len() == part.inputs.len(),
        ins[ins.len() - 1] && !st.edge,
        a < power2::pow2((ins.len() - part.param - 1) as nat),
        forall|p: int|
            0 <= p < ins.len() - part.param - 1 ==> #[trigger] ins[p] == ((a / power2::pow2(
                p as nat,
            )) % 2 == 1),
        0 <= i < part.outputs.len(),
    ensures
        part.step(id, ins, tick, st).outs.len() == part.outputs.len(),
        part.step(id, ins, tick, st).outs[i] == (if i / part.param == a {
            ins[ins.len() - part.param - 1 + i % part.param]
        } else {
            st.outs[i]
        }),
        part.step(id, ins, tick, st).edge,
{
    let w = part.param;
    lemma_word_of_digits(ins.subrange(0, part.addr_width()), a);
    assert(a * w <= i < a * w + w <==> i / w == a) by (nonlinear_arith)
        requires
            w == 4 || w == 8,
            i >= 0,
            a >= 0,
    ;
    assert(i / w == a ==> i - a * w == i % w) by (nonlinear_arith)
        requires
            w == 4 || w == 8,
            i >= 0,
    ;
}

/// On a rising clock with write enable, the word on the data inputs of a RAM shows on its outputs.
/// Address, data, write enable and clock follow each other.
pub proof fn law_ram_shows_what_it_writes(
    part: Part,
    id: u32,
    ins: Seq<bool>,
    tick: u64,
    st: PartState,
    i: int,
)
    requires
        part.valid(),
        part.ty == CompType::Ram,
        part.sane(st),
        ins.len() == part.inputs.len(),
        ins[ins.len() - 1] && !st.edge,
        ins[ins.len() - 2],
        0 <= i < part.outputs.len(),
    ensures
        part.step(id, ins, tick, st).outs.len() == part.outputs.len(),
        part.step(id, ins, tick, st).outs[i] == ins[ins.len() - 2 - part.outputs.len() + i],
        part.step(id, ins, tick, st).edge,
{
}

/// After a write, a read with the same level on every address input shows the word written. A read
/// with another level on any address input shows what it would have shown before.
pub proof fn law_ram_keeps_addresses_apart(
    part: Part,
    id: u32,
    write: Seq<bool>,
    read: Seq<bool>,
    tick: u64,
    later: u64,
    st: PartState,
)
    requires
        part.valid(),
        part.ty == CompType::Ram,
        part.sane(st),
        write.len() == part.inputs.len(),
        read.len() == part.inputs.len(),
        !st.edge,
        write[write.len() - 1] && write[write.len() - 2],
        read[read.len() - 1] && !read[read.len() - 2],
    ensures
        ({
            let width = part.inputs.len() - part.outputs.len() - 2;
            // The clock falls between the two.
            let written = PartState { edge: false, ..part.step(id, write, tick, st) };
            let before = part.step(id, read, later, st).outs;
            let after = part.step(id, read, later, written).outs;
            &&& after.len() == part.outputs.len()
            &&& (forall|p: int| 0 <= p < width ==> #[trigger] read[p] == write[p]) ==> forall|i: int|
                0 <= i < part.outputs.len() ==> #[trigger] after[i] == write[width + i]
            &&& (exists|p: int| 0 <= p < width && #[trigger] read[p] != write[p]) ==> after
                == before
        }),
{
    let width = part.addr_width();
    let a = write.subrange(0, width);
    let b = read.subrange(0, width);
    laws::law_ram_reads_back_what_was_written(part, id, write, read, tick, later, st);
    let n = part.outputs.len();
    let written = PartState { edge: false, ..part.step(id, write, tick, st) };
    let after = part.step(id, read, later, written).outs;
    let data = write.subrange(width, width + n);
    behavior::lemma_word_bound(b);
    behavior::lemma_in_memory(part.addr(read), width as nat, n);
    if forall|p: int| 0 <= p < width ==> #[trigger] read[p] == write[p] {
        assert(a =~= b);
        assert(after == data);
        assert forall|i: int| 0 <= i < n implies #[trigger] after[i] == write[width + i] by {
            assert(data[i] == write[width + i]);
        }
    }
    if exists|p: int| 0 <= p < width && #[trigger] read[p] != write[p] {
        let p = choose|p: int| 0 <= p < width && #[trigger] read[p] != write[p];
        assert(a[p] != b[p]);
        if behavior::word(a) == behavior::word(b) {
            lemma_word_injective(a, b);
        }
    }
}

/// A read leaves the memory of a RAM as it is.
pub proof fn law_ram_reads_do_not_write(
    part: Part,
    id: u32,
    ins: Seq<bool>,
    tick: u64,
    st: PartState,
)
    requires
        part.valid(),
        part.ty == CompType::Ram,
        part.sane(st),
        ins.len() == part.inputs.len(),
        !ins[ins.len() - 2],
    ensures
        part.step(id, ins, tick, st).mem == st.mem,
{
}

/// A RAM that nothing has been written to shows low at every address.
pub proof fn law_ram_starts_low(
    part: Part,
    id: u32,
    ins: Seq<bool>,
    tick: u64,
    i: int,
)
    requires
        part.valid(),
        part.ty == CompType::Ram,
        ins.len() == part.inputs.len(),
        ins[ins.len() - 1] && !ins[ins.len() - 2],
        0 <= i < part.outputs.len(),
    ensures
        !part.step(id, ins, tick, part.seeded()).outs[i],
{
    let n = part.outputs.len();
    behavior::lemma_word_bound(ins.subrange(0, part.addr_width()));
    behavior::lemma_in_memory(part.addr(ins), part.addr_width() as nat, n);
}

/// Before they have seen any input, a NOT and the inverse output of a flip-flop are high, and so is the
/// first output of a decoder; every other output is low. A clock runs and has counted nothing.
pub proof fn law_outputs_before_any_input(part: Part, p: int)
    requires
        part.valid(),
        0 <= p < part.outputs.len(),
    ensures
        ({
            let st = part.seeded();
            let inverse = part.ty == CompType::DFf || part.ty == CompType::JkFf || part.ty
                == CompType::SrFf;
            &&& st.outs.len() == part.outputs.len()
            &&& st.outs[p] == (part.ty == CompType::Not || (part.ty == CompType::Decoder && p == 0)
                || (inverse && p == 1))
            &&& !st.edge
            &&& st.running == (part.ty == CompType::Clk)
            &&& st.count == 0
        }),
{
    arith::lemma_pow2_monotone(0, part.inputs.len());
}

/// The inverse of the mixing function: two multiplications by the inverses of its factors, between
/// shifts that undo its own.
pub open spec fn unmixed(x: u64) -> u64 {
    let c = x ^ (x >> 31) ^ (x >> 62);
    let d = c.wrapping_mul(0x3196_42B2_D24D_8EC3);
    let b = d ^ (d >> 27) ^ (d >> 54);
    let e = b.wrapping_mul(0x96DE_1B17_3F11_9089);
    let a = e ^ (e >> 30) ^ (e >> 60);
    a.wrapping_sub(0x9E37_79B9_7F4A_7C15)
}

/// Multiplying by a number and then by its inverse.
proof fn lemma_mul_undone(x: u64, f: u64, g: u64, q: nat)
    requires
        f * g == q * 0x1_0000_0000_0000_0000 + 1,
    ensures
        x.wrapping_mul(f).wrapping_mul(g) == x,
{
    let m: int = 0x1_0000_0000_0000_0000;
    let y = x.wrapping_mul(f);
    assert(y == (x * f) % m);
    assert(y.wrapping_mul(g) == (y * g) % m);
    vstd::arithmetic::div_mod::lemma_mul_mod_noop_left(x * f, g as int, m);
    assert((x * f) * g == x * (f * g)) by (nonlinear_arith);
    assert(x * (q * m + 1) == (x * q) * m + x) by (nonlinear_arith);
    vstd::arithmetic::div_mod::lemma_mod_multiples_vanish(x * q, x as int, m);
    assert((m * (x * q) + x) == (x * q) * m + x) by (nonlinear_arith);
    vstd::arithmetic::div_mod::lemma_small_mod(x as nat, m as nat);
}

/// The mixing function can be undone, so no two numbers are mixed alike.
pub proof fn law_mixing_can_be_undone(x: u64)
    ensures
        unmixed(behavior::mix(x)) == x,
{
    let a = x.wrapping_add(0x9E37_79B9_7F4A_7C15);
    let s = a ^ (a >> 30);
    let b = s.wrapping_mul(0xBF58_476D_1CE4_E5B9);
    let t = b ^ (b >> 27);
    let c = t.wrapping_mul(0x94D0_49BB_1331_11EB);
    let r = c ^ (c >> 31);
    assert(behavior::mix(x) == r);
    assert(r ^ (r >> 31) ^ (r >> 62) == c) by (bit_vector)
        requires
            r == c ^ (c >> 31),
    ;
    lemma_mul_undone(t, 0x94D0_49BB_1331_11EB, 0x3196_42B2_D24D_8EC3, 2077064247507883091);
    assert(t ^ (t >> 27) ^ (t >> 54) == b) by (bit_vector)
        requires
            t == b ^ (b >> 27),
    ;
    lemma_mul_undone(s, 0xBF58_476D_1CE4_E5B9, 0x96DE_1B17_3F11_9089, 8125545580553827436);
    assert(s ^ (s >> 30) ^ (s >> 60) == a) by (bit_vector)
        requires
            s == a ^ (a >> 30),
    ;
    assert(a.wrapping_sub(0x9E37_79B9_7F4A_7C15) == x);
}

/// From a word that component `id` draws at a tick, the number of the word and the tick, the component
/// can be told: nothing else has gone into the word.
pub proof fn law_drawn_words_tell_their_source(id: u32, tick: u64, k: u64)
    ensures
        ({
            let seeds = unmixed(behavior::drawn_word(id, tick, k)) ^ k;
            unmixed(seeds ^ behavior::mix(tick)) == 0x1234_5678_9ABC_DEF0 ^ (id as u64)
        }),
{
    let source = behavior::mix(behavior::BOARD_SEED ^ (id as u64));
    let at = behavior::mix(tick);
    let mixed = (source ^ at) ^ k;
    law_mixing_can_be_undone(mixed);
    assert((mixed ^ k) ^ at == source) by (bit_vector)
        requires
            mixed == (source ^ at) ^ k,
    ;
    law_mixing_can_be_undone(behavior::BOARD_SEED ^ (id as u64));
}

/// An enabled random source shows on output `i` digit `i % 64` of word `i / 64` that it draws at the
/// tick; one that is not enabled holds.
pub proof fn law_random_source_draws(
    part: Part,
    id: u32,
    ins: Seq<bool>,
    tick: u64,
    st: PartState,
    i: int,
)
    requires
        part.valid(),
        part.ty == CompType::Rng,
        ins.len() == 1,
        0 <= i < part.outputs.len(),
    ensures
        !ins[0] ==> part.step(id, ins, tick, st) == st,
        ins[0] ==> part.step(id, ins, tick, st).outs.len() == part.outputs.len(),
        ins[0] ==> part.step(id, ins, tick, st).outs[i] == ((behavior::drawn_word(
            id,
            tick,
            (i / 64) as u64,
        ) as nat / power2::pow2((i % 64) as nat)) % 2 == 1),
{
    lemma_word_digit(behavior::drawn_word(id, tick, (i / 64) as u64), i % 64);
}

/// Inverting one value changes the number of high ones by one, up if it was low and down if it was high;
/// among low values there are none.
pub proof fn law_high_values_are_counted(s: Seq<bool>, p: int)
    requires
        0 <= p < s.len(),
    ensures
        !s[p] ==> behavior::ones(s.update(p, true)) == behavior::ones(s) + 1,
        s[p] ==> behavior::ones(s.update(p, false)) == behavior::ones(s) - 1,
        (forall|i: int| 0 <= i < s.len() ==> !#[trigger] s[i]) ==> behavior::ones(s) == 0,
{
    lemma_ones_flip(s, p);
    if forall|i: int| 0 <= i < s.len() ==> !#[trigger] s[i] {
        behavior::lemma_ones_low(s);
    }
}

/// With address `a` on its inputs, a RAM that is written to takes the data into word `a` of its memory and
/// leaves every other bit as it is; one that is read shows word `a`. Word `a` of `n` bits begins at bit
/// `a * n`.
pub proof fn law_ram_addresses_its_words(
    part: Part,
    id: u32,
    ins: Seq<bool>,
    tick: u64,
    st: PartState,
    a: nat,
    k: int,
    i: int,
)
    requires
        part.valid(),
        part.ty == CompType::Ram,
        part.sane(st),
        ins.len() == part.inputs.len(),
        ins[ins.len() - 1] && !st.edge,
        a < power2::pow2((ins.len() - part.outputs.len() - 2) as nat),
        forall|p: int|
            0 <= p < ins.len() - part.outputs.len() - 2 ==> #[trigger] ins[p] == ((a
                / power2::pow2(p as nat)) % 2 == 1),
        0 <= k < st.mem.len(),
        0 <= i < part.outputs.len(),
    ensures
        ({
            let n = part.outputs.len();
            let next = part.step(id, ins, tick, st);
            &&& 0 <= a * n + i < st.mem.len()
            &&& next.mem.len() == st.mem.len()
            &&& ins[ins.len() - 2] ==> next.mem[a * n + i] == ins[ins.len() - 2 - n + i]
            &&& ins[ins.len() - 2] && !(a * n <= k < a * n + n) ==> next.mem[k] == st.mem[k]
            &&& !ins[ins.len() - 2] ==> next.mem[k] == st.mem[k] && next.outs[i] == st.mem[a * n
                + i]
        }),
{
    let width = part.addr_width();
    let n = part.outputs.len();
    lemma_word_of_digits(ins.subrange(0, width), a);
    behavior::lemma_in_memory(a, width as nat, n);
    assert(0 <= a * n) by (nonlinear_arith);
}

} // verus!
