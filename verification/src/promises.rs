//! What callers can count on, function by function.
//!
//! Each statement is about every result that a function can give for its arguments, and about what it
//! leaves behind in those it may change.

use vstd::prelude::*;
#[allow(unused_imports)]
use vstd::arithmetic::power2;
#[allow(unused_imports)]
use crate::arith;
#[allow(unused_imports)]
use crate::behavior;
#[allow(unused_imports)]
use crate::binding::{self, Cooperative, RawBoard};
#[allow(unused_imports)]
use crate::bits;
#[allow(unused_imports)]
use crate::bitset::BitSet;
#[allow(unused_imports)]
use crate::board::{Board, BoardBuilder, BoardDescriptor};
#[allow(unused_imports)]
use crate::cli::{bench, load, run, trace, verify};
#[allow(unused_imports)]
use crate::clock;
#[allow(unused_imports)]
use crate::codec;
#[allow(unused_imports)]
use crate::components::{self, TickCtx};
#[allow(unused_imports)]
use crate::datasheet;
#[allow(unused_imports)]
use crate::error::SimError;
#[allow(unused_imports)]
use crate::machine::{self, Machine};
#[allow(unused_imports)]
use crate::netlist;
#[allow(unused_imports)]
use crate::reduce;
#[allow(unused_imports)]
use crate::session::{self, Session};
#[allow(unused_imports)]
use crate::sim::readout;
#[allow(unused_imports)]
use crate::sim::snapshot::{self, SnapshotConfig, SnapshotInfo};
#[allow(unused_imports)]
use crate::sim::{RunConfig, Simulation, Status};
#[allow(unused_imports)]
use crate::simd;
#[allow(unused_imports)]
use crate::state::RunState;
#[allow(unused_imports)]
use crate::text;
#[allow(unused_imports)]
use crate::types::{self, CompType, InputEvent, SimState};

verus! {

/// Each number is read as the type it stands for, and no other number as a type.
pub proof fn law_types_read(v: u16, r: Option<CompType>)
    requires
        call_ensures(CompType::try_from_u16, (v,), r),
    ensures
        r == Some(CompType::Not) <==> v == 1,
        r == Some(CompType::And) <==> v == 2,
        r == Some(CompType::Or) <==> v == 3,
        r == Some(CompType::Xor) <==> v == 4,
        r == Some(CompType::Delay) <==> v == 5,
        r == Some(CompType::Clk) <==> v == 6,
        r == Some(CompType::HalfAdder) <==> v == 10,
        r == Some(CompType::FullAdder) <==> v == 11,
        r == Some(CompType::Rom) <==> v == 12,
        r == Some(CompType::DFf) <==> v == 13,
        r == Some(CompType::JkFf) <==> v == 14,
        r == Some(CompType::SrFf) <==> v == 15,
        r == Some(CompType::Rng) <==> v == 16,
        r == Some(CompType::Ram) <==> v == 17,
        r == Some(CompType::Decoder) <==> v == 18,
        r == Some(CompType::Encoder) <==> v == 19,
        r == Some(CompType::Mux) <==> v == 20,
        r == Some(CompType::Demux) <==> v == 21,
        r == Some(CompType::UserInput) <==> 200 <= v <= 299 && v != 204,
        r == Some(CompType::LedMatrix) <==> v == 204,
{
    types::law_wire_ids_are_read_as_frozen(v);
}

/// A type is written as a number that is read as the type.
pub proof fn law_types_written(t: CompType, v: u16, r: Option<CompType>)
    requires
        call_ensures(CompType::id, (t,), v),
        call_ensures(CompType::try_from_u16, (v,), r),
    ensures
        r == Some(t),
        t == CompType::UserInput ==> v == 200,
{
    types::law_id_round_trips(t);
}

/// The numbers of the lifecycle states.
pub proof fn law_state_numbers(s: SimState, r: u8)
    requires
        call_ensures(SimState::code, (s,), r),
    ensures
        s == SimState::Uninitialized ==> r == 0,
        s == SimState::Stopped ==> r == 1,
        s == SimState::Running ==> r == 2,
        s == SimState::Stopping ==> r == 3,
{
}

/// A limit is due from its own length on; without one nothing is.
pub proof fn law_due(limit: Option<u128>, nanos: u128, r: bool)
    requires
        call_ensures(clock::due, (limit, nanos), r),
    ensures
        limit is None ==> !r,
        limit matches Some(n) ==> (r <==> nanos >= n),
{
}

/// The speed is the whole number of ticks per second, as far as 32 bits hold it.
pub proof fn law_rate(ticks: u64, nanos: u128, r: u32, whole: nat)
    requires
        call_ensures(clock::rate, (ticks, nanos), r),
        nanos > 0,
        whole * nanos <= ticks * 1_000_000_000 < (whole + 1) * nanos,
    ensures
        r == whole % 0x1_0000_0000,
{
    clock::law_rate_is_ticks_per_second(ticks, nanos, whole);
}

/// A file with the extension `lgb`, small or large, is a binary board, and any other file a JSON one.
pub proof fn law_detect(ext: &str, r: load::Format, none: load::Format)
    requires
        call_ensures(load::detect, (Some(ext),), r),
        call_ensures(load::detect, (None::<&str>,), none),
    ensures
        none == load::Format::Json,
        r == load::Format::Bin <==> ext@.len() == 3 && forall|i: int|
            #![trigger ext@[i]]
            0 <= i < 3 ==> ext@[i] == seq!['l', 'g', 'b'][i] || ext@[i] == seq!['L', 'G', 'B'][i],
{
    load::law_binary_extension(ext@);
}

/// The ticks asked for go before those that the board brings.
pub proof fn law_choose_ticks(asked: Option<u64>, brought: Option<u64>, r: Option<u64>)
    requires
        call_ensures(trace::choose_ticks, (asked, brought), r),
    ensures
        asked is Some ==> r == asked,
        asked is None ==> r == brought,
{
}

/// A millisecond is a million nanoseconds.
pub proof fn law_nanos(ms: Option<u64>, r: Option<u128>)
    requires
        call_ensures(run::nanos, (ms,), r),
    ensures
        r is Some <==> ms is Some,
        ms matches Some(n) ==> r->0 == 1_000_000 * n,
{
}

/// The exit code is 1 if some fixture did not pass and 0 otherwise.
pub proof fn law_exit_code(passed: &[bool], r: u8)
    requires
        call_ensures(verify::exit_code, (passed,), r),
    ensures
        r == 0 || r == 1,
        r == 1 <==> exists|i: int| 0 <= i < passed@.len() && !#[trigger] passed@[i],
{
    if !verify::all_passed(passed@) {
        let i = choose|i: int| 0 <= i < passed@.len() && !passed@[i];
        assert(!passed@[i]);
    }
}

/// A grouped number is the number in decimal with `_` in it, a multiple of four places from its end.
pub proof fn law_group(n: u64, r: String, i: int)
    requires
        call_ensures(bench::group, (n,), r),
        0 <= i < r@.len(),
    ensures
        r@.filter(|c: char| c != '_') == text::decimal(n as nat),
        r@[i] == '_' <==> (r@.len() - i) % 4 == 0,
{
    bench::law_groups_of_three(n as nat);
}

/// The report on a fixture.
pub proof fn law_report(name: &str, list: &[verify::Mismatch], r: verify::Report, i: int)
    requires
        call_ensures(verify::report, (name, list), r),
    ensures
        r.passed <==> list@.len() == 0,
        r.lines@.len() == list@.len() + 1,
        r.passed ==> r.lines@[0]@ == name@ + seq![':', ' ', 'p', 'a', 's', 's', 'e', 'd'],
        !r.passed ==> r.lines@[0]@ == name@ + seq![':', ' ', 'F', 'A', 'I', 'L', 'E', 'D'],
        0 <= i < list@.len() ==> r.lines@[i + 1]@ == seq![' ', ' '] + list@[i].text(),
{
    verify::law_report_lines(r, name@, list@, i);
}

/// A run ends by itself if its ticks are limited or it has a time limit.
pub proof fn law_bounded(ticks: u64, timeout: Option<u128>, r: bool)
    requires
        call_ensures(binding::bounded, (ticks, timeout), r),
    ensures
        r <==> ticks < 0xFFFF_FFFF_FFFF_FFFF || timeout is Some,
{
}

/// A run that gives way is over once it is stopped, out of time, or has run its ticks.
pub proof fn law_finished(c: &Cooperative, stop: bool, timed_out: bool, r: bool)
    requires
        call_ensures(Cooperative::finished, (c, stop, timed_out), r),
        c.ok(),
    ensures
        r <==> stop || timed_out || c.ran() >= c.limit(),
{
}

/// `2^n`.
pub proof fn law_two_to(n: u32, r: u64)
    requires
        call_ensures(arith::two_to, (n,), r),
    ensures
        r == power2::pow2(n as nat),
{
}

/// The least exponent for which the power of two is no less than the number.
pub proof fn law_ceil_log2(n: u32, k: u32, j: nat)
    requires
        call_ensures(arith::ceil_log2, (n,), k),
    ensures
        n <= power2::pow2(k as nat),
        j < k ==> power2::pow2(j) < n,
{
    if j < k {
        arith::lemma_pow2_monotone(j, (k - 1) as nat);
    }
}

/// The compute queue of a type has an index below 20, and the type at that index is the type.
pub proof fn law_type_index(t: CompType, i: usize, back: CompType)
    requires
        call_ensures(components::type_index, (t,), i),
        call_ensures(components::type_from_index, (i,), back),
    ensures
        i < 20,
        back == t,
{
    components::law_types_are_visited_by_number(t, back);
}

/// Counts are accepted when each lies within its bounds.
pub proof fn law_accepts(a: &components::Arity, ins: usize, outs: usize, ops: usize, r: bool)
    requires
        call_ensures(components::Arity::accepts, (a, ins, outs, ops), r),
    ensures
        r <==> {
            &&& a.in_min <= ins && ins <= a.in_max
            &&& a.out_min <= outs && outs <= a.out_max
            &&& a.ops_min <= ops && ops <= a.ops_max
        },
{
}

/// Without negated pins a wide AND is high when every link listed is, a wide OR when some is.
pub proof fn law_wide_gates(inputs: &[u32], ls: &BitSet, and: bool, or: bool)
    requires
        call_ensures(simd::and_inputs, (inputs, ls), and),
        call_ensures(simd::or_inputs, (inputs, ls), or),
    ensures
        and <==> forall|i: int| 0 <= i < inputs@.len() ==> ls@[#[trigger] inputs@[i] as int],
        or <==> exists|i: int| 0 <= i < inputs@.len() && ls@[#[trigger] inputs@[i] as int],
{
    let s = reduce::gathered(inputs@, ls@);
    assert forall|i: int| 0 <= i < inputs@.len() implies s[i] == ls@[#[trigger] inputs@[i] as int] by {}
    if and {
        assert forall|i: int| 0 <= i < inputs@.len() implies ls@[#[trigger] inputs@[i] as int] by {
            assert(s[i]);
        }
    } else {
        let i = choose|i: int| 0 <= i < s.len() && !s[i];
        assert(!ls@[inputs@[i] as int]);
    }
    if or {
        let i = choose|i: int| 0 <= i < s.len() && s[i];
        assert(ls@[inputs@[i] as int]);
    } else {
        assert forall|i: int| 0 <= i < inputs@.len() implies !ls@[#[trigger] inputs@[i] as int] by {
            assert(!s[i]);
        }
    }
}

/// With negated pins a wide AND is high when every input, inverted where its flag is set, is high, a wide
/// OR when some is.
pub proof fn law_wide_negated_gates(
    inputs: &[u32],
    ls: &BitSet,
    neg: &BitSet,
    base: u32,
    and: bool,
    or: bool,
)
    requires
        call_ensures(reduce::and_inputs, (inputs, ls, neg, base), and),
        call_ensures(reduce::or_inputs, (inputs, ls, neg, base), or),
    ensures
        and <==> forall|i: int|
            0 <= i < inputs@.len() ==> ls@[#[trigger] inputs@[i] as int] != neg@[base + i],
        or <==> exists|i: int|
            0 <= i < inputs@.len() && ls@[#[trigger] inputs@[i] as int] != neg@[base + i],
{
    let s = reduce::effective(inputs@, ls@, neg@, base as int);
    if and {
        assert forall|i: int| 0 <= i < inputs@.len() implies ls@[#[trigger] inputs@[i] as int]
            != neg@[base + i] by {
            assert(s[i]);
        }
    } else {
        let i = choose|i: int| 0 <= i < s.len() && !s[i];
        assert(ls@[inputs@[i] as int] == neg@[base + i]);
    }
    if or {
        let i = choose|i: int| 0 <= i < s.len() && s[i];
        assert(ls@[inputs@[i] as int] != neg@[base + i]);
    } else {
        assert forall|i: int| 0 <= i < inputs@.len() implies ls@[#[trigger] inputs@[i] as int]
            == neg@[base + i] by {
            assert(!s[i]);
        }
    }
}

/// A wide XOR of one input more is inverted exactly if the input is high; a wide XOR of no inputs is low.
pub proof fn law_wide_xor(fewer: &[u32], more: &[u32], ls: &BitSet, a: bool, b: bool, l: u32)
    requires
        call_ensures(simd::xor_inputs, (fewer, ls), a),
        call_ensures(simd::xor_inputs, (more, ls), b),
        more@ == fewer@.push(l),
    ensures
        b == (a != ls@[l as int]),
        fewer@.len() == 0 ==> !a,
{
    let s = reduce::gathered(fewer@, ls@);
    let t = reduce::gathered(more@, ls@);
    assert(t =~= s.push(ls@[l as int]));
    behavior::lemma_ones_push(s, ls@[l as int]);
}

/// A builder starts without components, and a component that is added comes last, with the given type,
/// links, ops and negated pins; its id is its position.
pub proof fn law_builder(
    links: u32,
    fresh: BoardBuilder,
    b: &mut BoardBuilder,
    ty: CompType,
    inputs: &[u32],
    outputs: &[u32],
    ops: &[u32],
    neg_inputs: &[u16],
    neg_outputs: &[u16],
    id: u32,
)
    requires
        call_ensures(BoardBuilder::new, (links,), fresh),
        call_ensures(
            BoardBuilder::component_neg,
            (b, ty, inputs, outputs, ops, neg_inputs, neg_outputs),
            id,
        ),
        old(b)@.components.len() < u32::MAX,
    ensures
        fresh@.links == links,
        fresh@.components.len() == 0,
        id == old(b)@.components.len(),
        final(b)@.links == old(b)@.links,
        final(b)@.components.len() == id + 1,
        final(b)@.components.take(id as int) == old(b)@.components,
        ({
            let c = final(b)@.components[id as int];
            &&& c.ty == ty
            &&& c.inputs == inputs@
            &&& c.outputs == outputs@
            &&& c.ops == ops@
            &&& c.neg_inputs == neg_inputs@
            &&& c.neg_outputs == neg_outputs@
        }),
{
    assert(final(b)@.components.take(id as int) =~= old(b)@.components);
}

/// A component that is added without a word on negated pins has none.
pub proof fn law_plain_component(
    b: &mut BoardBuilder,
    ty: CompType,
    inputs: &[u32],
    outputs: &[u32],
    ops: &[u32],
    id: u32,
)
    requires
        call_ensures(BoardBuilder::component, (b, ty, inputs, outputs, ops), id),
        old(b)@.components.len() < u32::MAX,
    ensures
        id == old(b)@.components.len(),
        final(b)@.links == old(b)@.links,
        final(b)@.components.len() == id + 1,
        final(b)@.components.take(id as int) == old(b)@.components,
        ({
            let c = final(b)@.components[id as int];
            &&& c.ty == ty
            &&& c.inputs == inputs@
            &&& c.outputs == outputs@
            &&& c.ops == ops@
            &&& c.neg_inputs.len() == 0
            &&& c.neg_outputs.len() == 0
        }),
{
    assert(final(b)@.components.take(id as int) =~= old(b)@.components);
}

/// A finished board is described by its fields: the links, and for each component its type and lists.
pub proof fn law_finish(b: BoardBuilder, r: BoardDescriptor, c: int)
    requires
        call_ensures(BoardBuilder::finish, (b,), r),
        0 <= c < r.components@.len(),
    ensures
        r.link_count == b@.links,
        r.components@.len() == b@.components.len(),
        r.components@[c].ty == b@.components[c].ty,
        r.components@[c].inputs@ == b@.components[c].inputs,
        r.components@[c].outputs@ == b@.components[c].outputs,
        r.components@[c].ops@ == b@.components[c].ops,
        r.components@[c].neg_inputs@ == b@.components[c].neg_inputs,
        r.components@[c].neg_outputs@ == b@.components[c].neg_outputs,
{
    assert(r@.components[c] == r.components@[c]@);
}

/// A board that compiles has the links and components of its description, each component with its type
/// and its pins on their links.
pub proof fn law_compile(desc: &BoardDescriptor, r: Result<Board, SimError>, c: int)
    requires
        call_ensures(Board::compile, (desc,), r),
        r is Ok,
        0 <= c < desc.components@.len(),
    ensures
        r->Ok_0@.links == desc.link_count,
        r->Ok_0@.parts.len() == desc.components@.len(),
        r->Ok_0@.parts[c].ty == desc.components@[c].ty,
        r->Ok_0@.parts[c].inputs == desc.components@[c].inputs@,
        r->Ok_0@.parts[c].outputs == desc.components@[c].outputs@,
{
    netlist::law_compiled_as_described(desc@, c, 0);
    assert(desc@.components[c] == desc.components@[c]@);
}

/// A board tells its links, its components, the links that a component reads, and the components that
/// read a link.
pub proof fn law_board_reads(
    b: &Board,
    links: u32,
    components: u32,
    c: u32,
    inputs: &[u32],
    l: u32,
    consumers: &[u32],
)
    requires
        call_ensures(Board::link_count, (b,), links),
        call_ensures(Board::component_count, (b,), components),
        call_ensures(Board::inputs, (b, c), inputs),
        call_ensures(Board::link_consumers, (b, l), consumers),
        b@.parts.len() <= u32::MAX,
        c < b@.parts.len(),
    ensures
        links == b@.links,
        components == b@.parts.len(),
        inputs@ == b@.parts[c as int].inputs,
        consumers@.filter(|x: u32| x == c).len() == inputs@.filter(|x: u32| x == l).len(),
{
    netlist::law_readers(b@, l, c, 0, 0);
}

/// What is written of a board begins with the bytes of the format, and has the number of its links and of
/// its components.
pub proof fn law_encode(desc: &BoardDescriptor, r: Vec<u8>)
    requires
        call_ensures(codec::encode_board, (desc,), r),
        desc.components@.len() <= u32::MAX,
    ensures
        r@.len() >= 16,
        r@.take(8) == seq![0x31u8, 0x42u8, 0x47u8, 0x4Cu8, 1u8, 0u8, 0u8, 0u8],
        r@[8] + 256 * r@[9] + 65536 * r@[10] + 16777216 * r@[11] == desc.link_count,
        r@[12] + 256 * r@[13] + 65536 * r@[14] + 16777216 * r@[15] == desc.components@.len(),
{
    codec::law_header_layout(desc@);
}

/// Reading what was written of a board, whatever follows it, gives the board back.
pub proof fn law_decode_undoes_encode(
    desc: &BoardDescriptor,
    r: Vec<u8>,
    tail: Seq<u8>,
    bytes: &[u8],
    back: Result<BoardDescriptor, SimError>,
)
    requires
        call_ensures(codec::encode_board, (desc,), r),
        call_ensures(codec::decode_board, (bytes,), back),
        codec::writable(desc@),
        bytes@ == r@ + tail,
    ensures
        back matches Ok(b) && b@ == desc@,
{
    codec::law_round_trip(desc@, tail);
}

/// A file that does not begin as the format does is rejected as malformed.
pub proof fn law_decode(bytes: &[u8], r: Result<BoardDescriptor, SimError>)
    requires
        call_ensures(codec::decode_board, (bytes,), r),
        bytes@.len() < 6 || bytes@.take(6) != seq![0x31u8, 0x42u8, 0x47u8, 0x4Cu8, 1u8, 0u8],
    ensures
        r matches Err(e) && e is BadBinary,
{
    codec::law_other_files_are_rejected(bytes@);
    if bytes@.len() >= 6 && bytes@.take(4) == seq![0x31u8, 0x42u8, 0x47u8, 0x4Cu8] && bytes@[4] == 1
        && bytes@[5] == 0 {
        assert(bytes@.take(4)[0] == bytes@[0] && bytes@.take(4)[1] == bytes@[1]);
        assert(bytes@.take(4)[2] == bytes@[2] && bytes@.take(4)[3] == bytes@[3]);
        assert(bytes@.take(6) =~= seq![0x31u8, 0x42u8, 0x47u8, 0x4Cu8, 1u8, 0u8]);
    }
}

/// A new set of bits has all of them clear. A bit that is set reads as set to, and no other bit changes.
pub proof fn law_bits(n: u32, fresh: BitSet, b: &mut BitSet, i: u32, v: bool, j: u32, len: u32)
    requires
        call_ensures(BitSet::new, (n,), fresh),
        call_ensures(BitSet::set, (b, i, v), ()),
        call_ensures(BitSet::bits, (&fresh,), len),
        i < old(b)@.len(),
        j < old(b)@.len(),
    ensures
        len == n,
        fresh@.len() == n,
        forall|k: int| 0 <= k < n ==> !#[trigger] fresh@[k],
        final(b)@.len() == old(b)@.len(),
        final(b)@[i as int] == v,
        j != i ==> final(b)@[j as int] == old(b)@[j as int],
{
}

/// A bit reads as it is, and the words behind a set have bit `i` as digit `i % 64` of word `i / 64`.
pub proof fn law_bit_reads(b: &BitSet, i: u32, v: bool, words: &[u64], count: usize)
    requires
        call_ensures(BitSet::get, (b, i), v),
        call_ensures(BitSet::words, (b,), words),
        call_ensures(BitSet::word_count, (b,), count),
        i < b@.len(),
    ensures
        v == b@[i as int],
        count == words@.len(),
        64 * count >= b@.len() > 64 * (count - 1),
        ((words@[i as int / 64] as nat / power2::pow2((i as int % 64) as nat)) % 2 == 1) == b@[i as int],
{
    let k = i as int;
    assert(bits::bit64(words@[k / 64], k % 64) == (k < b@.len() && b@[k]));
    datasheet::lemma_word_digit(words@[k / 64], k % 64);
}

/// A simulation of a board starts stopped at tick 0 with every link low and nothing recorded, nothing given
/// out, nothing measured. It can be had exactly of a board without fault.
pub proof fn law_new_simulation(desc: &BoardDescriptor, r: Result<Simulation, SimError>, l: int)
    requires
        call_ensures(Simulation::from_descriptor, (desc,), r),
    ensures
        r is Ok <==> desc@.fault() is None,
        r matches Err(e) ==> desc@.fault() == Some(e),
        r matches Ok(sim) ==> {
            &&& sim.net() == desc@.netlist()
            &&& sim@.links.len() == desc.link_count
            &&& 0 <= l < desc.link_count ==> !sim@.links[l]
            &&& sim@.tick == 0
            &&& sim@.changed == Set::<u32>::empty()
            &&& sim@.pulses == Map::<u32, machine::Pulse>::empty()
            &&& sim.lifecycle() == SimState::Stopped
            &&& !sim.has_baseline()
            &&& sim.delta().0.len() == 0 && sim.delta().1.len() == 0
            &&& !sim.was_parallel()
            &&& sim.measured() == 0
        },
{
}

/// A tick takes the state one tick further and leaves everything else as it is.
pub proof fn law_tick(s: &mut Simulation)
    requires
        call_ensures(Simulation::tick, (s,), ()),
    ensures
        final(s)@ == old(s)@.ticked(old(s).net()),
        final(s).net() == old(s).net(),
        final(s).lifecycle() == old(s).lifecycle(),
        final(s).has_baseline() == old(s).has_baseline(),
        final(s).delta() == old(s).delta(),
        final(s).measured() == old(s).measured(),
        !final(s).was_parallel(),
{
}

/// External input to a user input latches its pins, or arms a pulse on them; to anything else it is an
/// error that names the component, and nothing changes.
pub proof fn law_trigger_input(
    s: &mut Simulation,
    c: u32,
    event: InputEvent,
    values: &[bool],
    r: Result<(), SimError>,
)
    requires
        call_ensures(Simulation::trigger_input, (s, c, event, values), r),
    ensures
        ({
            let net = old(s).net();
            let input = c < net.parts.len() && net.parts[c as int].ty == CompType::UserInput;
            &&& r is Ok <==> input
            &&& !input ==> r == Err::<(), SimError>(SimError::NotAnInput(c)) && final(s)@ == old(s)@
            &&& input && event == InputEvent::Cont ==> final(s)@ == old(s)@.latched(net, c, values@)
            &&& input && event == InputEvent::Pulse ==> final(s)@ == old(s)@.armed(net, c, values@)
            &&& final(s).net() == net
            &&& final(s).lifecycle() == old(s).lifecycle()
            &&& final(s).has_baseline() == old(s).has_baseline()
            &&& final(s).delta() == old(s).delta()
            &&& final(s).was_parallel() == old(s).was_parallel()
        }),
{
}

/// Asking a running simulation to stop makes it one that is stopping; any other stays as it is.
pub proof fn law_stop(s: &mut Simulation)
    requires
        call_ensures(Simulation::stop, (s,), ()),
    ensures
        old(s).lifecycle() == SimState::Running ==> final(s).lifecycle() == SimState::Stopping,
        old(s).lifecycle() != SimState::Running ==> final(s).lifecycle() == old(s).lifecycle(),
        final(s)@ == old(s)@,
        final(s).net() == old(s).net(),
        final(s).has_baseline() == old(s).has_baseline(),
        final(s).delta() == old(s).delta(),
        final(s).measured() == old(s).measured(),
        final(s).was_parallel() == old(s).was_parallel(),
{
}

/// A run is of the ticks of its configuration, unless it has a time limit. It can fail only on several
/// threads, and then changes nothing.
pub proof fn law_simulation_runs(s: &mut Simulation, cfg: RunConfig, r: Result<(), SimError>)
    requires
        call_ensures(Simulation::run, (s, cfg), r),
    ensures
        cfg.threads <= 1 ==> r is Ok,
        r matches Err(e) ==> e is ThreadPool && *final(s) == *old(s),
        r is Ok ==> {
            &&& final(s).lifecycle() == SimState::Stopped
            &&& final(s).net() == old(s).net()
            &&& final(s).has_baseline() == old(s).has_baseline()
            &&& final(s).delta() == old(s).delta()
            &&& cfg.timeout is None ==> final(s)@ == old(s)@.after(old(s).net(), cfg.ticks as nat)
        },
{
    if r is Ok {
        machine::law_runs_end_on_a_look(
            old(s)@,
            old(s).net(),
            cfg.ticks,
            cfg.timeout is Some,
            final(s)@,
        );
    }
}

/// The defaults: no limit on ticks or time, one thread, work shared out from 2048 entries on; full
/// snapshots.
pub proof fn law_defaults(r: RunConfig, s: SnapshotConfig)
    requires
        call_ensures(RunConfig::default, (), r),
        call_ensures(SnapshotConfig::default, (), s),
    ensures
        r.ticks == 0xFFFF_FFFF_FFFF_FFFF,
        r.timeout is None,
        r.par_threshold == 2048,
        r.threads == 1,
        !s.delta,
        s.delta_limit is None,
{
}

/// What a simulation tells of itself.
pub proof fn law_status(s: &Simulation, r: Status, state: SimState, tick: u64, l: u32, v: bool)
    requires
        call_ensures(Simulation::status, (s,), r),
        call_ensures(Simulation::state, (s,), state),
        call_ensures(Simulation::tick_count, (s,), tick),
        call_ensures(Simulation::link, (s, l), v),
    ensures
        r.state == s.lifecycle(),
        state == s.lifecycle(),
        r.tick == s@.tick,
        tick == s@.tick,
        r.speed == s.measured(),
        r.link_count == s.net().links,
        r.component_count == s.net().parts.len(),
        r.parallel == s.was_parallel(),
        v == s@.links[l as int],
{
}

/// An output pin reads as what it drives: its value, inverted if the pin is negated. Copying the pins of a
/// component fills the slice as far as there are pins.
pub proof fn law_output(s: &Simulation, c: u32, p: usize, v: bool, out: &mut [bool])
    requires
        call_ensures(Simulation::output, (s, c, p), v),
        call_ensures(Simulation::copy_outputs, (s, c, out), ()),
    ensures
        ({
            let part = s.net().parts[c as int];
            let st = s@.parts[c as int];
            let p = p as int;
            &&& v == (st.outs[p] != part.neg_outputs[p])
            &&& final(out)@.len() == old(out)@.len()
            &&& p < old(out)@.len() && p < part.outputs.len() ==> final(out)@[p] == (st.outs[p]
                != part.neg_outputs[p])
            &&& part.outputs.len() <= p < old(out)@.len() ==> final(out)@[p] == old(out)@[p]
        }),
{
}

/// The links in words and in bytes: link `l` is digit `l % 64` of word `l / 64` and digit `l % 8` of byte
/// `l / 8`.
pub proof fn law_packed_links(s: &Simulation, words: &[u64], bytes: Vec<u8>, l: int)
    requires
        call_ensures(Simulation::link_words, (s,), words),
        call_ensures(Simulation::link_bytes, (s,), bytes),
        s@.links.len() == s.net().links,
        0 <= l < s.net().links,
    ensures
        64 * words@.len() >= s.net().links > 64 * (words@.len() - 1),
        8 * bytes@.len() >= s.net().links > 8 * (bytes@.len() - 1),
        ((words@[l / 64] as nat / power2::pow2((l % 64) as nat)) % 2 == 1) == s@.links[l],
        ((bytes@[l / 8] as nat / power2::pow2((l % 8) as nat)) % 2 == 1) == s@.links[l],
{
    assert(bits::bit64(words@[l / 64], l % 64) == (l < s.net().links && s@.links[l]));
    datasheet::lemma_word_digit(words@[l / 64], l % 64);
    readout::law_values_are_packed(bytes@, s@.links, l);
}

/// The output bytes begin with those of the first component; each component's follow those of the one
/// before.
pub proof fn law_output_bytes(s: &Simulation, bytes: Vec<u8>, c: int, p: int)
    requires
        call_ensures(Simulation::output_bytes, (s,), bytes),
        0 <= c < s.net().parts.len(),
        0 <= p < s.net().parts[c].outputs.len(),
    ensures
        ({
            let at = readout::driven_bytes(s.net(), s@.parts, c).len() + p;
            &&& at < bytes@.len()
            &&& bytes@[at as int] == 1 <==> s@.parts[c].outs[p] != s.net().parts[c].neg_outputs[p]
            &&& bytes@[at as int] <= 1
        }),
{
    readout::law_outputs_follow_each_other(
        s.net(),
        s@.parts,
        s.net().parts.len() as int,
        c,
        p,
    );
}

/// A snapshot tells its tick and how many links it shows: the changed ones of a delta, or all.
pub proof fn law_snapshot(
    s: &mut Simulation,
    cfg: SnapshotConfig,
    info: SnapshotInfo,
    ids: &[u32],
    values: &[u8],
)
    requires
        call_ensures(Simulation::snapshot, (s, cfg), info),
        call_ensures(Simulation::snapshot_ids, (final(s),), ids),
        call_ensures(Simulation::snapshot_values, (final(s),), values),
    ensures
        info.tick == old(s)@.tick,
        info.is_delta ==> info.changed == old(s)@.changed.len(),
        !info.is_delta ==> info.changed == old(s).net().links,
        info.is_delta <==> cfg.delta && old(s).has_baseline() && match cfg.delta_limit {
            Some(n) => old(s)@.changed.len() <= n,
            None => 8 * old(s)@.changed.len() <= old(s).net().links,
        },
        ids@ == final(s).delta().0,
        values@ == final(s).delta().1,
        info.is_delta ==> forall|l: u32| #[trigger] ids@.contains(l) <==> old(s)@.changed.contains(l),
        final(s)@.links == old(s)@.links,
        final(s)@.changed == Set::<u32>::empty(),
        final(s).has_baseline(),
{
    snapshot::law_snapshot_shows_the_changes(old(s), cfg, final(s), info.is_delta, 0);
}

/// A session starts with what its simulation shows, stopped, and without a run.
pub proof fn law_new_session(sim: Simulation, r: Session, busy: bool, links: u32)
    requires
        call_ensures(Session::new, (sim,), r),
        call_ensures(Session::busy, (&r,), busy),
        sim.net().links == links,
        sim.net().parts.len() <= u32::MAX,
    ensures
        !busy,
        r.engine() == sim,
        r.background() is None,
        r.published().state == SimState::Stopped,
        r.published().tick == sim@.tick,
        !r.published().parallel,
        r.published().link_count == sim.net().links,
        r.published().component_count == sim.net().parts.len(),
{
}

/// A batch of a run that gives way runs the ticks that are left, 4096 at most, and none if it is stopped.
pub proof fn law_cooperative_batch(c: &mut Cooperative, s: &mut Simulation, stop: bool)
    requires
        call_ensures(Cooperative::batch, (c, s, stop), ()),
        old(c).ok(),
    ensures
        final(c).limit() == old(c).limit(),
        old(c).ran() <= final(c).ran() <= old(c).ran() + 4096,
        final(c).ran() <= final(c).limit(),
        stop ==> final(c).ran() == old(c).ran(),
        !stop && final(c).ran() < old(c).ran() + 4096 ==> final(c).ran() == final(c).limit(),
        final(s)@ == old(s)@.after(old(s).net(), (final(c).ran() - old(c).ran()) as nat),
        final(s).net() == old(s).net(),
{
}

/// An evaluation gives a component the state that its type makes of what its input pins read, which is
/// what their links show, inverted at negated pins. No other component changes.
pub proof fn law_evaluate(ty: CompType, c: u32, ctx: &TickCtx, run: &mut RunState, d: int)
    requires
        components::ready(ctx, c, ty, old(run)),
        call_ensures(components::evaluate, (ty, c, ctx, run), ()),
        c < ctx.board.comp_count,
        0 <= d < ctx.board.comp_count,
    ensures
        ({
            let part = ctx.board@.parts[c as int];
            let ins = Seq::new(
                part.inputs.len(),
                |p: int| ctx.link_state@[part.inputs[p] as int] != part.neg_inputs[p],
            );
            &&& final(run).state(ctx.board, c as int) == part.step(
                c,
                ins,
                ctx.tick,
                old(run).state(ctx.board, c as int),
            )
            &&& d != c ==> final(run).states(ctx.board)[d] == old(run).states(ctx.board)[d]
        }),
{
    let part = ctx.board@.parts[c as int];
    let ins = Seq::new(
        part.inputs.len(),
        |p: int| ctx.link_state@[part.inputs[p] as int] != part.neg_inputs[p],
    );
    assert(part == ctx.board.part(c as int));
    assert(ctx.ins(c as int) =~= ins);
    assert(components::evaluated(ctx, c, old(run), final(run)));
    assert(old(run).states(ctx.board).len() == ctx.board.comp_count);
}

/// A trace needs a number of ticks, a board without fault and triggers that can be applied. It has a frame
/// for each tick from 0 on, which shows the links as observed then.
pub proof fn law_trace(
    loaded: &load::Loaded,
    args: &trace::TraceArgs,
    r: Result<trace::Trace, String>,
    i: int,
    l: int,
)
    requires
        call_ensures(trace::trace, (loaded, args), r),
    ensures
        args.ticks is None && loaded.ticks is None ==> r is Err,
        loaded.desc@.fault() is Some ==> r is Err,
        (args.ticks is Some || loaded.ticks is Some) && loaded.desc@.fault() is None && (forall|k: int|
            0 <= k < loaded.triggers@.len() ==> (#[trigger] loaded.triggers@[k]).fault(
                loaded.desc@.netlist(),
            ) is None) ==> r is Ok,
        r matches Ok(t) ==> {
            let net = loaded.desc@.netlist();
            let m = load::observed(loaded.triggers@, net, machine::start(net), i as nat);
            &&& args.ticks matches Some(n) ==> t.ticks == n
            &&& args.ticks is None ==> loaded.ticks == Some(t.ticks)
            &&& t.name@ == loaded.name@
            &&& t.trace@.len() == t.ticks + 1
            &&& 0 <= i <= t.ticks ==> t.trace@[i].tick == i && t.trace@[i].links@.len()
                == m.links.len()
            &&& 0 <= i <= t.ticks && 0 <= l < m.links.len() ==> t.trace@[i].links@[l]
                == if m.links[l] {
                '1'
            } else {
                '0'
            }
        },
{
    let net = loaded.desc@.netlist();
    if r is Ok {
        let t = r->Ok_0;
        if 0 <= i <= t.ticks {
            assert(t.trace@[i].shows(
                net,
                load::observed(loaded.triggers@, net, machine::start(net), i as nat),
                i as u64,
            ));
        }
    } else if (args.ticks is Some || loaded.ticks is Some) && loaded.desc@.fault() is None {
        let why = r->Err_0@;
        let s = choose|s: u64| #[trigger] load::fails_at(loaded.triggers@, net, s, why);
        assert(load::fails_at(loaded.triggers@, net, s, why));
        load::lemma_failing_trigger(loaded.triggers@, net, s, why);
    }
}

/// A run on one thread needs a bound, a board without fault and triggers that can be applied. It ends in the
/// state observed at its last tick, which without a time limit is the one asked for.
pub proof fn law_command_run(loaded: &load::Loaded, args: &run::RunArgs, r: Result<run::Ran, String>)
    requires
        call_ensures(run::run, (loaded, args), r),
    ensures
        args.ticks is None && loaded.ticks is None && args.ms is None ==> r is Err,
        loaded.desc@.fault() is Some ==> r is Err,
        args.threads <= 1 && (args.ticks is Some || loaded.ticks is Some || args.ms is Some)
            && loaded.desc@.fault() is None && (forall|k: int|
            0 <= k < loaded.triggers@.len() ==> (#[trigger] loaded.triggers@[k]).fault(
                loaded.desc@.netlist(),
            ) is None) ==> r is Ok,
        r matches Ok(ran) ==> {
            let net = loaded.desc@.netlist();
            &&& ran.sim.net() == net
            &&& args.threads <= 1 ==> {
                &&& !ran.threads_ignored
                &&& ran.sim@ == load::observed(
                    loaded.triggers@,
                    net,
                    machine::start(net),
                    ran.ticks as nat,
                )
                &&& args.ms is None && args.ticks is Some ==> args.ticks == Some(ran.ticks)
                &&& args.ms is None && args.ticks is None ==> loaded.ticks == Some(ran.ticks)
                &&& args.ticks matches Some(n) ==> ran.ticks <= n
            }
        },
{
    let net = loaded.desc@.netlist();
    if r is Err && args.threads <= 1 && (args.ticks is Some || loaded.ticks is Some || args.ms is Some)
        && loaded.desc@.fault() is None {
        let why = r->Err_0@;
        let s = choose|s: u64| #[trigger] load::fails_at(loaded.triggers@, net, s, why);
        assert(load::fails_at(loaded.triggers@, net, s, why));
        load::lemma_failing_trigger(loaded.triggers@, net, s, why);
    }
}

/// A fixture that is run on one thread without a time limit is compared after exactly its ticks; one that
/// cannot be run is an error.
pub proof fn law_verify_one(fx: &verify::Fixture, r: Result<Vec<verify::Mismatch>, String>)
    requires
        call_ensures(verify::verify_one, (fx,), r),
    ensures
        fx.fault() is Some ==> r is Err,
        fx.fault() is None && fx.thread_count() <= 1 ==> r is Ok,
        fx.fault() is None && fx.ms is None && fx.ticks is Some && r is Ok ==> {
            let net = fx.board@.netlist();
            r->Ok_0@ == fx.expected.mismatches(net, fx.start().after(net, fx.ticks->0 as nat))
        },
{
    if fx.fault() is None && fx.ms is None && fx.ticks is Some && r is Ok {
        let net = fx.board@.netlist();
        let end = choose|end: Machine| #[trigger]
            fx.start().runs_to(net, fx.most_ticks(), fx.ms is Some, end) && r->Ok_0@
                == fx.expected.mismatches(net, end) && fx.keeps_time(end);
        machine::law_runs_end_on_a_look(fx.start(), net, fx.most_ticks(), false, end);
    }
}

/// Triggers are applied at their tick, up to the first one that cannot be; that one is reported.
pub proof fn law_apply_triggers(
    s: &mut Simulation,
    triggers: &[load::Trigger],
    tick: u64,
    r: Result<(), String>,
    k: int,
)
    requires
        call_ensures(load::apply_triggers, (s, triggers, tick), r),
        0 <= k < triggers@.len(),
    ensures
        r is Ok && triggers@[k].tick == tick ==> triggers@[k].fault(old(s).net()) is None,
        (forall|j: int|
            0 <= j < triggers@.len() && (#[trigger] triggers@[j]).tick == tick ==> triggers@[j].fault(
                old(s).net(),
            ) is None) ==> r is Ok,
        r is Ok ==> final(s)@ == load::applied(
            triggers@,
            tick,
            old(s).net(),
            old(s)@,
            triggers@.len() as int,
        ),
        final(s)@.tick == old(s)@.tick,
        final(s).net() == old(s).net(),
{
    load::law_first_bad_trigger_is_reported(triggers@, old(s).net(), tick, Seq::empty(), 0, k);
    load::lemma_applied_tick(
        triggers@,
        tick,
        old(s).net(),
        old(s)@,
        load::first_fault(triggers@, tick, old(s).net(), 0),
    );
}

/// A dump and a frame show a simulation as it is, and the high links are counted.
pub proof fn law_dumps(
    s: &Simulation,
    desc: &BoardDescriptor,
    tick: u64,
    dump: run::StateDump,
    frame: trace::Frame,
    high: u32,
    l: int,
    c: int,
    p: int,
)
    requires
        call_ensures(run::state_dump, (s, desc), dump),
        call_ensures(trace::frame, (s, desc, tick), frame),
        call_ensures(run::powered, (s,), high),
        0 <= l < s@.links.len(),
        0 <= c < s.net().parts.len(),
        0 <= p < s.net().parts[c].outputs.len(),
    ensures
        ({
            let drives = s@.parts[c].outs[p] != s.net().parts[c].neg_outputs[p];
            &&& dump.tick == s@.tick
            &&& dump.links@[l] == s@.links[l]
            &&& dump.components@[c]@[p] == drives
            &&& frame.tick == tick
            &&& frame.links@[l] == '1' <==> s@.links[l]
            &&& frame.outputs@[c]@[p] == '1' <==> drives
            &&& high == behavior::ones(s@.links)
        }),
{
    run::law_dump_values(dump, s.net(), s@, l, c, p);
    trace::law_frame_digits(frame, s.net(), s@, tick, l, c, p);
}

/// What a comparison lists is what differs.
pub proof fn law_compare(s: &Simulation, expected: &verify::Expected, r: Vec<verify::Mismatch>)
    requires
        call_ensures(verify::compare, (s, expected), r),
    ensures
        r@ == expected.mismatches(s.net(), s@),
{
}

/// A board that a binding hands over is lowered component by component, or refused for the first type
/// number that stands for no type.
pub proof fn law_into_core(raw: &RawBoard, r: Result<BoardDescriptor, String>, c: int)
    requires
        call_ensures(RawBoard::into_core, (raw,), r),
        0 <= c < raw.components@.len(),
    ensures
        r is Ok ==> raw.components@[c].ty <= 65535,
        r matches Ok(b) ==> {
            let from = raw.components@[c];
            &&& b.link_count == raw.links
            &&& b.components@.len() == raw.components@.len()
            &&& CompType::of_number(from.ty as u16) == Some(b.components@[c].ty)
            &&& b.components@[c].inputs@ == from.inputs@
            &&& b.components@[c].outputs@ == from.outputs@
            &&& from.ops matches Some(ops) ==> b.components@[c].ops@ == ops@
            &&& from.ops is None ==> b.components@[c].ops@.len() == 0
            &&& b.components@[c].neg_inputs@.len() == 0
            &&& b.components@[c].neg_outputs@.len() == 0
        },
        r matches Err(e) ==> exists|k: int|
            0 <= k < raw.components@.len() && (#[trigger] raw.components@[k]).fault() == Some(e@)
                && forall|j: int| 0 <= j < k ==> (#[trigger] raw.components@[j]).fault() is None,
{
    let cs = raw.components@;
    let bad = binding::first_untyped(cs, 0);
    binding::law_first_untyped(cs, 0);
    binding::law_raw_component(cs[c]);
    if bad < cs.len() {
        assert(cs[bad].fault() is Some);
    } else {
        assert(cs[c].fault() is None);
        let b = r->Ok_0;
        assert(b@.components.len() == cs.len());
        assert(b@.components[c] == b.components@[c]@);
        assert(b@.components[c] == cs[c].model());
    }
}

/// What a session does with the commands whose outcome is its own to decide.
pub proof fn law_handle(
    s: &mut Session,
    cmd: session::Command,
    stop: &std::sync::atomic::AtomicBool,
    r: session::Reply,
)
    requires
        call_ensures(Session::handle, (s, cmd, stop), r),
    ensures
        ({
            let net = old(s).engine().net();
            let m = old(s).engine()@;
            let busy = old(s).background() is Some;
            &&& cmd is Tick ==> r is Done && final(s).engine()@ == m.ticked(net)
                && final(s).published().tick == final(s).engine()@.tick
            &&& cmd matches session::Command::Link { id } ==> (r matches session::Reply::Value(v)
                && v == m.links[id as int])
            &&& cmd is Outputs ==> r is Bytes
            &&& cmd is Snapshot ==> r is Snapshot && final(s).engine()@.links == m.links
            &&& busy && (cmd is RunBlocking || cmd is RunAsync) ==> r is Refused
                && final(s).engine() == old(s).engine() && final(s).background() == old(s).background()
            &&& cmd matches session::Command::RunAsync { ticks, timeout, threads } ==> (!busy
                && threads <= 1 ==> r is Started && final(s).engine() == old(s).engine() && (final(s).background() matches Some(b) && b.done == 0 && b.ticks == ticks && b.timeout
                == timeout))
            &&& cmd matches session::Command::RunBlocking { ticks, timeout, threads } ==> (!busy
                && threads <= 1 ==> r is Ran && final(s).background() is None && final(s).published().state == SimState::Stopped)
            &&& cmd is Link || cmd is Outputs ==> final(s).engine() == old(s).engine()
            &&& cmd is Link || cmd is Outputs || cmd is Snapshot || cmd is Trigger ==> final(s).background() == old(s).background() && final(s).published() == old(s).published()
        }),
{
}

/// A batch of a background run is of 4096 ticks at most and goes on if it was of as many.
pub proof fn law_advance_batch(
    s: &mut Session,
    stop: &std::sync::atomic::AtomicBool,
    progress: session::Progress,
)
    requires
        call_ensures(Session::advance_batch, (s, stop), progress),
    ensures
        exists|k: nat|
            {
                &&& k <= 4096
                &&& progress.ended <==> k < 4096
                &&& final(s).engine()@ == #[trigger] old(s).engine()@.after(
                    old(s).engine().net(),
                    k,
                )
                &&& progress.ended ==> final(s).background() is None
                &&& !progress.ended ==> (final(s).background() matches Some(b) && b.done == old(s).background()->0.done + k)
            },
        final(s).published().tick == final(s).engine()@.tick,
        progress.ended ==> final(s).published().state == SimState::Stopped,
        !progress.ended ==> final(s).published().state == SimState::Running,
{
    let b = old(s).background()->0;
    let (k, nanos) = choose|k: nat, nanos: u128|
        {
            &&& #[trigger] session::advanced(old(s), b, final(s), k, progress)
            &&& #[trigger] session::stops_for_cause(b, k, progress, nanos, stop)
        };
    session::law_batch(old(s), b, final(s), k, progress);
    assert(final(s).engine()@ == old(s).engine()@.after(old(s).engine().net(), k));
}

/// A board on its own has the name of its file and brings neither ticks nor triggers. One out of a fixture
/// has the name that the fixture gives, if it gives one, with its ticks and triggers.
pub proof fn law_loaded(
    stem: String,
    name: Option<String>,
    desc: BoardDescriptor,
    ticks: Option<u64>,
    triggers: Vec<load::Trigger>,
    plain: load::Loaded,
    fixture: load::Loaded,
)
    requires
        call_ensures(load::Loaded::board, (stem, desc), plain),
        call_ensures(load::Loaded::fixture, (stem, name, desc, ticks, triggers), fixture),
    ensures
        plain.name@ == stem@,
        plain.desc == desc,
        plain.ticks is None,
        plain.triggers@.len() == 0,
        name matches Some(n) ==> fixture.name@ == n@,
        name is None ==> fixture.name@ == stem@,
        fixture.desc == desc,
        fixture.ticks == ticks,
        fixture.triggers == triggers,
{
}

/// A board out of a binary file is the one that its bytes stand for, under the name of the file; bytes that
/// stand for none are an error that begins with the path.
pub proof fn law_loaded_binary(
    path: &str,
    stem: String,
    bytes: &[u8],
    r: Result<load::Loaded, String>,
    b: Result<BoardDescriptor, SimError>,
)
    requires
        call_ensures(load::Loaded::binary, (path, stem, bytes), r),
        call_ensures(codec::decode_board, (bytes,), b),
    ensures
        r is Ok <==> b is Ok,
        r matches Ok(loaded) ==> {
            &&& loaded.desc@ == b->Ok_0@
            &&& loaded.name@ == stem@
            &&& loaded.ticks is None
            &&& loaded.triggers@.len() == 0
        },
        r matches Err(e) ==> e@.take((path@.len() + 2) as int) == path@ + seq![':', ' '],
{
    if r is Err {
        let why = codec::read_board(bytes@)->Err_0.message_text();
        load::law_messages_begin_with_the_name(path@, why);
        assert(r->Err_0@.take((path@.len() + 2) as int) =~= path@ + seq![':', ' ']);
    }
}

/// A simulation that is prepared has had the triggers of tick 0 applied and no tick run.
pub proof fn law_prepare(loaded: &load::Loaded, r: Result<Simulation, String>)
    requires
        call_ensures(load::prepare, (loaded,), r),
    ensures
        loaded.desc@.fault() is Some ==> r is Err,
        r matches Ok(sim) ==> {
            let net = loaded.desc@.netlist();
            &&& sim.net() == net
            &&& sim@ == load::applied(
                loaded.triggers@,
                0,
                net,
                machine::start(net),
                loaded.triggers@.len() as int,
            )
            &&& sim@.tick == 0
        },
{
    let net = loaded.desc@.netlist();
    load::lemma_applied_tick(
        loaded.triggers@,
        0,
        net,
        machine::start(net),
        loaded.triggers@.len() as int,
    );
}

} // verus!
