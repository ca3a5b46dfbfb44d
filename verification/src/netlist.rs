//! The mathematical model of a board: what a description says, and what it compiles to.
//!
//! A [`BoardModel`] is the contents of a board description. A [`Netlist`] is the wiring the engine
//! runs: per component its type, the links each pin reads or drives, which pins are negated, and
//! the parameters its type derives from the `ops` list.

use vstd::prelude::*;
#[allow(unused_imports)]
use vstd::arithmetic::power2;
#[allow(unused_imports)]
use crate::arith;
#[allow(unused_imports)]
use crate::components;
#[allow(unused_imports)]
use crate::error::{PinKind, SimError};
use crate::types::CompType;

verus! {

/// The contents of one component description.
#[verifier::ext_equal]
pub struct ComponentModel {
    pub ty: CompType,
    pub inputs: Seq<u32>,
    pub outputs: Seq<u32>,
    pub ops: Seq<u32>,
    pub neg_inputs: Seq<u16>,
    pub neg_outputs: Seq<u16>,
}

/// The contents of a board description.
#[verifier::ext_equal]
pub struct BoardModel {
    pub links: u32,
    pub components: Seq<ComponentModel>,
}

/// One compiled component.
#[verifier::ext_equal]
pub struct Part {
    pub ty: CompType,
    /// Link read by each input pin.
    pub inputs: Seq<u32>,
    /// Whether each input pin inverts what it reads.
    pub neg_inputs: Seq<bool>,
    /// Link driven by each output pin.
    pub outputs: Seq<u32>,
    /// Whether each output pin inverts what it drives.
    pub neg_outputs: Seq<bool>,
    /// Clock period, multiplexer select width or LED data width; 0 for the other types.
    pub param: int,
    /// Contents of a ROM, byte by byte; empty for the other types.
    pub rom: Seq<u8>,
}

/// A compiled board.
#[verifier::ext_equal]
pub struct Netlist {
    pub links: nat,
    pub parts: Seq<Part>,
}

/// Bytes a ROM with the given pin counts holds: one word per address, packed.
pub open spec fn rom_size(ins: nat, outs: nat) -> nat {
    (outs * power2::pow2(ins) + 7) / 8
}

/// Bits a RAM holds: one word per address.
pub open spec fn ram_bits(addr: nat, word: nat) -> nat {
    word * power2::pow2(addr)
}

/// Width of a LED matrix's data bus, as selected by its only op.
pub open spec fn led_data_width(op: u32) -> int {
    if op > 4 {
        8
    } else {
        4
    }
}

/// `k` is the least exponent with `n <= 2^k`.
pub open spec fn is_ceil_log2(n: nat, k: nat) -> bool {
    n <= power2::pow2(k) && (k > 0 ==> power2::pow2((k - 1) as nat) < n)
}

impl Part {
    /// Width of the address bus of a RAM or LED matrix.
    pub open spec fn addr_width(self) -> int {
        match self.ty {
            CompType::Ram => self.inputs.len() - self.outputs.len() - 2,
            CompType::LedMatrix => self.inputs.len() - self.param - 1,
            _ => 0,
        }
    }

    /// Bits of read/write memory the component owns.
    pub open spec fn mem_bits(self) -> nat {
        if self.ty == CompType::Ram && self.addr_width() >= 0 {
            ram_bits(self.addr_width() as nat, self.outputs.len())
        } else {
            0
        }
    }

    /// Pin counts and parameters fit the type.
    pub open spec fn valid(self) -> bool {
        let ins = self.inputs.len();
        let outs = self.outputs.len();
        &&& self.neg_inputs.len() == ins
        &&& self.neg_outputs.len() == outs
        &&& match self.ty {
            CompType::Not | CompType::Delay => ins == 1 && outs == 1,
            CompType::And | CompType::Or | CompType::Xor => ins >= 2 && outs == 1,
            CompType::Clk => ins == 1 && outs == 1 && 1 <= self.param <= u32::MAX,
            CompType::HalfAdder => ins == 2 && outs == 2,
            CompType::FullAdder => ins == 3 && outs == 2,
            CompType::Rom => 1 <= ins <= 16 && 1 <= outs <= 64 && self.rom.len() == rom_size(
                ins,
                outs,
            ),
            CompType::DFf => ins == 2 && outs == 2,
            CompType::JkFf | CompType::SrFf => ins == 3 && outs == 2,
            CompType::Rng => ins == 1 && outs >= 1,
            CompType::Ram => outs >= 1 && 0 <= self.addr_width() <= 24,
            CompType::Decoder => 1 <= ins <= 16 && outs == power2::pow2(ins),
            CompType::Encoder => 1 <= outs <= 16 && ins == power2::pow2(outs),
            CompType::Mux => outs == 1 && 1 <= self.param <= 16 && ins == power2::pow2(self.param as nat)
                + self.param,
            CompType::Demux => 2 <= ins <= 17 && outs == power2::pow2((ins - 1) as nat),
            CompType::UserInput => ins == 0 && outs >= 1,
            CompType::LedMatrix => (self.param == 4 || self.param == 8) && outs >= self.param
                && self.addr_width() >= 0 && is_ceil_log2(
                (outs / self.param as nat),
                self.addr_width() as nat,
            ),
        }
    }

    /// No pin of the component is negated.
    pub open spec fn plain(self) -> bool {
        &&& forall|p: int| 0 <= p < self.neg_inputs.len() ==> !self.neg_inputs[p]
        &&& forall|p: int| 0 <= p < self.neg_outputs.len() ==> !self.neg_outputs[p]
    }
}

impl Netlist {
    /// Every component is valid and every pin's link exists.
    pub open spec fn valid(self) -> bool {
        &&& self.links <= u32::MAX
        &&& self.parts.len() <= u32::MAX
        &&& forall|c: int| 0 <= c < self.parts.len() ==> (#[trigger] self.parts[c]).valid()
        &&& forall|c: int, p: int|
            0 <= c < self.parts.len() && 0 <= p < self.parts[c].inputs.len()
                ==> #[trigger] self.parts[c].inputs[p] < self.links
        &&& forall|c: int, p: int|
            0 <= c < self.parts.len() && 0 <= p < self.parts[c].outputs.len()
                ==> #[trigger] self.parts[c].outputs[p] < self.links
    }
}

/// The pin list `neg` as one flag per pin.
pub open spec fn negated_pins(neg: Seq<u16>, pins: nat) -> Seq<bool> {
    Seq::new(pins, |p: int| exists|i: int| 0 <= i < neg.len() && #[trigger] neg[i] == p)
}

impl ComponentModel {
    /// The cross-field constraints a type puts on its pin counts and ops, beyond the plain arity.
    pub open spec fn config_ok(self) -> bool {
        let ins = self.inputs.len();
        let outs = self.outputs.len();
        match self.ty {
            CompType::Clk => self.ops[0] >= 1,
            CompType::Decoder => outs == power2::pow2(ins),
            CompType::Encoder => ins == power2::pow2(outs),
            CompType::Mux => 1 <= self.ops[0] <= 16 && ins == power2::pow2(self.ops[0] as nat)
                + self.ops[0],
            CompType::Demux => ins - 1 <= 16 && outs == power2::pow2((ins - 1) as nat),
            CompType::Ram => 0 <= ins - outs - 2 <= 24,
            CompType::LedMatrix => {
                let data = led_data_width(self.ops[0]);
                &&& outs >= data
                &&& ins >= data + 1
                &&& is_ceil_log2(outs / data as nat, (ins - data - 1) as nat)
            },
            _ => true,
        }
    }

    /// The component's counts satisfy its type's arity.
    pub open spec fn arity_ok(self) -> bool {
        components::arity_of(self.ty).admits(
            self.inputs.len(),
            self.outputs.len(),
            self.ops.len(),
        )
    }

    /// Index of the first entry of `s` from `from` on that is not below `bound`, or `s.len()`.
    pub open spec fn first_at_least(s: Seq<u32>, bound: u32, from: int) -> int
        decreases s.len() - from,
    {
        if from < 0 || from >= s.len() || s[from] >= bound {
            from
        } else {
            ComponentModel::first_at_least(s, bound, from + 1)
        }
    }

    /// As [`first_at_least`](ComponentModel::first_at_least), for pin indices.
    pub open spec fn first_pin_at_least(s: Seq<u16>, bound: nat, from: int) -> int
        decreases s.len() - from,
    {
        if from < 0 || from >= s.len() || s[from] >= bound {
            from
        } else {
            ComponentModel::first_pin_at_least(s, bound, from + 1)
        }
    }

    /// The arity error of this component at position `idx`.
    pub open spec fn bad_arity(self, idx: u32) -> SimError {
        SimError::BadArity {
            idx,
            ty: self.ty,
            ins: self.inputs.len() as usize,
            outs: self.outputs.len() as usize,
            ops: self.ops.len() as usize,
        }
    }

    /// What is wrong with this component at position `idx` of a board with `links` links: its
    /// first link out of range (inputs before outputs), else its arity, else its first negated pin
    /// out of range (inputs before outputs), else its configuration.
    pub open spec fn fault(self, idx: u32, links: u32) -> Option<SimError> {
        let pins = self.inputs + self.outputs;
        let link = ComponentModel::first_at_least(pins, links, 0);
        let neg_in = ComponentModel::first_pin_at_least(self.neg_inputs, self.inputs.len(), 0);
        let neg_out = ComponentModel::first_pin_at_least(self.neg_outputs, self.outputs.len(), 0);
        if link < pins.len() {
            Some(SimError::LinkOutOfRange { idx, link: pins[link], count: links })
        } else if !self.arity_ok() {
            Some(self.bad_arity(idx))
        } else if neg_in < self.neg_inputs.len() {
            Some(
                SimError::NegateOutOfRange {
                    idx,
                    pin_kind: PinKind::Input,
                    pin: self.neg_inputs[neg_in],
                    count: self.inputs.len() as u32,
                },
            )
        } else if neg_out < self.neg_outputs.len() {
            Some(
                SimError::NegateOutOfRange {
                    idx,
                    pin_kind: PinKind::Output,
                    pin: self.neg_outputs[neg_out],
                    count: self.outputs.len() as u32,
                },
            )
        } else if !self.config_ok() {
            Some(self.bad_arity(idx))
        } else {
            None
        }
    }

    /// The compiled form of this component.
    pub open spec fn part(self) -> Part {
        Part {
            ty: self.ty,
            inputs: self.inputs,
            neg_inputs: negated_pins(self.neg_inputs, self.inputs.len()),
            outputs: self.outputs,
            neg_outputs: negated_pins(self.neg_outputs, self.outputs.len()),
            param: match self.ty {
                CompType::Clk | CompType::Mux => self.ops[0] as int,
                CompType::LedMatrix => led_data_width(self.ops[0]),
                _ => 0,
            },
            rom: if self.ty == CompType::Rom {
                Seq::new(
                    rom_size(self.inputs.len(), self.outputs.len()),
                    |j: int|
                        if j < self.ops.len() {
                            self.ops[j] as u8
                        } else {
                            0u8
                        },
                )
            } else {
                Seq::empty()
            },
        }
    }

    /// Bytes of read/write memory the component asks for.
    pub open spec fn ram_size(self) -> nat {
        (self.part().mem_bits() + 7) / 8
    }
}

impl BoardModel {
    /// The first fault among the components from position `from` on.
    pub open spec fn fault_from(self, from: int) -> Option<SimError>
        decreases self.components.len() - from,
    {
        if from < 0 || from >= self.components.len() {
            None
        } else {
            match self.components[from].fault(from as u32, self.links) {
                Some(e) => Some(e),
                None => self.fault_from(from + 1),
            }
        }
    }

    /// The first fault of the board; `None` means the board compiles.
    pub open spec fn fault(self) -> Option<SimError> {
        self.fault_from(0)
    }

    /// The compiled form of the board.
    pub open spec fn netlist(self) -> Netlist {
        Netlist {
            links: self.links as nat,
            parts: Seq::new(self.components.len(), |c: int| self.components[c].part()),
        }
    }

    /// Input pins of the first `n` components.
    pub open spec fn inputs_before(self, n: int) -> nat
        decreases n,
    {
        if n <= 0 {
            0
        } else {
            self.inputs_before(n - 1) + self.components[n - 1].inputs.len()
        }
    }

    /// Output pins of the first `n` components.
    pub open spec fn outputs_before(self, n: int) -> nat
        decreases n,
    {
        if n <= 0 {
            0
        } else {
            self.outputs_before(n - 1) + self.components[n - 1].outputs.len()
        }
    }

    /// ROM bytes of the first `n` components.
    pub open spec fn rom_before(self, n: int) -> nat
        decreases n,
    {
        if n <= 0 {
            0
        } else {
            self.rom_before(n - 1) + self.components[n - 1].part().rom.len()
        }
    }

    /// RAM bytes of the first `n` components.
    pub open spec fn ram_before(self, n: int) -> nat
        decreases n,
    {
        if n <= 0 {
            0
        } else {
            self.ram_before(n - 1) + self.components[n - 1].ram_size()
        }
    }

    /// Position of the first faulty component from `from` on, or the number of components.
    pub open spec fn sound_from(self, from: int) -> int
        decreases self.components.len() - from,
    {
        if from < 0 || from >= self.components.len() || self.components[from].fault(
            from as u32,
            self.links,
        ) is Some {
            from
        } else {
            self.sound_from(from + 1)
        }
    }

    /// Number of components before the first faulty one.
    pub open spec fn sound(self) -> int {
        self.sound_from(0)
    }

    /// Every count the engine keeps as a 32-bit id or offset fits one. The totals count the
    /// components before the first faulty one.
    pub open spec fn fits(self) -> bool {
        &&& self.links < usize::MAX
        &&& self.components.len() <= u32::MAX
        &&& forall|c: int|
            0 <= c < self.components.len() ==> {
                &&& (#[trigger] self.components[c]).inputs.len() <= u32::MAX
                &&& self.components[c].outputs.len() <= u32::MAX
            }
        &&& self.inputs_before(self.sound()) <= u32::MAX
        &&& self.outputs_before(self.sound()) <= u32::MAX
        &&& self.rom_before(self.sound()) <= u32::MAX
        &&& self.ram_before(self.sound()) <= u32::MAX
    }
}

/// The component id `c`, once for each of the first `n` input pins that reads link `l`.
pub open spec fn pin_readers(c: u32, inputs: Seq<u32>, l: u32, n: int) -> Seq<u32>
    decreases n,
{
    if n <= 0 {
        Seq::empty()
    } else if inputs[n - 1] == l {
        pin_readers(c, inputs, l, n - 1).push(c)
    } else {
        pin_readers(c, inputs, l, n - 1)
    }
}

impl Netlist {
    /// The ids of the components among the first `n` that read link `l`, in ascending order, each
    /// once per input pin that reads it.
    pub open spec fn readers_before(self, l: u32, n: int) -> Seq<u32>
        decreases n,
    {
        if n <= 0 {
            Seq::empty()
        } else {
            let ins = self.parts[n - 1].inputs;
            self.readers_before(l, n - 1) + pin_readers((n - 1) as u32, ins, l, ins.len() as int)
        }
    }

    /// The ids of the components that read link `l`, once per input pin that reads it.
    pub open spec fn readers(self, l: u32) -> Seq<u32> {
        self.readers_before(l, self.parts.len() as int)
    }
}

/// A pin list names its component exactly when some pin reads the link, and names nothing else.
pub proof fn lemma_pin_readers(c: u32, inputs: Seq<u32>, l: u32, n: int)
    requires
        0 <= n <= inputs.len(),
    ensures
        forall|i: int|
            0 <= i < pin_readers(c, inputs, l, n).len() ==> #[trigger] pin_readers(
                c,
                inputs,
                l,
                n,
            )[i] == c,
        pin_readers(c, inputs, l, n).len() > 0 <==> exists|p: int|
            0 <= p < n && #[trigger] inputs[p] == l,
    decreases n,
{
    if n > 0 {
        lemma_pin_readers(c, inputs, l, n - 1);
        let before = pin_readers(c, inputs, l, n - 1);
        if inputs[n - 1] != l {
            assert(forall|p: int| 0 <= p < n && #[trigger] inputs[p] == l ==> p < n - 1);
        }
    }
}

/// A link's readers are exactly the components with an input pin on it.
pub proof fn lemma_readers(net: Netlist, l: u32, n: int)
    requires
        0 <= n <= net.parts.len() <= u32::MAX,
    ensures
        forall|i: int|
            0 <= i < net.readers_before(l, n).len() ==> #[trigger] net.readers_before(l, n)[i] < n,
        forall|c: u32| #[trigger]
            net.readers_before(l, n).contains(c) <==> c < n && net.parts[c as int].inputs.contains(
                l,
            ),
    decreases n,
{
    if n > 0 {
        lemma_readers(net, l, n - 1);
        let ins = net.parts[n - 1].inputs;
        let k = (n - 1) as u32;
        let before = net.readers_before(l, n - 1);
        let own = pin_readers(k, ins, l, ins.len() as int);
        let all = net.readers_before(l, n);
        lemma_pin_readers(k, ins, l, ins.len() as int);
        assert(all == before + own);
        assert forall|c: u32| #[trigger] all.contains(c) <==> c < n
            && net.parts[c as int].inputs.contains(l) by {
            if all.contains(c) {
                let i = choose|i: int| 0 <= i < all.len() && all[i] == c;
                if i < before.len() {
                    assert(before[i] == c);
                    assert(before.contains(c));
                } else {
                    assert(own[i - before.len()] == c);
                    let p = choose|p: int| 0 <= p < ins.len() && #[trigger] ins[p] == l;
                    assert(ins.contains(l));
                }
            }
            if c < n && net.parts[c as int].inputs.contains(l) {
                if c < n - 1 {
                    assert(before.contains(c));
                    let i = choose|i: int| 0 <= i < before.len() && before[i] == c;
                    assert(all[i] == c);
                } else {
                    let p = choose|p: int| 0 <= p < ins.len() && ins[p] == l;
                    assert(ins[p] == l);
                    assert(own[0] == k);
                    assert(all[before.len() as int] == k);
                }
            }
        }
    }
}

/// The number of pins of the components before position `i` does not exceed the number before a
/// later position.
pub proof fn lemma_before_monotone(b: BoardModel, i: int, j: int)
    requires
        0 <= i <= j <= b.components.len(),
    ensures
        b.inputs_before(i) <= b.inputs_before(j),
        b.outputs_before(i) <= b.outputs_before(j),
        b.rom_before(i) <= b.rom_before(j),
        b.ram_before(i) <= b.ram_before(j),
    decreases j,
{
    if i < j {
        lemma_before_monotone(b, i, j - 1);
    }
}

/// Where no entry is out of bounds, the search runs to the end; where it stops early, it stops at
/// an entry out of bounds.
pub proof fn lemma_first_at_least(s: Seq<u32>, bound: u32, from: int)
    requires
        0 <= from <= s.len(),
    ensures
        from <= ComponentModel::first_at_least(s, bound, from) <= s.len(),
        forall|i: int|
            from <= i < ComponentModel::first_at_least(s, bound, from) ==> #[trigger] s[i] < bound,
        ComponentModel::first_at_least(s, bound, from) < s.len()
            ==> s[ComponentModel::first_at_least(s, bound, from)] >= bound,
    decreases s.len() - from,
{
    if from < s.len() && s[from] < bound {
        lemma_first_at_least(s, bound, from + 1);
    }
}

/// As [`lemma_first_at_least`], for pin indices.
pub proof fn lemma_first_pin_at_least(s: Seq<u16>, bound: nat, from: int)
    requires
        0 <= from <= s.len(),
    ensures
        from <= ComponentModel::first_pin_at_least(s, bound, from) <= s.len(),
        forall|i: int|
            from <= i < ComponentModel::first_pin_at_least(s, bound, from) ==> #[trigger] s[i]
                < bound,
        ComponentModel::first_pin_at_least(s, bound, from) < s.len()
            ==> s[ComponentModel::first_pin_at_least(s, bound, from)] >= bound,
    decreases s.len() - from,
{
    if from < s.len() && s[from] < bound {
        lemma_first_pin_at_least(s, bound, from + 1);
    }
}

/// A component without a fault compiles to a valid part whose links exist.
pub proof fn lemma_faultless_part(c: ComponentModel, idx: u32, links: u32)
    requires
        c.fault(idx, links) is None,
    ensures
        c.part().valid(),
        c.arity_ok(),
        c.config_ok(),
        forall|p: int| 0 <= p < c.inputs.len() ==> #[trigger] c.inputs[p] < links,
        forall|p: int| 0 <= p < c.outputs.len() ==> #[trigger] c.outputs[p] < links,
        forall|i: int| 0 <= i < c.neg_inputs.len() ==> #[trigger] c.neg_inputs[i] < c.inputs.len(),
        forall|i: int|
            0 <= i < c.neg_outputs.len() ==> #[trigger] c.neg_outputs[i] < c.outputs.len(),
{
    let pins = c.inputs + c.outputs;
    lemma_first_at_least(pins, links, 0);
    lemma_first_pin_at_least(c.neg_inputs, c.inputs.len(), 0);
    lemma_first_pin_at_least(c.neg_outputs, c.outputs.len(), 0);
    assert forall|p: int| 0 <= p < c.inputs.len() implies #[trigger] c.inputs[p] < links by {
        assert(pins[p] == c.inputs[p]);
    }
    assert forall|p: int| 0 <= p < c.outputs.len() implies #[trigger] c.outputs[p] < links by {
        assert(pins[p + c.inputs.len()] == c.outputs[p]);
    }
}

/// A board without a fault has no faulty component.
pub proof fn lemma_faultless_components(b: BoardModel, from: int)
    requires
        0 <= from <= b.components.len(),
        b.fault_from(from) is None,
    ensures
        forall|c: int|
            from <= c < b.components.len() ==> (#[trigger] b.components[c]).fault(
                c as u32,
                b.links,
            ) is None,
    decreases b.components.len() - from,
{
    if from < b.components.len() {
        lemma_faultless_components(b, from + 1);
    }
}

/// The components before the first faulty one are without fault; a board is without fault when it
/// has no faulty component.
pub proof fn lemma_sound(b: BoardModel, from: int)
    requires
        0 <= from <= b.components.len(),
    ensures
        from <= b.sound_from(from) <= b.components.len(),
        forall|c: int|
            from <= c < b.sound_from(from) ==> (#[trigger] b.components[c]).fault(
                c as u32,
                b.links,
            ) is None,
        b.sound_from(from) < b.components.len() ==> b.components[b.sound_from(from)].fault(
            b.sound_from(from) as u32,
            b.links,
        ) is Some && b.fault_from(from) == b.components[b.sound_from(from)].fault(
            b.sound_from(from) as u32,
            b.links,
        ),
        b.sound_from(from) == b.components.len() <==> b.fault_from(from) is None,
    decreases b.components.len() - from,
{
    if from < b.components.len() && b.components[from].fault(from as u32, b.links) is None {
        lemma_sound(b, from + 1);
    }
}

/// A board without a fault compiles to a valid netlist.
pub proof fn lemma_faultless_board(b: BoardModel)
    requires
        b.fault() is None,
        b.components.len() <= u32::MAX,
    ensures
        b.netlist().valid(),
{
    lemma_faultless_components(b, 0);
    let net = b.netlist();
    assert forall|c: int| 0 <= c < net.parts.len() implies (#[trigger] net.parts[c]).valid() by {
        lemma_faultless_part(b.components[c], c as u32, b.links);
    }
    assert forall|c: int, p: int|
        0 <= c < net.parts.len() && 0 <= p < net.parts[c].inputs.len() implies #[trigger] net.parts[c].inputs[p]
        < net.links by {
        lemma_faultless_part(b.components[c], c as u32, b.links);
    }
    assert forall|c: int, p: int|
        0 <= c < net.parts.len() && 0 <= p < net.parts[c].outputs.len() implies #[trigger] net.parts[c].outputs[p]
        < net.links by {
        lemma_faultless_part(b.components[c], c as u32, b.links);
    }
}

/// A component is accepted exactly when the links of its pins exist, its pins and parameters are in the
/// numbers its type asks for, and the pins it lists as negated exist.
pub proof fn law_accepted_components(c: ComponentModel, idx: u32, links: u32)
    requires
        c.inputs.len() <= usize::MAX,
        c.outputs.len() <= usize::MAX,
        c.ops.len() <= usize::MAX,
    ensures
        c.fault(idx, links) is None <==> {
            let ins = c.inputs.len();
            let outs = c.outputs.len();
            let ops = c.ops.len();
            &&& forall|p: int| 0 <= p < ins ==> #[trigger] c.inputs[p] < links
            &&& forall|p: int| 0 <= p < outs ==> #[trigger] c.outputs[p] < links
            &&& forall|i: int| 0 <= i < c.neg_inputs.len() ==> #[trigger] c.neg_inputs[i] < ins
            &&& forall|i: int| 0 <= i < c.neg_outputs.len() ==> #[trigger] c.neg_outputs[i] < outs
            &&& match c.ty {
                CompType::Not => ins == 1 && outs == 1 && ops == 0,
                CompType::And => ins >= 2 && outs == 1 && ops == 0,
                CompType::Or => ins >= 2 && outs == 1 && ops == 0,
                CompType::Xor => ins >= 2 && outs == 1 && ops == 0,
                CompType::Delay => ins == 1 && outs == 1 && ops == 0,
                CompType::Clk => ins == 1 && outs == 1 && ops == 1 && c.ops[0] > 0,
                CompType::HalfAdder => ins == 2 && outs == 2 && ops == 0,
                CompType::FullAdder => ins == 3 && outs == 2 && ops == 0,
                CompType::Rom => 1 <= ins <= 16 && 1 <= outs <= 64,
                CompType::DFf => ins == 2 && outs == 2 && ops == 0,
                CompType::JkFf => ins == 3 && outs == 2 && ops == 0,
                CompType::SrFf => ins == 3 && outs == 2 && ops == 0,
                CompType::Rng => ins == 1 && outs >= 1 && ops == 0,
                CompType::Ram => outs >= 1 && outs + 2 <= ins <= outs + 26 && ops == 0,
                CompType::Decoder => 1 <= ins <= 16 && outs == power2::pow2(ins) && ops == 0,
                CompType::Encoder => 1 <= outs <= 16 && ins == power2::pow2(outs) && ops == 0,
                CompType::Mux => ops == 1 && 1 <= c.ops[0] <= 16 && outs == 1 && ins == c.ops[0]
                    + power2::pow2(c.ops[0] as nat),
                CompType::Demux => 2 <= ins <= 17 && outs == power2::pow2((ins - 1) as nat) && ops
                    == 0,
                CompType::UserInput => ins == 0 && outs >= 1 && ops == 0,
                // The address of the last whole row takes the inputs besides the data and the clock,
                // and takes them all.
                CompType::LedMatrix => ops == 1 && {
                    let data: nat = if c.ops[0] <= 4 {
                        4
                    } else {
                        8
                    };
                    let addr = ins - data - 1;
                    &&& outs >= data
                    &&& addr >= 0
                    &&& outs / data <= power2::pow2(addr as nat)
                    &&& addr > 0 ==> power2::pow2((addr - 1) as nat) < outs / data
                },
            }
        },
{
    let pins = c.inputs + c.outputs;
    lemma_first_at_least(pins, links, 0);
    lemma_first_pin_at_least(c.neg_inputs, c.inputs.len(), 0);
    lemma_first_pin_at_least(c.neg_outputs, c.outputs.len(), 0);
    arith::lemma_small_powers();
    if c.fault(idx, links) is None {
        lemma_faultless_part(c, idx, links);
    }
    let at = ComponentModel::first_at_least(pins, links, 0);
    if at < pins.len() {
        if at < c.inputs.len() {
            assert(c.inputs[at] == pins[at]);
        } else {
            assert(c.outputs[at - c.inputs.len()] == pins[at]);
        }
    }
    if c.ty == CompType::Decoder && c.inputs.len() >= 1 {
        arith::lemma_pow2_monotone(1, c.inputs.len());
    }
    if c.ty == CompType::Encoder && c.outputs.len() >= 1 {
        arith::lemma_pow2_monotone(1, c.outputs.len());
    }
    if c.ty == CompType::Demux && c.inputs.len() >= 2 {
        arith::lemma_pow2_monotone(1, (c.inputs.len() - 1) as nat);
    }
    if c.ty == CompType::Mux && c.ops.len() == 1 && c.ops[0] >= 1 {
        arith::lemma_pow2_monotone(1, c.ops[0] as nat);
    }
}

/// What is said of a component that is not accepted. A link that does not exist comes before anything
/// else, then pin and parameter counts, then negated pins, those of the inputs before those of the
/// outputs; of several alike, the first is named.
pub proof fn law_reported_fault(c: ComponentModel, idx: u32, links: u32)
    ensures
        match c.fault(idx, links) {
            None => true,
            Some(SimError::LinkOutOfRange { idx: i, link, count }) => {
                let pins = c.inputs + c.outputs;
                &&& i == idx && count == links
                &&& exists|p: int|
                    0 <= p < pins.len() && #[trigger] pins[p] == link && link >= links && forall|q: int|
                        0 <= q < p ==> #[trigger] pins[q] < links
            },
            Some(SimError::BadArity { idx: i, ty, ins, outs, ops }) => {
                &&& i == idx && ty == c.ty
                &&& ins == c.inputs.len() as usize
                &&& outs == c.outputs.len() as usize
                &&& ops == c.ops.len() as usize
                &&& forall|p: int| 0 <= p < c.inputs.len() ==> #[trigger] c.inputs[p] < links
                &&& forall|p: int| 0 <= p < c.outputs.len() ==> #[trigger] c.outputs[p] < links
                // A configuration that does not fit the counts is looked at last.
                &&& c.arity_ok() ==> forall|j: int|
                    0 <= j < c.neg_inputs.len() ==> #[trigger] c.neg_inputs[j] < c.inputs.len()
                &&& c.arity_ok() ==> forall|j: int|
                    0 <= j < c.neg_outputs.len() ==> #[trigger] c.neg_outputs[j] < c.outputs.len()
            },
            Some(SimError::NegateOutOfRange { idx: i, pin_kind, pin, count }) => {
                &&& i == idx
                &&& c.arity_ok()
                &&& pin_kind == PinKind::Input ==> count == c.inputs.len() as u32 && pin
                    >= c.inputs.len() && exists|k: int|
                    0 <= k < c.neg_inputs.len() && #[trigger] c.neg_inputs[k] == pin && forall|j: int|
                        0 <= j < k ==> #[trigger] c.neg_inputs[j] < c.inputs.len()
                &&& pin_kind == PinKind::Output ==> count == c.outputs.len() as u32 && pin
                    >= c.outputs.len() && exists|k: int|
                    0 <= k < c.neg_outputs.len() && #[trigger] c.neg_outputs[k] == pin && forall|j: int|
                        0 <= j < k ==> #[trigger] c.neg_outputs[j] < c.outputs.len()
                &&& pin_kind == PinKind::Output ==> forall|j: int|
                    0 <= j < c.neg_inputs.len() ==> #[trigger] c.neg_inputs[j] < c.inputs.len()
                &&& forall|p: int| 0 <= p < c.inputs.len() ==> #[trigger] c.inputs[p] < links
                &&& forall|p: int| 0 <= p < c.outputs.len() ==> #[trigger] c.outputs[p] < links
            },
            Some(_) => false,
        },
        (exists|p: int| 0 <= p < c.inputs.len() && #[trigger] c.inputs[p] >= links) ==> c.fault(
            idx,
            links,
        ) matches Some(SimError::LinkOutOfRange { .. }),
        (exists|p: int| 0 <= p < c.outputs.len() && #[trigger] c.outputs[p] >= links) ==> c.fault(
            idx,
            links,
        ) matches Some(SimError::LinkOutOfRange { .. }),
{
    let pins = c.inputs + c.outputs;
    lemma_first_at_least(pins, links, 0);
    lemma_first_pin_at_least(c.neg_inputs, c.inputs.len(), 0);
    lemma_first_pin_at_least(c.neg_outputs, c.outputs.len(), 0);
    let at = ComponentModel::first_at_least(pins, links, 0);
    if at == pins.len() {
        assert forall|p: int| 0 <= p < c.inputs.len() implies #[trigger] c.inputs[p] < links by {
            assert(pins[p] == c.inputs[p]);
        }
        assert forall|p: int| 0 <= p < c.outputs.len() implies #[trigger] c.outputs[p] < links by {
            assert(pins[p + c.inputs.len()] == c.outputs[p]);
        }
    } else {
        assert(pins[at] >= links);
        assert(0 <= at && forall|q: int| 0 <= q < at ==> #[trigger] pins[q] < links);
    }
    let k = ComponentModel::first_pin_at_least(c.neg_inputs, c.inputs.len(), 0);
    let j = ComponentModel::first_pin_at_least(c.neg_outputs, c.outputs.len(), 0);
    assert(k < c.neg_inputs.len() ==> c.neg_inputs[k] >= c.inputs.len());
    assert(j < c.neg_outputs.len() ==> c.neg_outputs[j] >= c.outputs.len());
}

/// The fault of a board is that of its first component that is not accepted; without one, the board
/// has none.
pub proof fn law_first_fault_is_reported(b: BoardModel, c: int)
    requires
        0 <= c < b.components.len(),
        forall|i: int|
            0 <= i < c ==> (#[trigger] b.components[i]).fault(i as u32, b.links) is None,
    ensures
        b.components[c].fault(c as u32, b.links) is Some ==> b.fault() == b.components[c].fault(
            c as u32,
            b.links,
        ),
        b.components[c].fault(c as u32, b.links) is None && c == b.components.len() - 1
            ==> b.fault() is None,
{
    lemma_sound(b, 0);
    let at = b.sound();
    if at < b.components.len() {
        assert(b.components[at].fault(at as u32, b.links) is Some);
        assert(at >= c);
        if b.components[c].fault(c as u32, b.links) is Some {
            assert(at == c);
        }
    }
}

/// A component is compiled as described: its pins stay on their links, a pin is negated when it is
/// listed as such, and the parameters of its type are taken from the ops. A byte of a ROM is the low
/// byte of its op, or zero where there is none.
pub proof fn law_compiled_as_described(b: BoardModel, c: int, p: int)
    requires
        b.fault() is None,
        0 <= c < b.components.len(),
    ensures
        ({
            let comp = b.components[c];
            let part = b.netlist().parts[c];
            &&& b.netlist().links == b.links
            &&& b.netlist().parts.len() == b.components.len()
            &&& part.ty == comp.ty
            &&& part.inputs == comp.inputs
            &&& part.outputs == comp.outputs
            &&& part.neg_inputs.len() == comp.inputs.len()
            &&& part.neg_outputs.len() == comp.outputs.len()
            &&& 0 <= p < comp.inputs.len() ==> (part.neg_inputs[p] <==> exists|i: int|
                0 <= i < comp.neg_inputs.len() && #[trigger] comp.neg_inputs[i] == p)
            &&& 0 <= p < comp.outputs.len() ==> (part.neg_outputs[p] <==> exists|i: int|
                0 <= i < comp.neg_outputs.len() && #[trigger] comp.neg_outputs[i] == p)
            &&& comp.ty == CompType::Clk || comp.ty == CompType::Mux ==> part.param == comp.ops[0]
            &&& comp.ty == CompType::LedMatrix ==> part.param == if comp.ops[0] <= 4 {
                4int
            } else {
                8
            }
            &&& comp.ty == CompType::Rom ==> {
                let bits = part.outputs.len() * power2::pow2(part.inputs.len());
                // The fewest whole bytes that hold a word for each address.
                &&& 8 * part.rom.len() >= bits > 8 * (part.rom.len() - 1)
                &&& 0 <= p < part.rom.len() && p < comp.ops.len() ==> part.rom[p] == comp.ops[p]
                    % 256
                &&& comp.ops.len() <= p < part.rom.len() ==> part.rom[p] == 0
            }
        }),
{
    lemma_faultless_components(b, 0);
    let comp = b.components[c];
    lemma_faultless_part(comp, c as u32, b.links);
    if comp.ty == CompType::Rom && 0 <= p < comp.ops.len() {
        let op = comp.ops[p];
        assert((op as u8) == op % 256) by (bit_vector);
    }
}

/// The entries of a pin list, counted.
proof fn lemma_pin_readers_count(c: u32, inputs: Seq<u32>, l: u32, n: int, d: u32)
    requires
        0 <= n <= inputs.len(),
    ensures
        pin_readers(c, inputs, l, n).filter(|x: u32| x == d).len() == if d == c {
            inputs.take(n).filter(|x: u32| x == l).len()
        } else {
            0
        },
    decreases n,
{
    reveal(Seq::filter);
    if n > 0 {
        lemma_pin_readers_count(c, inputs, l, n - 1, d);
        let before = pin_readers(c, inputs, l, n - 1);
        assert(inputs.take(n).drop_last() =~= inputs.take(n - 1));
        assert(before.push(c).drop_last() =~= before);
    }
}

proof fn lemma_readers_count(net: Netlist, l: u32, n: int, d: u32)
    requires
        0 <= n <= net.parts.len() <= u32::MAX,
        d < net.parts.len(),
    ensures
        net.readers_before(l, n).filter(|x: u32| x == d).len() == if d < n {
            net.parts[d as int].inputs.filter(|x: u32| x == l).len()
        } else {
            0
        },
    decreases n,
{
    if n > 0 {
        lemma_readers_count(net, l, n - 1, d);
        let ins = net.parts[n - 1].inputs;
        let before = net.readers_before(l, n - 1);
        let own = pin_readers((n - 1) as u32, ins, l, ins.len() as int);
        lemma_pin_readers_count((n - 1) as u32, ins, l, ins.len() as int, d);
        assert(ins.take(ins.len() as int) =~= ins);
        Seq::filter_distributes_over_add(before, own, |x: u32| x == d);
    } else {
        reveal(Seq::filter);
    }
}

proof fn lemma_readers_sorted(net: Netlist, l: u32, n: int)
    requires
        0 <= n <= net.parts.len() <= u32::MAX,
    ensures
        forall|i: int, j: int|
            0 <= i <= j < net.readers_before(l, n).len() ==> #[trigger] net.readers_before(l, n)[i]
                <= #[trigger] net.readers_before(l, n)[j],
    decreases n,
{
    if n > 0 {
        lemma_readers_sorted(net, l, n - 1);
        lemma_readers(net, l, n - 1);
        let ins = net.parts[n - 1].inputs;
        let before = net.readers_before(l, n - 1);
        let own = pin_readers((n - 1) as u32, ins, l, ins.len() as int);
        let all = net.readers_before(l, n);
        lemma_pin_readers((n - 1) as u32, ins, l, ins.len() as int);
        assert forall|i: int, j: int| 0 <= i <= j < all.len() implies #[trigger] all[i]
            <= #[trigger] all[j] by {
            if j < before.len() {
                assert(all[i] == before[i] && all[j] == before[j]);
            } else {
                assert(all[j] == own[j - before.len()]);
                if i < before.len() {
                    assert(all[i] == before[i]);
                } else {
                    assert(all[i] == own[i - before.len()]);
                }
            }
        }
    }
}

/// The readers of a link are in ascending order, and a component is among them once for each of its
/// input pins on the link.
pub proof fn law_readers(net: Netlist, l: u32, c: u32, i: int, j: int)
    requires
        net.parts.len() <= u32::MAX,
        c < net.parts.len(),
    ensures
        0 <= i <= j < net.readers(l).len() ==> net.readers(l)[i] <= net.readers(l)[j],
        0 <= i < net.readers(l).len() ==> net.readers(l)[i] < net.parts.len(),
        net.readers(l).filter(|x: u32| x == c).len() == net.parts[c as int].inputs.filter(
            |x: u32| x == l,
        ).len(),
{
    lemma_readers_sorted(net, l, net.parts.len() as int);
    lemma_readers(net, l, net.parts.len() as int);
    lemma_readers_count(net, l, net.parts.len() as int, c);
}

/// The totals of a board's components, one component at a time: their input and output pins, a word of a
/// ROM for each of its addresses and a word of a RAM for each of its own, in whole bytes.
pub proof fn law_totals(b: BoardModel, n: int)
    requires
        0 <= n < b.components.len(),
    ensures
        b.inputs_before(0) == 0 && b.outputs_before(0) == 0,
        b.rom_before(0) == 0 && b.ram_before(0) == 0,
        ({
            let c = b.components[n];
            let ins = c.inputs.len();
            let outs = c.outputs.len();
            let rom = b.rom_before(n + 1) - b.rom_before(n);
            let ram = b.ram_before(n + 1) - b.ram_before(n);
            &&& b.inputs_before(n + 1) == b.inputs_before(n) + ins
            &&& b.outputs_before(n + 1) == b.outputs_before(n) + outs
            &&& c.ty == CompType::Rom ==> 8 * rom >= outs * power2::pow2(ins) > 8 * (rom - 1)
            &&& c.ty != CompType::Rom ==> rom == 0
            &&& c.ty == CompType::Ram && ins >= outs + 2 ==> 8 * ram >= outs * power2::pow2(
                (ins - outs - 2) as nat,
            ) > 8 * (ram - 1)
            &&& c.ty != CompType::Ram ==> ram == 0
        }),
{
}

/// A board can be compiled when its links, its components, and the totals of those ahead of the first
/// faulty one fit their 32-bit fields.
pub proof fn law_boards_that_fit(b: BoardModel, n: int)
    requires
        0 <= n <= b.components.len(),
        forall|i: int|
            0 <= i < n ==> (#[trigger] b.components[i]).fault(i as u32, b.links) is None,
        n < b.components.len() ==> b.components[n].fault(n as u32, b.links) is Some,
    ensures
        b.fits() <==> {
            &&& b.links < usize::MAX
            &&& b.components.len() <= 0xFFFF_FFFF
            &&& forall|c: int|
                0 <= c < b.components.len() ==> (#[trigger] b.components[c]).inputs.len()
                    <= 0xFFFF_FFFF && b.components[c].outputs.len() <= 0xFFFF_FFFF
            &&& b.inputs_before(n) <= 0xFFFF_FFFF
            &&& b.outputs_before(n) <= 0xFFFF_FFFF
            &&& b.rom_before(n) <= 0xFFFF_FFFF
            &&& b.ram_before(n) <= 0xFFFF_FFFF
        },
{
    lemma_sound(b, 0);
    let at = b.sound();
    if at < n {
        assert(b.components[at].fault(at as u32, b.links) is None);
    } else if at > n {
        assert(b.components[n].fault(n as u32, b.links) is None);
    }
}

} // verus!
