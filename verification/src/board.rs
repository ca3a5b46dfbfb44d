//! Board description, builder, and the compile step that lowers a board to flat arrays with
//! offset-indexed adjacency.
//!
//! Component ids are the submission order the caller used.

use vstd::prelude::*;
use crate::arith;
use crate::bitset::BitSet;
use crate::components;
use crate::error::{PinKind, SimError};
#[allow(unused_imports)]
use crate::netlist::{self, BoardModel, ComponentModel, Netlist, Part};
#[allow(unused_imports)]
use vstd::arithmetic::power2;
use crate::types::CompType;

verus! {

/// One component in a board description. Input and output entries are link ids; `neg_inputs` and
/// `neg_outputs` list the pins that invert what they read or drive.
#[derive(Clone, Debug, PartialEq, Eq)]
pub struct ComponentDescriptor {
    pub ty: CompType,
    pub inputs: Vec<u32>,
    pub outputs: Vec<u32>,
    pub ops: Vec<u32>,
    pub neg_inputs: Vec<u16>,
    pub neg_outputs: Vec<u16>,
}

impl View for ComponentDescriptor {
    type V = ComponentModel;

    open spec fn view(&self) -> ComponentModel {
        ComponentModel {
            ty: self.ty,
            inputs: self.inputs@,
            outputs: self.outputs@,
            ops: self.ops@,
            neg_inputs: self.neg_inputs@,
            neg_outputs: self.neg_outputs@,
        }
    }
}

/// A board: a link count plus a list of components.
#[derive(Clone, Debug, PartialEq, Eq)]
pub struct BoardDescriptor {
    pub link_count: u32,
    pub components: Vec<ComponentDescriptor>,
}

impl View for BoardDescriptor {
    type V = BoardModel;

    open spec fn view(&self) -> BoardModel {
        BoardModel {
            links: self.link_count,
            components: Seq::new(self.components@.len(), |i: int| self.components@[i]@),
        }
    }
}

/// Programmatic board construction.
pub struct BoardBuilder {
    link_count: u32,
    components: Vec<ComponentDescriptor>,
}

impl View for BoardBuilder {
    type V = BoardModel;

    closed spec fn view(&self) -> BoardModel {
        BoardModel {
            links: self.link_count,
            components: Seq::new(self.components@.len(), |i: int| self.components@[i]@),
        }
    }
}

impl BoardBuilder {
    /// Start a board with `link_count` links and no components.
    pub fn new(link_count: u32) -> (r: Self)
        ensures
            r@ == (BoardModel { links: link_count, components: Seq::empty() }),
    {
        let r = BoardBuilder { link_count, components: Vec::new() };
        assert(r@.components =~= Seq::empty());
        r
    }

    /// Append a component without negated pins; returns its id.
    pub fn component(&mut self, ty: CompType, inputs: &[u32], outputs: &[u32], ops: &[u32]) -> (id:
        u32)
        ensures
            id == old(self)@.components.len() as u32,
            final(self)@ == (BoardModel {
                links: old(self)@.links,
                components: old(self)@.components.push(
                    ComponentModel {
                        ty,
                        inputs: inputs@,
                        outputs: outputs@,
                        ops: ops@,
                        neg_inputs: Seq::empty(),
                        neg_outputs: Seq::empty(),
                    },
                ),
            }),
    {
        let none: [u16; 0] = [];
        let id: u32 = self.component_neg(ty, inputs, outputs, ops, &none, &none);
        assert(none@ =~= Seq::empty());
        id
    }

    /// Append a component whose listed pins are negated; returns its id.
    pub fn component_neg(
        &mut self,
        ty: CompType,
        inputs: &[u32],
        outputs: &[u32],
        ops: &[u32],
        neg_inputs: &[u16],
        neg_outputs: &[u16],
    ) -> (id: u32)
        ensures
            id == old(self)@.components.len() as u32,
            final(self)@ == (BoardModel {
                links: old(self)@.links,
                components: old(self)@.components.push(
                    ComponentModel {
                        ty,
                        inputs: inputs@,
                        outputs: outputs@,
                        ops: ops@,
                        neg_inputs: neg_inputs@,
                        neg_outputs: neg_outputs@,
                    },
                ),
            }),
    {
        let id: u32 = self.components.len() as u32;
        self.components.push(
            ComponentDescriptor {
                ty,
                inputs: vstd::slice::slice_to_vec(inputs),
                outputs: vstd::slice::slice_to_vec(outputs),
                ops: vstd::slice::slice_to_vec(ops),
                neg_inputs: vstd::slice::slice_to_vec(neg_inputs),
                neg_outputs: vstd::slice::slice_to_vec(neg_outputs),
            },
        );
        proof {
            let added = ComponentModel {
                ty,
                inputs: inputs@,
                outputs: outputs@,
                ops: ops@,
                neg_inputs: neg_inputs@,
                neg_outputs: neg_outputs@,
            };
            assert(self@.components =~= old(self)@.components.push(added));
        }
        id
    }

    /// Finish into a `BoardDescriptor`.
    pub fn finish(self) -> (r: BoardDescriptor)
        ensures
            r@ == self@,
    {
        BoardDescriptor { link_count: self.link_count, components: self.components }
    }
}

/// Constant parameters of a component, captured once at compile time.
///
/// `a` is the byte offset of a ROM's data or of a RAM's memory, a multiplexer's select width, a
/// clock's period, or a LED matrix's data width. `b` is a LED matrix's address width. Both are 0
/// for the types without parameters.
#[derive(Clone, Copy, Debug)]
pub struct CompConfig {
    pub a: u32,
    pub b: u32,
}

/// A configuration without parameters.
pub open spec fn no_config() -> CompConfig {
    CompConfig { a: 0, b: 0 }
}

/// The configuration of a component that the ROM pool at `rom` bytes and the RAM pool at `ram`
/// bytes are extended for.
pub open spec fn config_of(c: ComponentModel, rom: nat, ram: nat) -> CompConfig {
    match c.ty {
        CompType::Clk | CompType::Mux => CompConfig { a: c.ops[0], b: 0 },
        CompType::Rom => CompConfig { a: rom as u32, b: 0 },
        CompType::Ram => CompConfig { a: ram as u32, b: 0 },
        CompType::LedMatrix => CompConfig {
            a: netlist::led_data_width(c.ops[0]) as u32,
            b: (c.inputs.len() - netlist::led_data_width(c.ops[0]) - 1) as u32,
        },
        _ => no_config(),
    }
}

/// The bytes of ROM contents and of RAM a component asks for, or `None` where its counts break the
/// cross-field constraints of its type (a decoder's `outputs == 2^inputs` and the like).
fn memory_needs(c: &ComponentDescriptor) -> (r: Option<(u64, u64)>)
    requires
        c@.arity_ok(),
        c@.inputs.len() <= u32::MAX,
        c@.outputs.len() <= u32::MAX,
    ensures
        r is Some <==> c@.config_ok(),
        r matches Some((rom, ram)) ==> rom == c@.part().rom.len() && ram == c@.ram_size(),
{
    let ins: usize = c.inputs.len();
    let outs: usize = c.outputs.len();
    proof {
        arith::lemma_small_powers();
    }
    let ok: bool = match c.ty {
        CompType::Clk => c.ops[0] >= 1,
        CompType::Rom => {
            proof {
                arith::lemma_pow2_monotone(ins as nat, 16);
                assert(outs * power2::pow2(ins as nat) <= 64 * 65536) by (nonlinear_arith)
                    requires
                        0 <= outs <= 64,
                        0 <= power2::pow2(ins as nat) <= 65536,
                ;
            }
            let bits: u64 = outs as u64 * arith::two_to(ins as u32);
            return Some(((bits + 7) / 8, 0));
        },
        CompType::Decoder => outs as u64 == arith::two_to(ins as u32),
        CompType::Encoder => ins as u64 == arith::two_to(outs as u32),
        CompType::Mux => {
            let sel: u32 = c.ops[0];
            if sel == 0 || sel > 16 {
                false
            } else {
                proof {
                    arith::lemma_pow2_monotone(sel as nat, 16);
                }
                ins as u64 == arith::two_to(sel) + sel as u64
            }
        },
        CompType::Demux => ins - 1 <= 16 && outs as u64 == arith::two_to((ins - 1) as u32),
        CompType::Ram => {
            if ins < 2 || ins - 2 < outs || ins - 2 - outs > 24 {
                return None;
            }
            let addr: u32 = (ins - 2 - outs) as u32;
            proof {
                arith::lemma_pow2_monotone(addr as nat, 24);
                assert(c@.part().mem_bits() == outs * power2::pow2(addr as nat));
                assert(outs * power2::pow2(addr as nat) <= 0xffff_ffff * 16777216)
                    by (nonlinear_arith)
                    requires
                        0 <= outs <= 0xffff_ffff,
                        0 <= power2::pow2(addr as nat) <= 16777216,
                ;
            }
            let bits: u64 = outs as u64 * arith::two_to(addr);
            return Some((0, (bits + 7) / 8));
        },
        CompType::LedMatrix => {
            let data: usize = led_data_bus(c.ops[0]);
            if outs < data {
                false
            } else {
                let rows: u32 = (outs / data) as u32;
                let addr: u32 = arith::ceil_log2(rows);
                proof {
                    if c@.config_ok() {
                        arith::lemma_ceil_log2_unique(
                            rows as nat,
                            addr as nat,
                            (ins - data - 1) as nat,
                        );
                    }
                }
                ins as u64 == addr as u64 + data as u64 + 1
            }
        },
        _ => true,
    };
    if ok {
        Some((0, 0))
    } else {
        None
    }
}

/// Width of a LED matrix's data bus, as selected by its only op.
fn led_data_bus(op: u32) -> (r: usize)
    ensures
        r == netlist::led_data_width(op),
{
    if op > 4 {
        8
    } else {
        4
    }
}

/// Derive a component's configuration, appending its ROM contents to `rom_data` and reserving its
/// RAM bytes. The coarse pin counts already satisfy the arity; this adds the cross-field
/// constraints.
fn configure(
    idx: u32,
    c: &ComponentDescriptor,
    rom_data: &mut Vec<u8>,
    ram_bytes: &mut u32,
) -> (r: Result<CompConfig, SimError>)
    requires
        c@.arity_ok(),
        c@.inputs.len() <= u32::MAX,
        c@.outputs.len() <= u32::MAX,
        c@.config_ok() ==> old(rom_data)@.len() + c@.part().rom.len() <= u32::MAX,
        c@.config_ok() ==> *old(ram_bytes) + c@.ram_size() <= u32::MAX,
    ensures
        r is Ok <==> c@.config_ok(),
        r is Err ==> r->Err_0 == c@.bad_arity(idx),
        r is Ok ==> {
            &&& r->Ok_0 == config_of(c@, old(rom_data)@.len(), *old(ram_bytes) as nat)
            &&& final(rom_data)@ == old(rom_data)@ + c@.part().rom
            &&& *final(ram_bytes) == *old(ram_bytes) + c@.ram_size()
        },
        r is Err ==> final(rom_data)@ == old(rom_data)@ && *final(ram_bytes) == *old(ram_bytes),
{
    let ins: usize = c.inputs.len();
    let outs: usize = c.outputs.len();
    proof {
        assert(c.ty != CompType::Rom ==> rom_data@ + c@.part().rom =~= rom_data@);
    }
    let (rom_size, ram_size): (u64, u64) = match memory_needs(c) {
        None => {
            return Err(SimError::BadArity { idx, ty: c.ty, ins, outs, ops: c.ops.len() });
        },
        Some(needs) => needs,
    };
    let none = CompConfig { a: 0, b: 0 };
    let cfg: CompConfig = match c.ty {
        CompType::Clk | CompType::Mux => CompConfig { a: c.ops[0], b: 0 },
        CompType::Rom => {
            let size: usize = rom_size as usize;
            let off: u32 = rom_data.len() as u32;
            let mut j: usize = 0;
            while j < size
                invariant
                    c.ty == CompType::Rom,
                    j <= size,
                    size == c@.part().rom.len(),
                    rom_data@ == old(rom_data)@ + c@.part().rom.subrange(0, j as int),
                decreases size - j,
            {
                let b: u8 = if j < c.ops.len() {
                    c.ops[j] as u8
                } else {
                    0
                };
                rom_data.push(b);
                proof {
                    assert(c@.part().rom.subrange(0, j + 1) =~= c@.part().rom.subrange(
                        0,
                        j as int,
                    ).push(b));
                }
                j = j + 1;
            }
            assert(c@.part().rom.subrange(0, size as int) =~= c@.part().rom);
            CompConfig { a: off, b: 0 }
        },
        CompType::Ram => {
            let off: u32 = *ram_bytes;
            *ram_bytes = off + ram_size as u32;
            CompConfig { a: off, b: 0 }
        },
        CompType::LedMatrix => {
            let data: usize = led_data_bus(c.ops[0]);
            CompConfig { a: data as u32, b: (ins - data - 1) as u32 }
        },
        _ => none,
    };
    Ok(cfg)
}

/// The link or pin of a component that is out of range, or its bad arity, if any.
fn check_component(idx: u32, c: &ComponentDescriptor, link_count: u32) -> (r: Result<(), SimError>)
    requires
        c@.inputs.len() <= u32::MAX,
        c@.outputs.len() <= u32::MAX,
    ensures
        r is Err ==> c@.fault(idx, link_count) == Some(r->Err_0),
        r is Ok ==> c@.arity_ok() && c@.fault(idx, link_count) == (if c@.config_ok() {
            None
        } else {
            Some(c@.bad_arity(idx))
        }),
{
    let ghost pins = c@.inputs + c@.outputs;
    let ins: usize = c.inputs.len();
    let outs: usize = c.outputs.len();
    let mut i: usize = 0;
    while i < ins
        invariant
            i <= ins,
            ins == c@.inputs.len(),
            pins == c@.inputs + c@.outputs,
            ComponentModel::first_at_least(pins, link_count, 0)
                == ComponentModel::first_at_least(pins, link_count, i as int),
        decreases ins - i,
    {
        let l: u32 = c.inputs[i];
        assert(pins[i as int] == l);
        if l >= link_count {
            return Err(SimError::LinkOutOfRange { idx, link: l, count: link_count });
        }
        i = i + 1;
    }
    let mut i: usize = 0;
    while i < outs
        invariant
            i <= outs,
            ins == c@.inputs.len(),
            outs == c@.outputs.len(),
            pins == c@.inputs + c@.outputs,
            ComponentModel::first_at_least(pins, link_count, 0)
                == ComponentModel::first_at_least(pins, link_count, ins + i),
        decreases outs - i,
    {
        let l: u32 = c.outputs[i];
        assert(pins[ins + i] == l);
        if l >= link_count {
            return Err(SimError::LinkOutOfRange { idx, link: l, count: link_count });
        }
        i = i + 1;
    }
    if !components::arity(c.ty).accepts(ins, outs, c.ops.len()) {
        return Err(SimError::BadArity { idx, ty: c.ty, ins, outs, ops: c.ops.len() });
    }
    let mut i: usize = 0;
    while i < c.neg_inputs.len()
        invariant
            i <= c@.neg_inputs.len(),
            ins == c@.inputs.len(),
            ComponentModel::first_pin_at_least(c@.neg_inputs, ins as nat, 0)
                == ComponentModel::first_pin_at_least(c@.neg_inputs, ins as nat, i as int),
            c@.inputs.len() <= u32::MAX,
            ComponentModel::first_at_least(pins, link_count, 0) == pins.len(),
            pins == c@.inputs + c@.outputs,
            c@.arity_ok(),
        decreases c@.neg_inputs.len() - i,
    {
        let pin: u16 = c.neg_inputs[i];
        if pin as usize >= ins {
            return Err(
                SimError::NegateOutOfRange { idx, pin_kind: PinKind::Input, pin, count: ins as u32 },
            );
        }
        i = i + 1;
    }
    let mut i: usize = 0;
    while i < c.neg_outputs.len()
        invariant
            i <= c@.neg_outputs.len(),
            ins == c@.inputs.len(),
            outs == c@.outputs.len(),
            ComponentModel::first_pin_at_least(c@.neg_inputs, ins as nat, 0)
                == c@.neg_inputs.len(),
            ComponentModel::first_pin_at_least(c@.neg_outputs, outs as nat, 0)
                == ComponentModel::first_pin_at_least(c@.neg_outputs, outs as nat, i as int),
            c@.outputs.len() <= u32::MAX,
            ComponentModel::first_at_least(pins, link_count, 0) == pins.len(),
            pins == c@.inputs + c@.outputs,
            c@.arity_ok(),
        decreases c@.neg_outputs.len() - i,
    {
        let pin: u16 = c.neg_outputs[i];
        if pin as usize >= outs {
            return Err(
                SimError::NegateOutOfRange {
                    idx,
                    pin_kind: PinKind::Output,
                    pin,
                    count: outs as u32,
                },
            );
        }
        i = i + 1;
    }
    Ok(())
}

impl BoardDescriptor {
    /// Whether every count of the board fits the 32-bit ids and offsets the engine works with.
    /// [`Board::compile`] takes only boards that fit.
    pub fn fits(&self) -> (r: bool)
        ensures
            r == self@.fits(),
    {
        let n: usize = self.components.len();
        if self.link_count as usize == usize::MAX || n as u64 > u32::MAX as u64 {
            return false;
        }
        let mut i: usize = 0;
        while i < n
            invariant
                i <= n,
                n == self@.components.len(),
                forall|c: int|
                    0 <= c < i ==> {
                        &&& (#[trigger] self@.components[c]).inputs.len() <= u32::MAX
                        &&& self@.components[c].outputs.len() <= u32::MAX
                    },
            decreases n - i,
        {
            let c = &self.components[i];
            assert(self@.components[i as int] == c@);
            if c.inputs.len() as u64 > u32::MAX as u64 || c.outputs.len() as u64 > u32::MAX as u64 {
                return false;
            }
            i = i + 1;
        }
        proof {
            netlist::lemma_sound(self@, 0);
        }
        let limit: u64 = u32::MAX as u64;
        let (mut ins, mut outs, mut rom, mut ram): (u64, u64, u64, u64) = (0, 0, 0, 0);
        let mut i: usize = 0;
        while i < n
            invariant
                i <= n,
                n == self@.components.len(),
                n <= u32::MAX,
                limit == u32::MAX,
                forall|c: int|
                    0 <= c < n ==> {
                        &&& (#[trigger] self@.components[c]).inputs.len() <= u32::MAX
                        &&& self@.components[c].outputs.len() <= u32::MAX
                    },
                self@.sound() == self@.sound_from(i as int),
                ins == self@.inputs_before(i as int) && ins <= limit,
                outs == self@.outputs_before(i as int) && outs <= limit,
                rom == self@.rom_before(i as int) && rom <= limit,
                ram == self@.ram_before(i as int) && ram <= limit,
                self@.links < usize::MAX,
            decreases n - i,
        {
            let c = &self.components[i];
            assert(self@.components[i as int] == c@);
            if check_component(i as u32, c, self.link_count).is_err() {
                return true;
            }
            match memory_needs(c) {
                None => {
                    return true;
                },
                Some((rom_size, ram_size)) => {
                    proof {
                        netlist::lemma_sound(self@, i + 1);
                        netlist::lemma_before_monotone(self@, i + 1, self@.sound());
                    }
                    ins = ins + c.inputs.len() as u64;
                    outs = outs + c.outputs.len() as u64;
                    if rom_size > limit || ram_size > limit {
                        return false;
                    }
                    rom = rom + rom_size;
                    ram = ram + ram_size;
                    if ins > limit || outs > limit || rom > limit || ram > limit {
                        return false;
                    }
                },
            }
            i = i + 1;
        }
        true
    }
}

/// The stretch of a per-input-pin sequence that belongs to component `c`.
spec fn in_slot<A>(b: BoardModel, s: Seq<A>, c: int) -> Seq<A> {
    s.subrange(b.inputs_before(c) as int, b.inputs_before(c + 1) as int)
}

/// The stretch of a per-output-pin sequence that belongs to component `c`.
spec fn out_slot<A>(b: BoardModel, s: Seq<A>, c: int) -> Seq<A> {
    s.subrange(b.outputs_before(c) as int, b.outputs_before(c + 1) as int)
}

/// The stretch of the ROM pool that belongs to component `c`.
spec fn rom_slot(b: BoardModel, s: Seq<u8>, c: int) -> Seq<u8> {
    s.subrange(b.rom_before(c) as int, b.rom_before(c + 1) as int)
}

/// What the first pass over a board lays out: types, configurations, memory and pin offsets.
struct Layout {
    comp_ty: Vec<CompType>,
    comp_config: Vec<CompConfig>,
    rom_data: Vec<u8>,
    ram_bytes: u32,
    comp_in_off: Vec<u32>,
    comp_out_off: Vec<u32>,
}

impl Layout {
    /// The first `n` components of `b` are laid out.
    spec fn covers(&self, b: BoardModel, n: int) -> bool {
        &&& self.comp_ty@.len() == n
        &&& self.comp_config@.len() == n
        &&& self.rom_data@.len() == b.rom_before(n)
        &&& self.ram_bytes == b.ram_before(n)
        &&& self.comp_in_off@.len() == n + 1
        &&& self.comp_out_off@.len() == n + 1
        &&& forall|c: int| 0 <= c <= n ==> #[trigger] self.comp_in_off@[c] == b.inputs_before(c)
        &&& forall|c: int| 0 <= c <= n ==> #[trigger] self.comp_out_off@[c] == b.outputs_before(c)
        &&& forall|c: int| 0 <= c < n ==> #[trigger] self.comp_ty@[c] == b.components[c].ty
        &&& forall|c: int|
            0 <= c < n ==> #[trigger] self.comp_config@[c] == config_of(
                b.components[c],
                b.rom_before(c),
                b.ram_before(c),
            )
        &&& forall|c: int|
            0 <= c < n ==> #[trigger] rom_slot(b, self.rom_data@, c) == b.components[c].part().rom
    }
}

/// Validate the components in order and lay them out, up to the first fault.
fn lay_out(desc: &BoardDescriptor) -> (r: Result<Layout, SimError>)
    requires
        desc@.fits(),
    ensures
        r is Err ==> desc@.fault() == Some(r->Err_0),
        r is Ok ==> desc@.fault() is None && r->Ok_0.covers(
            desc@,
            desc@.components.len() as int,
        ),
{
    let ghost b = desc@;
    let n: usize = desc.components.len();
    let mut comp_ty: Vec<CompType> = Vec::new();
    let mut comp_config: Vec<CompConfig> = Vec::new();
    let mut rom_data: Vec<u8> = Vec::new();
    let mut ram_bytes: u32 = 0;
    let mut comp_in_off: Vec<u32> = Vec::new();
    let mut comp_out_off: Vec<u32> = Vec::new();
    comp_in_off.push(0);
    comp_out_off.push(0);
    let mut in_total: u32 = 0;
    let mut out_total: u32 = 0;
    let mut i: usize = 0;
    while i < n
        invariant
            i <= n,
            n == b.components.len(),
            b == desc@,
            b.fits(),
            b.sound() == b.sound_from(i as int),
            b.fault() == b.fault_from(i as int),
            in_total == b.inputs_before(i as int),
            out_total == b.outputs_before(i as int),
            (Layout {
                comp_ty,
                comp_config,
                rom_data,
                ram_bytes,
                comp_in_off,
                comp_out_off,
            }).covers(b, i as int),
        decreases n - i,
    {
        let c = &desc.components[i];
        let idx: u32 = i as u32;
        assert(b.components[i as int] == c@);
        match check_component(idx, c, desc.link_count) {
            Err(e) => {
                return Err(e);
            },
            Ok(()) => {},
        }
        proof {
            if c@.config_ok() {
                netlist::lemma_sound(b, i + 1);
                netlist::lemma_before_monotone(b, i + 1, b.sound());
            }
        }
        let ghost rom0 = rom_data@;
        let cfg: CompConfig = match configure(idx, c, &mut rom_data, &mut ram_bytes) {
            Err(e) => {
                return Err(e);
            },
            Ok(cfg) => cfg,
        };
        comp_config.push(cfg);
        comp_ty.push(c.ty);
        in_total = in_total + c.inputs.len() as u32;
        out_total = out_total + c.outputs.len() as u32;
        comp_in_off.push(in_total);
        comp_out_off.push(out_total);
        proof {
            assert forall|k: int| 0 <= k < i + 1 implies #[trigger] rom_slot(b, rom_data@, k) == b.components[k].part().rom by {
                netlist::lemma_before_monotone(b, k + 1, i + 1);
                if k < i {
                    netlist::lemma_before_monotone(b, k + 1, i as int);
                    assert(rom_slot(b, rom_data@, k) =~= rom_slot(b, rom0, k));
                } else {
                    assert(rom_slot(b, rom_data@, k) =~= c@.part().rom);
                }
            }
        }
        i = i + 1;
    }
    proof {
        netlist::lemma_sound(b, n as int);
    }
    Ok(Layout { comp_ty, comp_config, rom_data, ram_bytes, comp_in_off, comp_out_off })
}

/// The input and output links of all components, concatenated in component order.
fn concat_pins(desc: &BoardDescriptor) -> (r: (Vec<u32>, Vec<u32>))
    ensures
        r.0@.len() == desc@.inputs_before(desc@.components.len() as int),
        r.1@.len() == desc@.outputs_before(desc@.components.len() as int),
        forall|c: int|
            0 <= c < desc@.components.len() ==> #[trigger] in_slot(desc@, r.0@, c)
                == desc@.components[c].inputs,
        forall|c: int|
            0 <= c < desc@.components.len() ==> #[trigger] out_slot(desc@, r.1@, c)
                == desc@.components[c].outputs,
{
    let ghost b = desc@;
    let n: usize = desc.components.len();
    let mut ins: Vec<u32> = Vec::new();
    let mut outs: Vec<u32> = Vec::new();
    let mut i: usize = 0;
    while i < n
        invariant
            i <= n,
            n == b.components.len(),
            b == desc@,
            ins@.len() == b.inputs_before(i as int),
            outs@.len() == b.outputs_before(i as int),
            forall|c: int|
                0 <= c < i ==> #[trigger] in_slot(b, ins@, c) == b.components[c].inputs,
            forall|c: int|
                0 <= c < i ==> #[trigger] out_slot(b, outs@, c) == b.components[c].outputs,
        decreases n - i,
    {
        let c = &desc.components[i];
        assert(b.components[i as int] == c@);
        let ghost ins0 = ins@;
        let ghost outs0 = outs@;
        ins.extend_from_slice(c.inputs.as_slice());
        outs.extend_from_slice(c.outputs.as_slice());
        proof {
            assert(ins@ =~= ins0 + c@.inputs);
            assert(outs@ =~= outs0 + c@.outputs);
            assert forall|k: int| 0 <= k < i + 1 implies #[trigger] in_slot(b, ins@, k)
                == b.components[k].inputs by {
                if k < i {
                    netlist::lemma_before_monotone(b, k + 1, i as int);
                    assert(in_slot(b, ins@, k) =~= in_slot(b, ins0, k));
                } else {
                    assert(in_slot(b, ins@, k) =~= c@.inputs);
                }
            }
            assert forall|k: int| 0 <= k < i + 1 implies #[trigger] out_slot(b, outs@, k)
                == b.components[k].outputs by {
                if k < i {
                    netlist::lemma_before_monotone(b, k + 1, i as int);
                    assert(out_slot(b, outs@, k) =~= out_slot(b, outs0, k));
                } else {
                    assert(out_slot(b, outs@, k) =~= c@.outputs);
                }
            }
        }
        i = i + 1;
    }
    (ins, outs)
}

/// Set the bits `base + pin` for the listed pins.
fn mark_pins(bits: &mut BitSet, base: u32, pins: &Vec<u16>, Ghost(count): Ghost<nat>)
    requires
        old(bits).wf(),
        base + count <= old(bits)@.len(),
        old(bits)@.len() <= u32::MAX,
        forall|i: int| 0 <= i < pins@.len() ==> #[trigger] pins@[i] < count,
        forall|k: int| base <= k < base + count ==> !#[trigger] old(bits)@[k],
    ensures
        final(bits).wf(),
        final(bits)@.len() == old(bits)@.len(),
        final(bits)@.subrange(base as int, base + count) == netlist::negated_pins(pins@, count),
        forall|k: int|
            0 <= k < final(bits)@.len() && !(base <= k < base + count) ==> #[trigger] final(bits)@[k]
                == old(bits)@[k],
{
    let n: usize = pins.len();
    let mut i: usize = 0;
    while i < n
        invariant
            i <= n,
            n == pins@.len(),
            bits.wf(),
            bits@.len() == old(bits)@.len(),
            base + count <= bits@.len(),
            bits@.len() <= u32::MAX,
            forall|j: int| 0 <= j < pins@.len() ==> #[trigger] pins@[j] < count,
            forall|k: int|
                base <= k < base + count ==> (#[trigger] bits@[k] <==> exists|j: int|
                    0 <= j < i && base + #[trigger] pins@[j] == k),
            forall|k: int|
                0 <= k < bits@.len() && !(base <= k < base + count) ==> #[trigger] bits@[k]
                    == old(bits)@[k],
        decreases n - i,
    {
        let ghost before = bits@;
        bits.set(base + pins[i] as u32, true);
        proof {
            assert forall|k: int| base <= k < base + count implies (#[trigger] bits@[k]
                <==> exists|j: int| 0 <= j < i + 1 && base + #[trigger] pins@[j] == k) by {
                if k == base + pins@[i as int] {
                    assert(bits@[k]);
                } else {
                    assert(bits@[k] == before[k]);
                    if bits@[k] {
                        let j = choose|j: int| 0 <= j < i && base + #[trigger] pins@[j] == k;
                        assert(0 <= j < i + 1 && base + pins@[j] == k);
                    }
                }
            }
        }
        i = i + 1;
    }
    proof {
        let cut = bits@.subrange(base as int, base + count);
        let neg = netlist::negated_pins(pins@, count);
        assert forall|p: int| 0 <= p < count implies cut[p] == neg[p] by {
            assert(cut[p] == bits@[base + p]);
            if cut[p] {
                let j = choose|j: int| 0 <= j < n && base + #[trigger] pins@[j] == base + p;
                assert(pins@[j] == p);
            }
            if neg[p] {
                let j = choose|j: int| 0 <= j < pins@.len() && #[trigger] pins@[j] == p;
                assert(base + pins@[j] == base + p);
            }
        }
        assert(cut =~= neg);
    }
}

/// One negation flag per input pin and per output pin of the board.
fn negation(desc: &BoardDescriptor, lay: &Layout) -> (r: (BitSet, BitSet))
    requires
        desc@.fits(),
        desc@.fault() is None,
        lay.covers(desc@, desc@.components.len() as int),
    ensures
        r.0.wf(),
        r.1.wf(),
        r.0@.len() == desc@.inputs_before(desc@.components.len() as int),
        r.1@.len() == desc@.outputs_before(desc@.components.len() as int),
        forall|c: int|
            0 <= c < desc@.components.len() ==> #[trigger] in_slot(desc@, r.0@, c)
                == desc@.components[c].part().neg_inputs,
        forall|c: int|
            0 <= c < desc@.components.len() ==> #[trigger] out_slot(desc@, r.1@, c)
                == desc@.components[c].part().neg_outputs,
{
    let ghost b = desc@;
    let n: usize = desc.components.len();
    proof {
        netlist::lemma_faultless_components(b, 0);
        netlist::lemma_sound(b, 0);
    }
    let mut ins: BitSet = BitSet::new(lay.comp_in_off[n]);
    let mut outs: BitSet = BitSet::new(lay.comp_out_off[n]);
    let mut i: usize = 0;
    while i < n
        invariant
            i <= n,
            n == b.components.len(),
            b == desc@,
            n <= u32::MAX,
            lay.covers(b, n as int),
            forall|c: int|
                0 <= c < n ==> (#[trigger] b.components[c]).fault(c as u32, b.links) is None,
            ins.wf(),
            outs.wf(),
            ins@.len() == b.inputs_before(n as int) && ins@.len() <= u32::MAX,
            outs@.len() == b.outputs_before(n as int) && outs@.len() <= u32::MAX,
            forall|c: int|
                0 <= c < i ==> #[trigger] in_slot(b, ins@, c)
                    == b.components[c].part().neg_inputs,
            forall|c: int|
                0 <= c < i ==> #[trigger] out_slot(b, outs@, c)
                    == b.components[c].part().neg_outputs,
            forall|k: int| b.inputs_before(i as int) <= k < ins@.len() ==> !#[trigger] ins@[k],
            forall|k: int| b.outputs_before(i as int) <= k < outs@.len() ==> !#[trigger] outs@[k],
        decreases n - i,
    {
        let c = &desc.components[i];
        proof {
            assert(b.components[i as int] == c@);
            netlist::lemma_faultless_part(c@, i as u32, b.links);
            netlist::lemma_before_monotone(b, i + 1, n as int);
            assert(b.inputs_before(i + 1) == b.inputs_before(i as int) + c@.inputs.len());
            assert(b.outputs_before(i + 1) == b.outputs_before(i as int) + c@.outputs.len());
        }
        let ghost ins0 = ins@;
        let ghost outs0 = outs@;
        mark_pins(&mut ins, lay.comp_in_off[i], &c.neg_inputs, Ghost(c@.inputs.len()));
        mark_pins(&mut outs, lay.comp_out_off[i], &c.neg_outputs, Ghost(c@.outputs.len()));
        proof {
            assert forall|k: int| 0 <= k < i + 1 implies #[trigger] in_slot(b, ins@, k)
                == b.components[k].part().neg_inputs by {
                if k < i {
                    netlist::lemma_before_monotone(b, k + 1, i as int);
                    assert(in_slot(b, ins@, k) =~= in_slot(b, ins0, k));
                }
            }
            assert forall|k: int| 0 <= k < i + 1 implies #[trigger] out_slot(b, outs@, k)
                == b.components[k].part().neg_outputs by {
                if k < i {
                    netlist::lemma_before_monotone(b, k + 1, i as int);
                    assert(out_slot(b, outs@, k) =~= out_slot(b, outs0, k));
                }
            }
        }
        i = i + 1;
    }
    (ins, outs)
}

/// Sum of the first `n` entries.
spec fn total(s: Seq<u32>, n: int) -> nat
    decreases n,
{
    if n <= 0 {
        0
    } else {
        total(s, n - 1) + s[n - 1] as nat
    }
}

/// Raising one entry by one raises every sum that covers it by one.
proof fn lemma_total_raised(s: Seq<u32>, k: int, n: int)
    requires
        0 <= k < s.len(),
        0 <= n <= s.len(),
        s[k] < u32::MAX,
    ensures
        total(s.update(k, (s[k] + 1) as u32), n) == total(s, n) + if k < n {
            1nat
        } else {
            0
        },
    decreases n,
{
    if n > 0 {
        lemma_total_raised(s, k, n - 1);
    }
}

/// Sums grow with the number of entries, by at least each entry they take in.
proof fn lemma_total_monotone(s: Seq<u32>, i: int, j: int)
    requires
        0 <= i <= j <= s.len(),
    ensures
        total(s, i) <= total(s, j),
        i < j ==> total(s, i) + s[i] <= total(s, j),
    decreases j,
{
    if i < j {
        lemma_total_monotone(s, i, j - 1);
    }
}

/// All-zero entries sum to zero.
proof fn lemma_total_zero(s: Seq<u32>, n: int)
    requires
        0 <= n <= s.len(),
        forall|i: int| 0 <= i < s.len() ==> s[i] == 0,
    ensures
        total(s, n) == 0,
    decreases n,
{
    if n > 0 {
        lemma_total_zero(s, n - 1);
    }
}

/// The readers of link `l` among the first `c` components and the first `p` pins of component `c`.
spec fn readers_upto(net: Netlist, l: u32, c: int, p: int) -> Seq<u32> {
    net.readers_before(l, c) + netlist::pin_readers(c as u32, net.parts[c].inputs, l, p)
}

/// A zero-filled vector.
fn zeros(n: usize) -> (r: Vec<u32>)
    ensures
        r@ == Seq::new(n as nat, |i: int| 0u32),
{
    let mut r: Vec<u32> = Vec::with_capacity(n);
    while r.len() < n
        invariant
            r@.len() <= n,
            forall|i: int| 0 <= i < r@.len() ==> r@[i] == 0,
        decreases n - r@.len(),
    {
        r.push(0);
    }
    assert(r@ =~= Seq::new(n as nat, |i: int| 0u32));
    r
}

/// How often each link is read.
fn count_readers(desc: &BoardDescriptor) -> (r: Vec<u32>)
    requires
        desc@.fits(),
        desc@.fault() is None,
    ensures
        r@.len() == desc@.links,
        forall|l: u32|
            l < desc@.links ==> #[trigger] r@[l as int] == desc@.netlist().readers(l).len(),
        total(r@, r@.len() as int) == desc@.inputs_before(desc@.components.len() as int),
{
    let ghost b = desc@;
    let ghost net = b.netlist();
    let n: usize = desc.components.len();
    let mut count: Vec<u32> = zeros(desc.link_count as usize);
    proof {
        netlist::lemma_faultless_board(b);
        netlist::lemma_sound(b, 0);
        lemma_total_zero(count@, count@.len() as int);
    }
    let mut i: usize = 0;
    while i < n
        invariant
            i <= n,
            n == b.components.len(),
            b == desc@,
            net == b.netlist(),
            net.valid(),
            n <= u32::MAX,
            b.inputs_before(n as int) <= u32::MAX,
            count@.len() == b.links,
            forall|l: u32|
                l < b.links ==> #[trigger] count@[l as int] == net.readers_before(
                    l,
                    i as int,
                ).len(),
            total(count@, count@.len() as int) == b.inputs_before(i as int),
        decreases n - i,
    {
        let c = &desc.components[i];
        let ins: usize = c.inputs.len();
        proof {
            assert(b.components[i as int] == c@);
            assert(net.parts[i as int].inputs == c@.inputs);
            netlist::lemma_before_monotone(b, i + 1, n as int);
        }
        let mut p: usize = 0;
        while p < ins
            invariant
                p <= ins,
                i < n,
                n == b.components.len(),
                ins == c@.inputs.len(),
                net == b.netlist(),
                net.valid(),
                net.parts[i as int].inputs == c@.inputs,
                b.components[i as int] == c@,
                b.inputs_before(i + 1) <= u32::MAX,
                count@.len() == b.links,
                forall|l: u32|
                    l < b.links ==> #[trigger] count@[l as int] == readers_upto(
                        net,
                        l,
                        i as int,
                        p as int,
                    ).len(),
                total(count@, count@.len() as int) == b.inputs_before(i as int) + p,
            decreases ins - p,
        {
            let l: u32 = c.inputs[p];
            proof {
                assert(net.parts[i as int].inputs[p as int] == l);
                lemma_total_monotone(count@, l as int, count@.len() as int);
                lemma_total_raised(count@, l as int, count@.len() as int);
            }
            count[l as usize] = count[l as usize] + 1;
            p = p + 1;
        }
        proof {
            assert forall|l: u32| l < b.links implies #[trigger] count@[l as int]
                == net.readers_before(l, i + 1).len() by {
                assert(readers_upto(net, l, i as int, ins as int) == net.readers_before(l, i + 1));
            }
        }
        i = i + 1;
    }
    count
}

/// The running sums of the counts: entry `i` is the sum of the first `i` counts.
fn offsets(count: &Vec<u32>) -> (r: Vec<u32>)
    requires
        count@.len() < usize::MAX,
        total(count@, count@.len() as int) <= u32::MAX,
    ensures
        r@.len() == count@.len() + 1,
        forall|i: int| 0 <= i <= count@.len() ==> #[trigger] r@[i] == total(count@, i),
{
    let mut off: Vec<u32> = Vec::new();
    off.push(0);
    let mut i: usize = 0;
    while i < count.len()
        invariant
            i <= count@.len(),
            off@.len() == i + 1,
            total(count@, count@.len() as int) <= u32::MAX,
            forall|k: int| 0 <= k <= i ==> #[trigger] off@[k] == total(count@, k),
        decreases count@.len() - i,
    {
        proof {
            lemma_total_monotone(count@, i + 1, count@.len() as int);
            assert(off@[i as int] == total(count@, i as int));
        }
        let next: u32 = off[i] + count[i];
        off.push(next);
        i = i + 1;
    }
    off
}

/// For each link the components that read it: the offsets of the links' stretches, and the
/// stretches themselves.
fn consumers(desc: &BoardDescriptor) -> (r: (Vec<u32>, Vec<u32>))
    requires
        desc@.fits(),
        desc@.fault() is None,
    ensures
        csr_ok(r.0@, r.1@, desc@.links as int),
        forall|l: u32|
            l < desc@.links ==> #[trigger] csr_row(r.0@, r.1@, l as int)
                == desc@.netlist().readers(l),
{
    let ghost b = desc@;
    let ghost net = b.netlist();
    let n: usize = desc.components.len();
    proof {
        netlist::lemma_faultless_board(b);
        netlist::lemma_sound(b, 0);
    }
    let count: Vec<u32> = count_readers(desc);
    let off: Vec<u32> = offsets(&count);
    let links: usize = desc.link_count as usize;
    let mut rows: Vec<u32> = zeros(off[links] as usize);
    let mut cursor: Vec<u32> = off.clone();
    proof {
        assert(cursor@ == off@);
        assert forall|i: int, j: int| 0 <= i <= j <= links implies #[trigger] off@[i]
            <= #[trigger] off@[j] by {
            lemma_total_monotone(count@, i, j);
        }
        assert forall|l: u32| l < b.links implies #[trigger] off@[l + 1] == off@[l as int]
            + net.readers(l).len() by {
            assert(count@[l as int] == net.readers(l).len());
        }
        assert forall|l: u32| l < b.links implies #[trigger] rows@.subrange(
            off@[l as int] as int,
            cursor@[l as int] as int,
        ) == net.readers_before(l, 0) by {
            assert(rows@.subrange(off@[l as int] as int, cursor@[l as int] as int)
                =~= Seq::empty());
        }
    }
    let mut i: usize = 0;
    while i < n
        invariant
            i <= n,
            n == b.components.len(),
            b == desc@,
            net == b.netlist(),
            net.valid(),
            n <= u32::MAX,
            links == b.links,
            off@.len() == links + 1,
            cursor@.len() == links + 1,
            rows@.len() == off@[links as int],
            forall|j: int, k: int|
                0 <= j <= k <= links ==> #[trigger] off@[j] <= #[trigger] off@[k],
            forall|l: u32|
                l < b.links ==> #[trigger] off@[l + 1] == off@[l as int] + net.readers(l).len(),
            forall|l: u32|
                l < b.links ==> filled(off@, cursor@, rows@, #[trigger] net.readers_before(l, i as int), l as int),
        decreases n - i,
    {
        let c = &desc.components[i];
        let ins: usize = c.inputs.len();
        proof {
            assert(b.components[i as int] == c@);
            assert(net.parts[i as int].inputs == c@.inputs);
            assert forall|l: u32| l < b.links implies filled(
                off@,
                cursor@,
                rows@,
                #[trigger] readers_upto(net, l, i as int, 0),
                l as int,
            ) by {
                assert(readers_upto(net, l, i as int, 0) =~= net.readers_before(l, i as int));
            }
        }
        let mut p: usize = 0;
        while p < ins
            invariant
                p <= ins,
                i < n,
                n == b.components.len(),
                n <= u32::MAX,
                ins == c@.inputs.len(),
                net == b.netlist(),
                net.valid(),
                net.parts[i as int].inputs == c@.inputs,
                links == b.links,
                off@.len() == links + 1,
                cursor@.len() == links + 1,
                rows@.len() == off@[links as int],
                forall|j: int, k: int|
                    0 <= j <= k <= links ==> #[trigger] off@[j] <= #[trigger] off@[k],
                forall|l: u32|
                    l < b.links ==> #[trigger] off@[l + 1] == off@[l as int] + net.readers(
                        l,
                    ).len(),
                forall|l: u32|
                    l < b.links ==> filled(
                        off@,
                        cursor@,
                        rows@,
                        #[trigger] readers_upto(net, l, i as int, p as int),
                        l as int,
                    ),
            decreases ins - p,
        {
            let l: u32 = c.inputs[p];
            let ghost rows0 = rows@;
            let ghost cursor0 = cursor@;
            proof {
                assert(net.parts[i as int].inputs[p as int] == l);
                assert(filled(off@, cursor@, rows@, readers_upto(net, l, i as int, p as int), l as int));
                lemma_room(net, l, i as int, p as int);
                assert(off@[l + 1] <= off@[links as int]);
            }
            let slot: u32 = cursor[l as usize];
            rows[slot as usize] = i as u32;
            cursor[l as usize] = slot + 1;
            proof {
                assert forall|m: u32| m < b.links implies filled(
                    off@,
                    cursor@,
                    rows@,
                    #[trigger] readers_upto(net, m, i as int, p + 1),
                    m as int,
                ) by {
                    let old_r = readers_upto(net, m, i as int, p as int);
                    assert(filled(off@, cursor0, rows0, old_r, m as int));
                    if m == l {
                        assert(readers_upto(net, m, i as int, p + 1) =~= old_r.push(i as u32));
                        assert(rows@.subrange(off@[m as int] as int, cursor@[m as int] as int)
                            =~= old_r.push(i as u32));
                    } else {
                        lemma_prefix(net, m, i as int, p as int);
                        assert(off@[m + 1] == off@[m as int] + net.readers(m).len());
                        if m < l {
                            assert(off@[m + 1] <= off@[l as int]);
                        } else {
                            assert(off@[l + 1] <= off@[m as int]);
                        }
                        assert(rows@.subrange(off@[m as int] as int, cursor@[m as int] as int)
                            =~= rows0.subrange(off@[m as int] as int, cursor0[m as int] as int));
                        assert(readers_upto(net, m, i as int, p + 1) == old_r);
                    }
                }
            }
            p = p + 1;
        }
        proof {
            assert forall|l: u32| l < b.links implies filled(
                off@,
                cursor@,
                rows@,
                #[trigger] net.readers_before(l, i + 1),
                l as int,
            ) by {
                assert(readers_upto(net, l, i as int, ins as int) == net.readers_before(l, i + 1));
            }
        }
        i = i + 1;
    }
    proof {
        assert forall|l: u32| l < b.links implies #[trigger] csr_row(off@, rows@, l as int)
            == net.readers(l) by {
            assert(filled(off@, cursor@, rows@, net.readers_before(l, n as int), l as int));
            assert(off@[l + 1] == off@[l as int] + net.readers(l).len());
        }
    }
    (off, rows)
}

/// Row `l` starts at its offset, holds `r`, and ends at its cursor.
spec fn filled(off: Seq<u32>, cursor: Seq<u32>, rows: Seq<u32>, r: Seq<u32>, l: int) -> bool {
    &&& cursor[l] == off[l] + r.len()
    &&& cursor[l] <= rows.len()
    &&& rows.subrange(off[l] as int, cursor[l] as int) == r
}

/// The readers seen so far are no more than all readers of the link.
proof fn lemma_prefix(net: Netlist, l: u32, c: int, p: int)
    requires
        0 <= c < net.parts.len() <= u32::MAX,
        0 <= p <= net.parts[c].inputs.len(),
    ensures
        readers_upto(net, l, c, p).len() <= net.readers(l).len(),
{
    lemma_pins_monotone(c as u32, net.parts[c].inputs, l, p, net.parts[c].inputs.len() as int);
    lemma_readers_monotone(net, l, c + 1, net.parts.len() as int);
}

/// While a pin that reads the link is still to come, its row has room.
proof fn lemma_room(net: Netlist, l: u32, c: int, p: int)
    requires
        0 <= c < net.parts.len() <= u32::MAX,
        0 <= p < net.parts[c].inputs.len(),
        net.parts[c].inputs[p] == l,
    ensures
        readers_upto(net, l, c, p).len() < net.readers(l).len(),
{
    lemma_prefix(net, l, c, p + 1);
}

proof fn lemma_pins_monotone(c: u32, inputs: Seq<u32>, l: u32, p: int, q: int)
    requires
        0 <= p <= q <= inputs.len(),
    ensures
        netlist::pin_readers(c, inputs, l, p).len() <= netlist::pin_readers(c, inputs, l, q).len(),
    decreases q,
{
    if p < q {
        lemma_pins_monotone(c, inputs, l, p, q - 1);
    }
}

proof fn lemma_readers_monotone(net: Netlist, l: u32, i: int, j: int)
    requires
        0 <= i <= j <= net.parts.len(),
    ensures
        net.readers_before(l, i).len() <= net.readers_before(l, j).len(),
    decreases j,
{
    if i < j {
        lemma_readers_monotone(net, l, i, j - 1);
    }
}

/// Rows stored back to back: `off` holds the start of each of the `n` rows and the end of the last.
pub open spec fn csr_ok<A>(off: Seq<u32>, rows: Seq<A>, n: int) -> bool {
    &&& off.len() == n + 1
    &&& off[0] == 0
    &&& off[n] == rows.len()
    &&& forall|i: int, j: int| 0 <= i <= j <= n ==> #[trigger] off[i] <= #[trigger] off[j]
}

/// Row `i`.
pub open spec fn csr_row<A>(off: Seq<u32>, rows: Seq<A>, i: int) -> Seq<A> {
    rows.subrange(off[i] as int, off[i + 1] as int)
}

/// A compiled board: immutable topology as flat arrays, one entry per component, pin or link, with
/// rows of varying length stored back to back behind an offset array.
#[derive(Debug)]
pub struct Board {
    pub link_count: u32,
    pub comp_count: u32,
    /// Output pins of the whole board.
    pub output_count: u32,
    /// Type of each component.
    pub comp_ty: Vec<CompType>,
    /// Parameters of each component.
    pub comp_config: Vec<CompConfig>,
    /// ROM contents, one after the other.
    pub rom_data: Vec<u8>,
    /// Bytes of RAM of the whole board.
    pub ram_bytes: u32,
    /// Input links of each component.
    pub comp_in_off: Vec<u32>,
    pub comp_inputs: Vec<u32>,
    /// Negation flag of each input pin.
    pub in_negate: BitSet,
    /// Output links of each component.
    pub comp_out_off: Vec<u32>,
    pub output_link: Vec<u32>,
    /// Negation flag of each output pin.
    pub out_negate: BitSet,
    /// Components that read each link.
    pub link_consumers_off: Vec<u32>,
    pub link_consumers: Vec<u32>,
}

impl View for Board {
    type V = Netlist;

    open spec fn view(&self) -> Netlist {
        Netlist {
            links: self.link_count as nat,
            parts: Seq::new(self.comp_ty@.len(), |c: int| self.part(c)),
        }
    }
}

impl Board {
    /// Component `c` as the arrays hold it.
    pub open spec fn part(&self, c: int) -> Part {
        let inputs = csr_row(self.comp_in_off@, self.comp_inputs@, c);
        let outputs = csr_row(self.comp_out_off@, self.output_link@, c);
        let a = self.comp_config@[c].a as int;
        Part {
            ty: self.comp_ty@[c],
            inputs,
            neg_inputs: csr_row(self.comp_in_off@, self.in_negate@, c),
            outputs,
            neg_outputs: csr_row(self.comp_out_off@, self.out_negate@, c),
            param: match self.comp_ty@[c] {
                CompType::Clk | CompType::Mux | CompType::LedMatrix => a,
                _ => 0,
            },
            rom: if self.comp_ty@[c] == CompType::Rom {
                self.rom_data@.subrange(a, a + netlist::rom_size(inputs.len(), outputs.len()))
            } else {
                Seq::empty()
            },
        }
    }

    /// Bytes of RAM component `c` owns.
    pub open spec fn ram_size(&self, c: int) -> nat {
        (self.part(c).mem_bits() + 7) / 8
    }

    /// The arrays have matching lengths and offsets.
    pub open spec fn shaped(&self) -> bool {
        let n = self.comp_count as int;
        &&& self.comp_ty@.len() == n
        &&& self.comp_config@.len() == n
        &&& csr_ok(self.comp_in_off@, self.comp_inputs@, n)
        &&& csr_ok(self.comp_in_off@, self.in_negate@, n)
        &&& csr_ok(self.comp_out_off@, self.output_link@, n)
        &&& csr_ok(self.comp_out_off@, self.out_negate@, n)
        &&& self.in_negate.wf()
        &&& self.out_negate.wf()
        &&& self.output_count == self.output_link@.len()
    }

    /// Each ROM's and each RAM's bytes lie within their pool, RAMs do not overlap, and a LED
    /// matrix's address width is on record.
    pub open spec fn memory_ok(&self) -> bool {
        &&& forall|c: int|
            0 <= c < self.comp_count && self.comp_ty@[c] == CompType::Rom
                ==> #[trigger] self.comp_config@[c].a + self.part(c).rom.len()
                <= self.rom_data@.len()
        &&& forall|c: int|
            0 <= c < self.comp_count && self.comp_ty@[c] == CompType::Ram
                ==> #[trigger] self.comp_config@[c].a + self.ram_size(c) <= self.ram_bytes
        &&& forall|c: int, d: int|
            0 <= c < d < self.comp_count && self.comp_ty@[c] == CompType::Ram && self.comp_ty@[d]
                == CompType::Ram ==> #[trigger] self.comp_config@[c].a + self.ram_size(c)
                <= #[trigger] self.comp_config@[d].a
        &&& forall|c: int|
            0 <= c < self.comp_count && self.comp_ty@[c] == CompType::LedMatrix
                ==> #[trigger] self.comp_config@[c].b == self.part(c).addr_width()
    }

    /// The consumer rows hold each link's readers.
    pub open spec fn consumers_ok(&self) -> bool {
        &&& csr_ok(self.link_consumers_off@, self.link_consumers@, self.link_count as int)
        &&& forall|l: u32|
            l < self.link_count ==> #[trigger] csr_row(
                self.link_consumers_off@,
                self.link_consumers@,
                l as int,
            ) == self@.readers(l)
    }

    /// A compiled board is shaped consistently and describes a valid netlist.
    pub open spec fn wf(&self) -> bool {
        &&& self.shaped()
        &&& self@.valid()
        &&& self.memory_ok()
        &&& self.consumers_ok()
        &&& self.link_count < usize::MAX
    }

    /// Validate and compile a board description.
    ///
    /// Every input and output link id must lie in `0..link_count`, each component's
    /// input/output/ops counts must satisfy its type's arity and cross-field constraints, and
    /// negated pins must exist. Errors are reported against the component's position.
    pub fn compile(desc: &BoardDescriptor) -> (r: Result<Board, SimError>)
        requires
            desc@.fits(),
        ensures
            r is Ok <==> desc@.fault() is None,
            r is Err ==> desc@.fault() == Some(r->Err_0),
            r is Ok ==> r->Ok_0.wf() && r->Ok_0@ == desc@.netlist(),
    {
        let lay: Layout = match lay_out(desc) {
            Err(e) => {
                return Err(e);
            },
            Ok(lay) => lay,
        };
        let (comp_inputs, output_link): (Vec<u32>, Vec<u32>) = concat_pins(desc);
        let (in_negate, out_negate): (BitSet, BitSet) = negation(desc, &lay);
        let (link_consumers_off, link_consumers): (Vec<u32>, Vec<u32>) = consumers(desc);
        let n: usize = desc.components.len();
        let output_count: u32 = lay.comp_out_off[n];
        let board = Board {
            link_count: desc.link_count,
            comp_count: n as u32,
            output_count,
            comp_ty: lay.comp_ty,
            comp_config: lay.comp_config,
            rom_data: lay.rom_data,
            ram_bytes: lay.ram_bytes,
            comp_in_off: lay.comp_in_off,
            comp_inputs,
            in_negate,
            comp_out_off: lay.comp_out_off,
            output_link,
            out_negate,
            link_consumers_off,
            link_consumers,
        };
        proof {
            lemma_assembled(board, lay, desc@);
        }
        Ok(board)
    }

    /// Parameters of component `c`.
    pub fn config(&self, c: u32) -> (r: CompConfig)
        requires
            self.wf(),
            c < self@.parts.len(),
        ensures
            r == self.comp_config@[c as int],
    {
        self.comp_config[c as usize]
    }

    /// Number of links.
    pub fn link_count(&self) -> (n: u32)
        ensures
            n == self@.links,
    {
        self.link_count
    }

    /// Number of components.
    pub fn component_count(&self) -> (n: u32)
        requires
            self.wf(),
        ensures
            n == self@.parts.len(),
    {
        self.comp_count
    }

    /// The components that read link `l`, once per input pin that reads it.
    pub fn link_consumers(&self, l: u32) -> (r: &[u32])
        requires
            self.wf(),
            l < self@.links,
        ensures
            r@ == self@.readers(l),
    {
        let from: usize = self.link_consumers_off[l as usize] as usize;
        let to: usize = self.link_consumers_off[l as usize + 1] as usize;
        proof {
            let off = self.link_consumers_off@;
            assert(off[l as int] <= off[l + 1]);
            assert(off[l + 1] <= off[self.link_count as int]);
            assert(csr_row(off, self.link_consumers@, l as int) == self@.readers(l));
        }
        vstd::slice::slice_subrange(self.link_consumers.as_slice(), from, to)
    }

    /// The input links of component `c`.
    pub fn inputs(&self, c: u32) -> (r: &[u32])
        requires
            self.wf(),
            c < self@.parts.len(),
        ensures
            r@ == self@.parts[c as int].inputs,
    {
        let from: usize = self.comp_in_off[c as usize] as usize;
        let to: usize = self.comp_in_off[c as usize + 1] as usize;
        proof {
            let off = self.comp_in_off@;
            assert(off[c as int] <= off[c + 1]);
            assert(off[c + 1] <= off[self.comp_count as int]);
        }
        vstd::slice::slice_subrange(self.comp_inputs.as_slice(), from, to)
    }

    /// Output pin ids of component `c`: pin `p` has id `start + p`.
    pub fn output_ids(&self, c: u32) -> (r: core::ops::Range<u32>)
        requires
            self.wf(),
            c < self@.parts.len(),
        ensures
            r.start == self.comp_out_off@[c as int],
            r.end == self.comp_out_off@[c + 1],
            r.end - r.start == self@.parts[c as int].outputs.len(),
    {
        proof {
            let off = self.comp_out_off@;
            assert(off[c as int] <= off[c + 1]);
            assert(off[c + 1] <= off[self.comp_count as int]);
        }
        self.comp_out_off[c as usize]..self.comp_out_off[c as usize + 1]
    }
}

/// The arrays of the compile passes, put together, describe the board.
proof fn lemma_assembled(board: Board, lay: Layout, b: BoardModel)
    requires
        b.fits(),
        b.fault() is None,
        lay.covers(b, b.components.len() as int),
        board.link_count == b.links,
        board.comp_count == b.components.len(),
        board.output_count == board.comp_out_off@[b.components.len() as int],
        board.comp_ty == lay.comp_ty,
        board.comp_config == lay.comp_config,
        board.rom_data == lay.rom_data,
        board.ram_bytes == lay.ram_bytes,
        board.comp_in_off == lay.comp_in_off,
        board.comp_out_off == lay.comp_out_off,
        board.comp_inputs@.len() == b.inputs_before(b.components.len() as int),
        board.output_link@.len() == b.outputs_before(b.components.len() as int),
        board.in_negate.wf(),
        board.out_negate.wf(),
        board.in_negate@.len() == b.inputs_before(b.components.len() as int),
        board.out_negate@.len() == b.outputs_before(b.components.len() as int),
        forall|c: int|
            0 <= c < b.components.len() ==> #[trigger] in_slot(b, board.comp_inputs@, c)
                == b.components[c].inputs,
        forall|c: int|
            0 <= c < b.components.len() ==> #[trigger] out_slot(b, board.output_link@, c)
                == b.components[c].outputs,
        forall|c: int|
            0 <= c < b.components.len() ==> #[trigger] in_slot(b, board.in_negate@, c)
                == b.components[c].part().neg_inputs,
        forall|c: int|
            0 <= c < b.components.len() ==> #[trigger] out_slot(b, board.out_negate@, c)
                == b.components[c].part().neg_outputs,
        csr_ok(board.link_consumers_off@, board.link_consumers@, b.links as int),
        forall|l: u32|
            l < b.links ==> #[trigger] csr_row(
                board.link_consumers_off@,
                board.link_consumers@,
                l as int,
            ) == b.netlist().readers(l),
    ensures
        board.wf(),
        board@ == b.netlist(),
{
    let n = b.components.len() as int;
    netlist::lemma_faultless_board(b);
    netlist::lemma_faultless_components(b, 0);
    netlist::lemma_sound(b, 0);
    assert forall|i: int, j: int| 0 <= i <= j <= n implies #[trigger] board.comp_in_off@[i]
        <= #[trigger] board.comp_in_off@[j] by {
        netlist::lemma_before_monotone(b, i, j);
    }
    assert forall|i: int, j: int| 0 <= i <= j <= n implies #[trigger] board.comp_out_off@[i]
        <= #[trigger] board.comp_out_off@[j] by {
        netlist::lemma_before_monotone(b, i, j);
    }
    assert forall|c: int| 0 <= c < n implies {
        &&& #[trigger] board.part(c) == b.components[c].part()
        &&& b.components[c].fault(c as u32, b.links) is None
    } by {
        let m = b.components[c];
        netlist::lemma_faultless_part(m, c as u32, b.links);
        netlist::lemma_before_monotone(b, c + 1, n);
        assert(csr_row(board.comp_in_off@, board.comp_inputs@, c) == in_slot(b, board.comp_inputs@, c));
        assert(csr_row(board.comp_in_off@, board.in_negate@, c) == in_slot(b, board.in_negate@, c));
        assert(csr_row(board.comp_out_off@, board.output_link@, c) == out_slot(b, board.output_link@, c));
        assert(csr_row(board.comp_out_off@, board.out_negate@, c) == out_slot(b, board.out_negate@, c));
        assert(board.comp_config@[c] == config_of(m, b.rom_before(c), b.ram_before(c)));
        assert(rom_slot(b, board.rom_data@, c) == m.part().rom);
        assert(board.part(c) =~= m.part());
    }
    assert(board@ =~= b.netlist());
    assert forall|c: int| 0 <= c < n implies {
        &&& board.comp_ty@[c] == CompType::Rom ==> #[trigger] board.comp_config@[c].a
            == b.rom_before(c)
        &&& board.comp_ty@[c] == CompType::Ram ==> board.comp_config@[c].a == b.ram_before(c)
        &&& board.comp_ty@[c] == CompType::LedMatrix ==> board.comp_config@[c].b
            == board.part(c).addr_width()
        &&& b.rom_before(c) + board.part(c).rom.len() <= board.rom_data@.len()
        &&& b.ram_before(c) + board.ram_size(c) <= board.ram_bytes
    } by {
        let m = b.components[c];
        netlist::lemma_faultless_part(m, c as u32, b.links);
        netlist::lemma_before_monotone(b, c + 1, n);
        assert(board.part(c) == m.part());
        assert(board.comp_config@[c] == config_of(m, b.rom_before(c), b.ram_before(c)));
        assert(m.part().valid());
    }
    assert forall|c: int, d: int|
        0 <= c < d < board.comp_count && board.comp_ty@[c] == CompType::Ram && board.comp_ty@[d]
            == CompType::Ram implies #[trigger] board.comp_config@[c].a + board.ram_size(c)
        <= #[trigger] board.comp_config@[d].a by {
        netlist::lemma_before_monotone(b, c + 1, d);
        assert(board.part(c) == b.components[c].part());
    }
    assert(board.shaped());
    assert(board.memory_ok());
    assert(board.consumers_ok());
}

} // verus!
