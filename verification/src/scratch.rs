//! Per-component mutable scratch of the stateful component types.
//!
//! Slots are sized by the component count and indexed by component id; only components of the type
//! concerned touch a given field.

use vstd::prelude::*;
#[allow(unused_imports)]
use crate::behavior;
#[allow(unused_imports)]
use crate::bits;
use crate::bitset::BitSet;

verus! {

/// SplitMix64, a 64-bit mixing function. It derives the seed of each random source and draws its
/// words.
pub fn splitmix64(x: u64) -> (r: u64)
    ensures
        r == behavior::mix(x),
{
    let a: u64 = x.wrapping_add(0x9E37_79B9_7F4A_7C15);
    let b: u64 = (a ^ (a >> 30)).wrapping_mul(0xBF58_476D_1CE4_E5B9);
    let c: u64 = (b ^ (b >> 27)).wrapping_mul(0x94D0_49BB_1331_11EB);
    c ^ (c >> 31)
}

/// Mutable per-component scratch.
pub struct Scratch {
    /// Output a decoder or demultiplexer last selected.
    pub sel: Vec<u32>,
    /// Clock level an edge-triggered component last saw.
    pub edge_prev: BitSet,
    /// Memory of all RAMs, one after the other.
    pub mem: Vec<u8>,
    /// Whether a clock takes part in the period toggle.
    pub clk_subscribed: BitSet,
    /// Seed of each component's random source.
    pub rng_seed: Vec<u64>,
}

impl Scratch {
    /// Sized for `comps` components and `ram_bytes` bytes of RAM, with the seeds in place.
    pub open spec fn fits(&self, comps: nat, ram_bytes: nat) -> bool {
        &&& self.sel@.len() == comps
        &&& self.edge_prev.wf()
        &&& self.edge_prev@.len() == comps
        &&& self.mem@.len() == ram_bytes
        &&& self.clk_subscribed.wf()
        &&& self.clk_subscribed@.len() == comps
        &&& self.rng_seed@.len() == comps
        &&& forall|c: int|
            0 <= c < comps ==> #[trigger] self.rng_seed@[c] == behavior::mix(
                behavior::BOARD_SEED ^ (c as u64),
            )
    }

    /// Zeroed scratch for a board with `comp_count` components and `ram_bytes` bytes of RAM.
    pub fn new(comp_count: u32, ram_bytes: u32) -> (r: Self)
        ensures
            r.fits(comp_count as nat, ram_bytes as nat),
            r.sel@ == Seq::new(comp_count as nat, |c: int| 0u32),
            r.edge_prev@ == Seq::new(comp_count as nat, |c: int| false),
            r.clk_subscribed@ == Seq::new(comp_count as nat, |c: int| false),
            r.mem@ == Seq::new(ram_bytes as nat, |k: int| 0u8),
    {
        let mut sel: Vec<u32> = Vec::new();
        let mut rng_seed: Vec<u64> = Vec::new();
        let mut id: u32 = 0;
        while id < comp_count
            invariant
                id <= comp_count,
                sel@.len() == id,
                rng_seed@.len() == id,
                forall|c: int| 0 <= c < id ==> sel@[c] == 0,
                forall|c: int|
                    0 <= c < id ==> #[trigger] rng_seed@[c] == behavior::mix(
                        behavior::BOARD_SEED ^ (c as u64),
                    ),
            decreases comp_count - id,
        {
            sel.push(0);
            rng_seed.push(splitmix64(behavior::BOARD_SEED ^ (id as u64)));
            id = id + 1;
        }
        let mut mem: Vec<u8> = Vec::new();
        let mut k: u32 = 0;
        while k < ram_bytes
            invariant
                k <= ram_bytes,
                mem@.len() == k,
                forall|i: int| 0 <= i < k ==> mem@[i] == 0,
            decreases ram_bytes - k,
        {
            mem.push(0);
            k = k + 1;
        }
        assert(sel@ =~= Seq::new(comp_count as nat, |c: int| 0u32));
        assert(mem@ =~= Seq::new(ram_bytes as nat, |k: int| 0u8));
        Scratch {
            sel,
            edge_prev: BitSet::new(comp_count),
            mem,
            clk_subscribed: BitSet::new(comp_count),
            rng_seed,
        }
    }

    /// A copy.
    pub fn copy(&self) -> (r: Self)
        ensures
            r.sel@ == self.sel@,
            r.edge_prev@ == self.edge_prev@,
            self.edge_prev.wf() ==> r.edge_prev.wf(),
            r.mem@ == self.mem@,
            r.clk_subscribed@ == self.clk_subscribed@,
            self.clk_subscribed.wf() ==> r.clk_subscribed.wf(),
            r.rng_seed@ == self.rng_seed@,
    {
        Scratch {
            sel: self.sel.clone(),
            edge_prev: self.edge_prev.clone(),
            mem: self.mem.clone(),
            clk_subscribed: self.clk_subscribed.clone(),
            rng_seed: self.rng_seed.clone(),
        }
    }

    /// Seed of component `c`'s random source.
    pub fn rng_seed(&self, c: u32) -> (r: u64)
        requires
            c < self.rng_seed@.len(),
        ensures
            r == self.rng_seed@[c as int],
    {
        self.rng_seed[c as usize]
    }

    /// Whether clock `c` takes part in the period toggle.
    pub fn clk_subscribed(&self, c: u32) -> (r: bool)
        requires
            self.clk_subscribed.wf(),
            c < self.clk_subscribed@.len(),
        ensures
            r == self.clk_subscribed@[c as int],
    {
        self.clk_subscribed.get(c)
    }

    /// Start or stop clock `c`.
    pub fn set_clk_subscribed(&mut self, c: u32, v: bool)
        requires
            old(self).clk_subscribed.wf(),
            c < old(self).clk_subscribed@.len(),
        ensures
            final(self).clk_subscribed.wf(),
            final(self).clk_subscribed@ == old(self).clk_subscribed@.update(c as int, v),
            final(self).sel == old(self).sel,
            final(self).edge_prev == old(self).edge_prev,
            final(self).mem == old(self).mem,
            final(self).rng_seed == old(self).rng_seed,
    {
        self.clk_subscribed.set(c, v);
    }

    /// Read bit `bit` of RAM byte `byte`.
    pub fn mem_bit(&self, byte: usize, bit: u8) -> (r: bool)
        requires
            byte < self.mem@.len(),
            bit < 8,
        ensures
            r == bits::bit8(self.mem@[byte as int], bit as int),
    {
        let b: u8 = self.mem[byte];
        proof {
            bits::lemma_bit8_mask(b, bit);
        }
        b & (1u8 << bit) != 0
    }

    /// Write bit `bit` of RAM byte `byte`.
    pub fn set_mem_bit(&mut self, byte: usize, bit: u8, v: bool)
        requires
            byte < old(self).mem@.len(),
            bit < 8,
        ensures
            final(self).mem@.len() == old(self).mem@.len(),
            forall|i: int|
                0 <= i < old(self).mem@.len() && i != byte ==> #[trigger] final(self).mem@[i] == old(
                    self,
                ).mem@[i],
            forall|k: int|
                0 <= k < 8 ==> #[trigger] bits::bit8(final(self).mem@[byte as int], k) == (if k
                    == bit {
                    v
                } else {
                    bits::bit8(old(self).mem@[byte as int], k)
                }),
            final(self).sel == old(self).sel,
            final(self).edge_prev == old(self).edge_prev,
            final(self).clk_subscribed == old(self).clk_subscribed,
            final(self).rng_seed == old(self).rng_seed,
    {
        let cur: u8 = self.mem[byte];
        let mask: u8 = 1u8 << bit;
        proof {
            bits::lemma_bit8_mask(cur, bit);
        }
        self.mem[byte] = if v {
            cur | mask
        } else {
            cur & !mask
        };
    }

    /// Clock level edge-triggered component `c` last saw.
    pub fn edge_prev(&self, c: u32) -> (r: bool)
        requires
            self.edge_prev.wf(),
            c < self.edge_prev@.len(),
        ensures
            r == self.edge_prev@[c as int],
    {
        self.edge_prev.get(c)
    }

    /// Latch the clock level of edge-triggered component `c`.
    pub fn set_edge_prev(&mut self, c: u32, v: bool)
        requires
            old(self).edge_prev.wf(),
            c < old(self).edge_prev@.len(),
        ensures
            final(self).edge_prev.wf(),
            final(self).edge_prev@ == old(self).edge_prev@.update(c as int, v),
            final(self).sel == old(self).sel,
            final(self).clk_subscribed == old(self).clk_subscribed,
            final(self).mem == old(self).mem,
            final(self).rng_seed == old(self).rng_seed,
    {
        self.edge_prev.set(c, v);
    }

    /// Output decoder or demultiplexer `c` last selected.
    pub fn sel(&self, c: u32) -> (r: u32)
        requires
            c < self.sel@.len(),
        ensures
            r == self.sel@[c as int],
    {
        self.sel[c as usize]
    }

    /// Latch the selected output of decoder or demultiplexer `c`.
    pub fn set_sel(&mut self, c: u32, v: u32)
        requires
            c < old(self).sel@.len(),
        ensures
            final(self).sel@ == old(self).sel@.update(c as int, v),
            final(self).edge_prev == old(self).edge_prev,
            final(self).clk_subscribed == old(self).clk_subscribed,
            final(self).mem == old(self).mem,
            final(self).rng_seed == old(self).rng_seed,
    {
        self.sel[c as usize] = v;
    }
}

} // verus!
