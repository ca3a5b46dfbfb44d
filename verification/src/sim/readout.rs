//! Reading a simulation's links and outputs out.

use vstd::prelude::*;
#[allow(unused_imports)]
use vstd::arithmetic::power2;
#[allow(unused_imports)]
use crate::behavior::{self, PartState};
#[allow(unused_imports)]
use crate::bits;
#[allow(unused_imports)]
use crate::board;
#[allow(unused_imports)]
use crate::datasheet;
#[allow(unused_imports)]
use crate::netlist::Netlist;
use crate::sim::Simulation;

verus! {

/// The bytes `data` hold the values `s` bit by bit, lowest bit first, with no byte more and zeros
/// behind the last value.
pub open spec fn packs(data: Seq<u8>, s: Seq<bool>) -> bool {
    &&& data.len() == (s.len() + 7) / 8
    &&& forall|i: int|
        0 <= i < 8 * data.len() ==> #[trigger] behavior::byte_bit(data, i) == (i < s.len()
            && s[i])
}

/// One byte per output pin of the first `n` components, in component order: 1 where the pin drives
/// its link high.
pub open spec fn driven_bytes(net: Netlist, parts: Seq<PartState>, n: int) -> Seq<u8>
    decreases n,
{
    if n <= 0 {
        Seq::empty()
    } else {
        driven_bytes(net, parts, n - 1) + Seq::new(
            net.parts[n - 1].outputs.len(),
            |p: int|
                if net.parts[n - 1].drives(parts[n - 1], p) {
                    1u8
                } else {
                    0u8
                },
        )
    }
}

/// Packed values take the fewest bytes that hold them, eight to a byte. Value `i` is the binary digit
/// `i % 8` of byte `i / 8`, and the digits behind the last value are zero.
pub proof fn law_values_are_packed(data: Seq<u8>, s: Seq<bool>, i: int)
    requires
        packs(data, s),
        0 <= i < 8 * data.len(),
    ensures
        8 * data.len() >= s.len() > 8 * (data.len() - 1),
        ((data[i / 8] as nat / power2::pow2((i % 8) as nat)) % 2 == 1) == (i < s.len() && s[i]),
{
    assert(behavior::byte_bit(data, i) == (i < s.len() && s[i]));
    datasheet::lemma_byte_digit(data[i / 8], i % 8);
}

/// The bytes of the outputs begin with those of the first component, and those of each other follow
/// those of the one before it. A pin has 1 where its value, inverted if the pin is negated, is high,
/// and 0 otherwise.
pub proof fn law_outputs_follow_each_other(
    net: Netlist,
    parts: Seq<PartState>,
    n: int,
    c: int,
    p: int,
)
    requires
        0 <= c < n <= net.parts.len(),
        0 <= p < net.parts[c].outputs.len(),
    ensures
        ({
            let bytes = driven_bytes(net, parts, n);
            let at = driven_bytes(net, parts, c).len() as int;
            &&& driven_bytes(net, parts, 0).len() == 0
            &&& driven_bytes(net, parts, c + 1).len() == at + net.parts[c].outputs.len()
            &&& at + p < bytes.len()
            &&& bytes[at + p] == if parts[c].outs[p] == net.parts[c].neg_outputs[p] {
                0u8
            } else {
                1u8
            }
        }),
    decreases n,
{
    if c < n - 1 {
        law_outputs_follow_each_other(net, parts, n - 1, c, p);
    }
}

/// Byte `k` of a word.
fn byte_of(w: u64, k: u64) -> (b: u8)
    requires
        k < 8,
    ensures
        forall|j: int| 0 <= j < 8 ==> #[trigger] bits::bit8(b, j) == bits::bit64(w, 8 * k + j),
{
    let s: u64 = 8 * k;
    let b: u8 = ((w >> s) & 0xff) as u8;
    proof {
        assert forall|j: int| 0 <= j < 8 implies #[trigger] bits::bit8(b, j) == bits::bit64(
            w,
            8 * k + j,
        ) by {
            let i = j as u8;
            let t = (8 * k + j) as u64;
            let v = (w >> s) & 0xff;
            assert(((((w >> s) & 0xff) as u8 >> i) & 1 == 1) == ((w >> t) & 1 == 1))
                by (bit_vector)
                requires
                    i < 8,
                    s < 64,
                    t == s + i,
                    t < 64,
            ;
        }
    }
    b
}

impl Simulation {
    /// The packed words behind the link values: link `l` is bit `l & 63` of word `l >> 6`, and the
    /// bits past the last link are zero.
    pub fn link_words(&self) -> (r: &[u64])
        requires
            self.wf(),
        ensures
            r@.len() == (self.net().links + 63) / 64,
            forall|i: int|
                0 <= i < 64 * r@.len() ==> #[trigger] bits::bit64(r@[i / 64], i % 64) == (i
                    < self.net().links && self@.links[i]),
    {
        self.link_state.words()
    }

    /// The link values packed into bytes: link `l` is bit `l & 7` of byte `l >> 3`.
    pub fn link_bytes(&self) -> (r: Vec<u8>)
        requires
            self.wf(),
        ensures
            packs(r@, self@.links),
    {
        let n: u32 = self.board.link_count;
        let n_bytes: usize = n as usize / 8 + if n % 8 == 0 {
            0usize
        } else {
            1usize
        };
        let words: &[u64] = self.link_words();
        let mut out: Vec<u8> = Vec::new();
        let mut i: usize = 0;
        while i < n_bytes
            invariant
                i <= n_bytes,
                n_bytes == (n + 7) / 8,
                n == self.net().links,
                words@.len() == (n + 63) / 64,
                forall|k: int|
                    0 <= k < 64 * words@.len() ==> #[trigger] bits::bit64(words@[k / 64], k % 64)
                        == (k < n && self@.links[k]),
                out@.len() == i,
                forall|k: int|
                    0 <= k < 8 * i ==> #[trigger] behavior::byte_bit(out@, k) == (k < n
                        && self@.links[k]),
            decreases n_bytes - i,
        {
            let ghost before = out@;
            let w: u64 = words[i / 8];
            let b: u8 = byte_of(w, (i % 8) as u64);
            out.push(b);
            proof {
                assert forall|k: int| 0 <= k < 8 * (i + 1) implies #[trigger] behavior::byte_bit(
                    out@,
                    k,
                ) == (k < n && self@.links[k]) by {
                    if k < 8 * i {
                        assert(behavior::byte_bit(before, k) == (k < n && self@.links[k]));
                    } else {
                        let j = k - 8 * i;
                        assert(k / 8 == i && k % 8 == j);
                        assert(bits::bit8(b, j) == bits::bit64(w, 8 * (i as int % 8) + j));
                        assert(k / 64 == i as int / 8);
                        assert(k % 64 == 8 * (i as int % 8) + j);
                        assert(bits::bit64(words@[k / 64], k % 64) == (k < n && self@.links[k]));
                    }
                }
            }
            i = i + 1;
        }
        out
    }

    /// What output pin `pin` of component `comp_id` drives.
    pub fn output(&self, comp_id: u32, pin: usize) -> (r: bool)
        requires
            self.wf(),
            comp_id < self.net().parts.len(),
            pin < self.net().parts[comp_id as int].outputs.len(),
        ensures
            r == self.net().parts[comp_id as int].drives(self@.parts[comp_id as int], pin as int),
    {
        proof {
            let off = self.board.comp_out_off@;
            assert(off[comp_id as int] <= off[comp_id + 1] <= off[self.board.comp_count as int]);
        }
        let oid: u32 = self.board.comp_out_off[comp_id as usize] + pin as u32;
        self.run.output_state.get(oid) != self.board.out_negate.get(oid)
    }

    /// What every output pin drives, one byte per pin, component by component.
    pub fn output_bytes(&self) -> (r: Vec<u8>)
        requires
            self.wf(),
        ensures
            r@ == driven_bytes(self.net(), self@.parts, self.net().parts.len() as int),
    {
        let n: u32 = self.board.output_count;
        let ghost off = self.board.comp_out_off@;
        let ghost total = self.board.comp_count as int;
        let mut out: Vec<u8> = Vec::new();
        let mut o: u32 = 0;
        while o < n
            invariant
                o <= n,
                n == self.board.output_count,
                self.wf(),
                out@.len() == o,
                forall|k: int|
                    0 <= k < o ==> #[trigger] out@[k] == (if self.run.output_state@[k]
                        != self.board.out_negate@[k] {
                        1u8
                    } else {
                        0u8
                    }),
            decreases n - o,
        {
            let high: bool = self.run.output_state.get(o) != self.board.out_negate.get(o);
            out.push(
                if high {
                    1u8
                } else {
                    0u8
                },
            );
            o = o + 1;
        }
        proof {
            self.lemma_driven_prefix(out@, total);
            assert(out@.subrange(0, off[total] as int) =~= out@);
        }
        out
    }

    proof fn lemma_driven_prefix(&self, out: Seq<u8>, c: int)
        requires
            self.wf(),
            0 <= c <= self.board.comp_count,
            out.len() == self.board.output_count,
            forall|k: int|
                0 <= k < out.len() ==> #[trigger] out[k] == (if self.run.output_state@[k]
                    != self.board.out_negate@[k] {
                    1u8
                } else {
                    0u8
                }),
        ensures
            out.subrange(0, self.board.comp_out_off@[c] as int) == driven_bytes(
                self.net(),
                self@.parts,
                c,
            ),
        decreases c,
    {
        let off = self.board.comp_out_off@;
        assert(off[c] <= off[self.board.comp_count as int]);
        if c > 0 {
            self.lemma_driven_prefix(out, c - 1);
            assert(off[c - 1] <= off[c]);
            let net = self.net();
            let row = Seq::new(
                net.parts[c - 1].outputs.len(),
                |p: int|
                    if net.parts[c - 1].drives(self@.parts[c - 1], p) {
                        1u8
                    } else {
                        0u8
                    },
            );
            assert(out.subrange(off[c - 1] as int, off[c] as int) =~= row);
            assert(out.subrange(0, off[c] as int) =~= out.subrange(0, off[c - 1] as int) + row);
        } else {
            assert(out.subrange(0, off[0] as int) =~= Seq::empty());
        }
    }

    /// Copy what the output pins of component `comp_id` drive into `out`, as far as both reach.
    pub fn copy_outputs(&self, comp_id: u32, out: &mut [bool])
        requires
            self.wf(),
            comp_id < self.net().parts.len(),
        ensures
            final(out)@.len() == old(out)@.len(),
            forall|p: int|
                0 <= p < old(out)@.len() ==> #[trigger] final(out)@[p] == (if p
                    < self.net().parts[comp_id as int].outputs.len() {
                    self.net().parts[comp_id as int].drives(self@.parts[comp_id as int], p)
                } else {
                    old(out)@[p]
                }),
    {
        let ids = self.board.output_ids(comp_id);
        let pins: usize = (ids.end - ids.start) as usize;
        let n: usize = if pins < out.len() {
            pins
        } else {
            out.len()
        };
        let mut p: usize = 0;
        while p < n
            invariant
                p <= n,
                self.wf(),
                comp_id < self.net().parts.len(),
                n <= self.net().parts[comp_id as int].outputs.len(),
                n <= out@.len(),
                out@.len() == old(out)@.len(),
                forall|k: int|
                    0 <= k < out@.len() ==> #[trigger] out@[k] == (if k < p {
                        self.net().parts[comp_id as int].drives(self@.parts[comp_id as int], k)
                    } else {
                        old(out)@[k]
                    }),
            decreases n - p,
        {
            out[p] = self.output(comp_id, p);
            p = p + 1;
        }
    }
}

} // verus!
