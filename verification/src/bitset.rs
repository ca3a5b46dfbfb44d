//! Packed bitset over 64-bit words.
//!
//! Bit `i` lives in word `i >> 6`, at bit `i & 63`. The logical length is fixed at construction;
//! the backing store is rounded up to whole words, and the bits past the logical length stay zero,
//! so the packed words can be handed out as they are.

use vstd::prelude::*;

#[allow(unused_imports)]
use crate::bits;

verus! {

/// A fixed-length packed bitset.
#[derive(Debug)]
pub struct BitSet {
    words: Vec<u64>,
    bits: u32,
}

impl View for BitSet {
    type V = Seq<bool>;

    /// The logical bits, in index order.
    closed spec fn view(&self) -> Seq<bool> {
        Seq::new(self.bits as nat, |i: int| bits::bit64(self.words@[i / 64], i % 64))
    }
}

impl BitSet {
    /// The store has exactly the words the length calls for, and the tail bits are zero.
    pub closed spec fn wf(&self) -> bool {
        &&& self.words@.len() == (self.bits + 63) / 64
        &&& forall|i: int|
            #![trigger bits::bit64(self.words@[i / 64], i % 64)]
            self.bits <= i < 64 * self.words@.len() ==> !bits::bit64(self.words@[i / 64], i % 64)
    }

    /// Allocate a zeroed bitset holding `bits` logical bits.
    pub fn new(bits: u32) -> (r: Self)
        ensures
            r.wf(),
            r@ == Seq::new(bits as nat, |i: int| false),
    {
        let n_words: usize = bits as usize / 64 + if bits % 64 == 0 { 0usize } else { 1usize };
        let mut words: Vec<u64> = Vec::with_capacity(n_words);
        while words.len() < n_words
            invariant
                words@.len() <= n_words,
                forall|j: int| 0 <= j < words@.len() ==> words@[j] == 0,
            decreases n_words - words@.len(),
        {
            words.push(0);
        }
        let r = BitSet { words, bits };
        proof {
            bits::lemma_bit64_zero();
            assert(r@ =~= Seq::new(bits as nat, |i: int| false));
        }
        r
    }

    /// Number of logical bits.
    pub fn bits(&self) -> (n: u32)
        ensures
            n == self@.len(),
    {
        self.bits
    }

    /// Read bit `i`.
    pub fn get(&self, i: u32) -> (b: bool)
        requires
            self.wf(),
            i < self@.len(),
        ensures
            b == self@[i as int],
    {
        proof {
            bits::lemma_word_index(i);
            bits::lemma_bit64_test(self.words@[i as int / 64], (i & 63) as u64);
        }
        let w: usize = (i >> 6) as usize;
        let mask: u64 = 1u64 << ((i & 63) as u64);
        self.words[w] & mask != 0
    }

    /// Write bit `i` to `v`.
    pub fn set(&mut self, i: u32, v: bool)
        requires
            old(self).wf(),
            i < old(self)@.len(),
        ensures
            final(self).wf(),
            final(self)@ == old(self)@.update(i as int, v),
    {
        proof {
            bits::lemma_word_index(i);
        }
        let w: usize = (i >> 6) as usize;
        let k: u64 = (i & 63) as u64;
        let mask: u64 = 1u64 << k;
        let cur: u64 = self.words[w];
        let next: u64 = if v {
            cur | mask
        } else {
            cur & !mask
        };
        self.words[w] = next;
        proof {
            bits::lemma_bit64_set(cur, k);
            bits::lemma_bit64_clear(cur, k);
            assert forall|j: int| 0 <= j < 64 * self.words@.len() implies #[trigger] bits::bit64(
                self.words@[j / 64],
                j % 64,
            ) == (if j == i {
                v
            } else {
                bits::bit64(old(self).words@[j / 64], j % 64)
            }) by {}
            assert(self@ =~= old(self)@.update(i as int, v));
        }
    }

    /// Read `n` (at most 64) consecutive bits starting at logical bit `start`, low-aligned: bit `k`
    /// of the result is bit `start + k` of the set, and the bits from `n` up are zero. The run may
    /// straddle a word boundary.
    pub fn bits_at(&self, start: u32, n: u32) -> (r: u64)
        requires
            self.wf(),
            n <= 64,
            n == 0 || start + n <= self@.len(),
        ensures
            forall|k: int|
                0 <= k < 64 ==> #[trigger] bits::bit64(r, k) == (k < n && self@[start + k]),
    {
        if n == 0 {
            proof {
                bits::lemma_bit64_zero();
            }
            return 0;
        }
        proof {
            bits::lemma_word_index(start);
        }
        let w0: usize = (start >> 6) as usize;
        let off: u64 = (start & 63) as u64;
        let lo: u64 = self.words[w0];
        let mut result: u64 = lo >> off;
        let got: u64 = 64 - off;
        proof {
            bits::lemma_bit64_shr(lo, off);
        }
        if got < n as u64 {
            let hi: u64 = self.words[w0 + 1];
            proof {
                bits::lemma_bit64_shl(hi, got);
                bits::lemma_bit64_or(result, hi << got);
            }
            result = result | (hi << got);
        }
        proof {
            assert forall|k: int| 0 <= k < n implies #[trigger] bits::bit64(result, k) == self@[start
                + k] by {
                if k < got {
                    assert((start + k) / 64 == w0);
                    assert((start + k) % 64 == off + k);
                } else {
                    assert((start + k) / 64 == w0 + 1);
                    assert((start + k) % 64 == k - got);
                }
            }
        }
        if n < 64 {
            proof {
                bits::lemma_bit64_low_mask(result, n as u64);
            }
            result & ((1u64 << (n as u64)) - 1)
        } else {
            result
        }
    }

    /// Set every bit to 0.
    pub fn clear(&mut self)
        requires
            old(self).wf(),
        ensures
            final(self).wf(),
            final(self)@ == Seq::new(old(self)@.len(), |i: int| false),
    {
        let n: usize = self.words.len();
        for i in 0..n
            invariant
                n == self.words@.len(),
                self.bits == old(self).bits,
                self.words@.len() == old(self).words@.len(),
                forall|j: int| 0 <= j < i ==> self.words@[j] == 0,
        {
            self.words[i] = 0;
        }
        proof {
            bits::lemma_bit64_zero();
            assert(self@ =~= Seq::new(old(self)@.len(), |i: int| false));
        }
    }

    /// The packed backing words: bit `i` of the set is bit `i & 63` of word `i >> 6`, and the bits
    /// past the length are zero.
    pub fn words(&self) -> (w: &[u64])
        requires
            self.wf(),
        ensures
            w@.len() == (self@.len() + 63) / 64,
            forall|i: int|
                #![trigger bits::bit64(w@[i / 64], i % 64)]
                0 <= i < 64 * w@.len() ==> bits::bit64(w@[i / 64], i % 64) == (i < self@.len()
                    && self@[i]),
    {
        self.words.as_slice()
    }

    /// Number of backing 64-bit words.
    pub fn word_count(&self) -> (n: usize)
        requires
            self.wf(),
        ensures
            n == (self@.len() + 63) / 64,
    {
        self.words.len()
    }
}

impl Clone for BitSet {
    fn clone(&self) -> (r: Self)
        ensures
            r@ == self@,
            self.wf() ==> r.wf(),
    {
        let r = BitSet { words: self.words.clone(), bits: self.bits };
        proof {
            assert(r.words@ =~= self.words@);
        }
        r
    }
}

} // verus!
