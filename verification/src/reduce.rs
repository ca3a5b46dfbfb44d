//! Wide-gate input reductions.
//!
//! Instead of walking a gate's inputs one by one, the input bits are gathered into 64-bit words and
//! each word is reduced with one operation: AND compares it with its all-ones mask, OR with zero,
//! and XOR adds up its set bits.

use vstd::prelude::*;
#[allow(unused_imports)]
use crate::behavior;
#[allow(unused_imports)]
use crate::bits;
use crate::bitset::BitSet;

verus! {

/// The values of the listed links.
pub open spec fn gathered(inputs: Seq<u32>, links: Seq<bool>) -> Seq<bool> {
    Seq::new(inputs.len(), |i: int| links[inputs[i] as int])
}

/// The values of the listed links, inverted where the matching flag from `from` on is set.
pub open spec fn effective(inputs: Seq<u32>, links: Seq<bool>, neg: Seq<bool>, from: int) -> Seq<
    bool,
> {
    Seq::new(inputs.len(), |i: int| links[inputs[i] as int] != neg[from + i])
}

/// Word `w` holds `n` entries of `s` from `base` on in its low bits and is zero above.
pub open spec fn holds(w: u64, s: Seq<bool>, base: int, n: int) -> bool {
    forall|k: int| 0 <= k < 64 ==> #[trigger] bits::bit64(w, k) == (k < n && s[base + k])
}

/// Number of entries in the word that starts at `base`: 64, or what is left.
pub open spec fn chunk(len: nat, base: int) -> int {
    if len - base < 64 {
        len - base
    } else {
        64
    }
}

/// Gather up to 64 input bits from `inputs[base]` on into a word, bit `i` being the value of link
/// `inputs[base + i]`; also how many bits the word holds. The bits above are zero.
pub fn gather_word(inputs: &[u32], ls: &BitSet, base: usize) -> (r: (u64, u32))
    requires
        ls.wf(),
        base <= inputs@.len(),
        forall|i: int| 0 <= i < inputs@.len() ==> #[trigger] inputs@[i] < ls@.len(),
    ensures
        r.1 == chunk(inputs@.len(), base as int),
        holds(r.0, gathered(inputs@, ls@), base as int, r.1 as int),
{
    let left: usize = inputs.len() - base;
    let n: u32 = if left < 64 {
        left as u32
    } else {
        64
    };
    let ghost s = gathered(inputs@, ls@);
    let mut w: u64 = 0;
    proof {
        bits::lemma_bit64_zero();
    }
    let mut i: u32 = 0;
    while i < n
        invariant
            i <= n <= 64,
            base + n <= inputs@.len() <= usize::MAX,
            ls.wf(),
            forall|k: int| 0 <= k < inputs@.len() ==> #[trigger] inputs@[k] < ls@.len(),
            s == gathered(inputs@, ls@),
            holds(w, s, base as int, i as int),
        decreases n - i,
    {
        proof {
            bits::lemma_bit64_set(w, i as u64);
        }
        if ls.get(inputs[base + i as usize]) {
            w = w | (1u64 << (i as u64));
        }
        i = i + 1;
    }
    (w, n)
}

/// The gathered word with the negation flags of the same inputs applied; `in_base` is the flag of
/// `inputs[0]`.
pub fn gather_eff(inputs: &[u32], ls: &BitSet, neg: &BitSet, in_base: u32, base: usize) -> (r: (
    u64,
    u32,
))
    requires
        ls.wf(),
        neg.wf(),
        base <= inputs@.len(),
        in_base + inputs@.len() <= neg@.len(),
        neg@.len() <= u32::MAX,
        forall|i: int| 0 <= i < inputs@.len() ==> #[trigger] inputs@[i] < ls@.len(),
    ensures
        r.1 == chunk(inputs@.len(), base as int),
        holds(r.0, effective(inputs@, ls@, neg@, in_base as int), base as int, r.1 as int),
{
    let (w, n): (u64, u32) = gather_word(inputs, ls, base);
    let mask: u64 = neg.bits_at(in_base + base as u32, n);
    proof {
        bits::lemma_bit64_xor(w, mask);
        let s = effective(inputs@, ls@, neg@, in_base as int);
        assert forall|k: int| 0 <= k < 64 implies #[trigger] bits::bit64(w ^ mask, k) == (k < n
            && s[base + k]) by {
            assert(bits::bit64(w, k) == (k < n && gathered(inputs@, ls@)[base + k]));
            assert(bits::bit64(mask, k) == (k < n && neg@[in_base + base + k]));
        }
    }
    (w ^ mask, n)
}

/// Whether the low `n` bits of `w`, which has no others set, are all set.
pub fn full_word(w: u64, n: u32) -> (r: bool)
    requires
        n <= 64,
        forall|k: int| n <= k < 64 ==> !#[trigger] bits::bit64(w, k),
    ensures
        r <==> forall|k: int| 0 <= k < n ==> #[trigger] bits::bit64(w, k),
{
    proof {
        assert(forall|i: u64| i < 64 ==> (#[trigger] (u64::MAX >> i)) & 1 == 1) by (bit_vector);
        assert forall|k: int| 0 <= k < 64 implies #[trigger] bits::bit64(u64::MAX, k) by {
            let i = k as u64;
            assert((u64::MAX >> i) & 1 == 1);
        }
        if n < 64 {
            bits::lemma_bit64_low_mask(u64::MAX, n as u64);
            let low = ((1u64 << (n as u64)) - 1) as u64;
            assert(u64::MAX & low == low) by (bit_vector);
        }
    }
    let mask: u64 = if n == 64 {
        u64::MAX
    } else {
        (1u64 << (n as u64)) - 1
    };
    proof {
        assert forall|k: int| 0 <= k < 64 implies #[trigger] bits::bit64(mask, k) == (k < n) by {}
        if forall|k: int| 0 <= k < n ==> #[trigger] bits::bit64(w, k) {
            bits::lemma_bit64_ext(w, mask);
        }
        if w == mask {
            assert forall|k: int| 0 <= k < n implies #[trigger] bits::bit64(w, k) by {}
        }
    }
    w == mask
}

/// Whether some bit of `w` is set.
pub fn some_bit(w: u64) -> (r: bool)
    ensures
        r <==> exists|k: int| 0 <= k < 64 && #[trigger] bits::bit64(w, k),
{
    proof {
        bits::lemma_bit64_zero();
        if forall|k: int| 0 <= k < 64 ==> !#[trigger] bits::bit64(w, k) {
            bits::lemma_bit64_ext(w, 0);
        }
    }
    w != 0
}

/// Number of bits set in the low `n` bits of `w`, which hold `s` from `base` on.
pub(crate) fn ones_in(w: u64, n: u32, Ghost(s): Ghost<Seq<bool>>, Ghost(base): Ghost<int>) -> (r: u32)
    requires
        n <= 64,
        0 <= base,
        base + n <= s.len(),
        holds(w, s, base, n as int),
    ensures
        r == behavior::ones(s.subrange(base, base + n)),
        r <= n,
{
    let mut r: u32 = 0;
    let mut i: u32 = 0;
    while i < n
        invariant
            i <= n <= 64,
            0 <= base,
            base + n <= s.len(),
            holds(w, s, base, n as int),
            r == behavior::ones(s.subrange(base, base + i)),
            r <= i,
        decreases n - i,
    {
        proof {
            bits::lemma_bit64_test(w, i as u64);
            assert(bits::bit64(w, i as int) == s[base + i]);
            assert(s.subrange(base, base + i + 1) =~= s.subrange(base, base + i).push(s[base + i]));
            behavior::lemma_ones_push(s.subrange(base, base + i), s[base + i]);
        }
        if w & (1u64 << (i as u64)) != 0 {
            r = r + 1;
        }
        i = i + 1;
    }
    r
}

/// Counts add up over a split.
pub proof fn lemma_ones_split(s: Seq<bool>, k: int, n: int)
    requires
        0 <= k <= n <= s.len(),
    ensures
        behavior::ones(s.subrange(0, n)) == behavior::ones(s.subrange(0, k)) + behavior::ones(
            s.subrange(k, n),
        ),
    decreases n - k,
{
    if k < n {
        lemma_ones_split(s, k, n - 1);
        assert(s.subrange(0, n) =~= s.subrange(0, n - 1).push(s[n - 1]));
        assert(s.subrange(k, n) =~= s.subrange(k, n - 1).push(s[n - 1]));
        behavior::lemma_ones_push(s.subrange(0, n - 1), s[n - 1]);
        behavior::lemma_ones_push(s.subrange(k, n - 1), s[n - 1]);
    } else {
        assert(s.subrange(k, n).len() == 0);
    }
}

/// AND of every input's effective value; true for no inputs.
pub fn and_inputs(inputs: &[u32], ls: &BitSet, neg: &BitSet, in_base: u32) -> (r: bool)
    requires
        ls.wf(),
        neg.wf(),
        in_base + inputs@.len() <= neg@.len(),
        neg@.len() <= u32::MAX,
        forall|i: int| 0 <= i < inputs@.len() ==> #[trigger] inputs@[i] < ls@.len(),
    ensures
        r == behavior::all(effective(inputs@, ls@, neg@, in_base as int)),
{
    let ghost s = effective(inputs@, ls@, neg@, in_base as int);
    let mut base: usize = 0;
    while base < inputs.len()
        invariant
            base <= inputs@.len(),
            ls.wf(),
            neg.wf(),
            in_base + inputs@.len() <= neg@.len(),
            neg@.len() <= u32::MAX,
            forall|i: int| 0 <= i < inputs@.len() ==> #[trigger] inputs@[i] < ls@.len(),
            s == effective(inputs@, ls@, neg@, in_base as int),
            forall|i: int| 0 <= i < base ==> s[i],
        decreases inputs@.len() - base,
    {
        let (w, n): (u64, u32) = gather_eff(inputs, ls, neg, in_base, base);
        if !full_word(w, n) {
            proof {
                let k = choose|k: int| 0 <= k < n && !#[trigger] bits::bit64(w, k);
                assert(!s[base + k]);
            }
            return false;
        }
        proof {
            assert forall|i: int| 0 <= i < base + n implies s[i] by {
                if i >= base {
                    assert(bits::bit64(w, i - base) == s[base + (i - base)]);
                }
            }
        }
        base = base + n as usize;
    }
    true
}

/// OR of every input's effective value; false for no inputs.
pub fn or_inputs(inputs: &[u32], ls: &BitSet, neg: &BitSet, in_base: u32) -> (r: bool)
    requires
        ls.wf(),
        neg.wf(),
        in_base + inputs@.len() <= neg@.len(),
        neg@.len() <= u32::MAX,
        forall|i: int| 0 <= i < inputs@.len() ==> #[trigger] inputs@[i] < ls@.len(),
    ensures
        r == behavior::any(effective(inputs@, ls@, neg@, in_base as int)),
{
    let ghost s = effective(inputs@, ls@, neg@, in_base as int);
    let mut base: usize = 0;
    while base < inputs.len()
        invariant
            base <= inputs@.len(),
            ls.wf(),
            neg.wf(),
            in_base + inputs@.len() <= neg@.len(),
            neg@.len() <= u32::MAX,
            forall|i: int| 0 <= i < inputs@.len() ==> #[trigger] inputs@[i] < ls@.len(),
            s == effective(inputs@, ls@, neg@, in_base as int),
            forall|i: int| 0 <= i < base ==> !s[i],
        decreases inputs@.len() - base,
    {
        let (w, n): (u64, u32) = gather_eff(inputs, ls, neg, in_base, base);
        if some_bit(w) {
            proof {
                let k = choose|k: int| 0 <= k < 64 && #[trigger] bits::bit64(w, k);
                assert(s[base + k]);
            }
            return true;
        }
        proof {
            assert forall|i: int| 0 <= i < base + n implies !s[i] by {
                if i >= base {
                    assert(bits::bit64(w, i - base) == s[base + (i - base)]);
                }
            }
        }
        base = base + n as usize;
    }
    false
}

/// XOR of every input's effective value: whether an odd number of them is powered.
pub fn xor_inputs(inputs: &[u32], ls: &BitSet, neg: &BitSet, in_base: u32) -> (r: bool)
    requires
        ls.wf(),
        neg.wf(),
        in_base + inputs@.len() <= neg@.len(),
        neg@.len() <= u32::MAX,
        forall|i: int| 0 <= i < inputs@.len() ==> #[trigger] inputs@[i] < ls@.len(),
    ensures
        r == (behavior::ones(effective(inputs@, ls@, neg@, in_base as int)) % 2 == 1),
{
    let ghost s = effective(inputs@, ls@, neg@, in_base as int);
    let mut ones: u64 = 0;
    let mut base: usize = 0;
    while base < inputs.len()
        invariant
            base <= inputs@.len(),
            ls.wf(),
            neg.wf(),
            in_base + inputs@.len() <= neg@.len(),
            neg@.len() <= u32::MAX,
            forall|i: int| 0 <= i < inputs@.len() ==> #[trigger] inputs@[i] < ls@.len(),
            s == effective(inputs@, ls@, neg@, in_base as int),
            ones == behavior::ones(s.subrange(0, base as int)),
            ones <= base,
        decreases inputs@.len() - base,
    {
        let (w, n): (u64, u32) = gather_eff(inputs, ls, neg, in_base, base);
        let more: u32 = ones_in(w, n, Ghost(s), Ghost(base as int));
        proof {
            lemma_ones_split(s, base as int, base + n);
        }
        ones = ones + more as u64;
        base = base + n as usize;
    }
    assert(s.subrange(0, base as int) =~= s);
    ones % 2 == 1
}

/// What a gate with negated inputs is given: the values of its links, each inverted where its flag is
/// set. Without flags set these are the values themselves.
pub proof fn law_gathered_inputs(
    inputs: Seq<u32>,
    links: Seq<bool>,
    neg: Seq<bool>,
    from: int,
    i: int,
)
    requires
        0 <= i < inputs.len(),
    ensures
        gathered(inputs, links).len() == inputs.len(),
        gathered(inputs, links)[i] == links[inputs[i] as int],
        effective(inputs, links, neg, from).len() == inputs.len(),
        neg[from + i] ==> effective(inputs, links, neg, from)[i] != links[inputs[i] as int],
        !neg[from + i] ==> effective(inputs, links, neg, from)[i] == links[inputs[i] as int],
{
}

} // verus!
