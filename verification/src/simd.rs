//! Reductions of plain, un-negated inputs, by the same word-at-a-time gather as [`crate::reduce`].

use vstd::prelude::*;
#[allow(unused_imports)]
use crate::behavior;
#[allow(unused_imports)]
use crate::bits;
use crate::bitset::BitSet;
use crate::reduce;

verus! {

/// AND of every input link's value; true for no inputs.
pub fn and_inputs(inputs: &[u32], ls: &BitSet) -> (r: bool)
    requires
        ls.wf(),
        forall|i: int| 0 <= i < inputs@.len() ==> #[trigger] inputs@[i] < ls@.len(),
    ensures
        r == behavior::all(reduce::gathered(inputs@, ls@)),
{
    let ghost s = reduce::gathered(inputs@, ls@);
    let mut base: usize = 0;
    while base < inputs.len()
        invariant
            base <= inputs@.len(),
            ls.wf(),
            forall|i: int| 0 <= i < inputs@.len() ==> #[trigger] inputs@[i] < ls@.len(),
            s == reduce::gathered(inputs@, ls@),
            forall|i: int| 0 <= i < base ==> s[i],
        decreases inputs@.len() - base,
    {
        let (w, n): (u64, u32) = reduce::gather_word(inputs, ls, base);
        if !reduce::full_word(w, n) {
            proof {
                let k = choose|k: int| 0 <= k < n && !#[trigger] bits::bit64(w, k);
                assert(!s[base + k]);
            }
            return false;
        }
        proof {
            assert forall|i: int| 0 <= i < base + n implies s[i] by {
                if i >= base {
                    assert(bits::bit64(w, i - base) == s[base + (i - base)]);
                }
            }
        }
        base = base + n as usize;
    }
    true
}

/// OR of every input link's value; false for no inputs.
pub fn or_inputs(inputs: &[u32], ls: &BitSet) -> (r: bool)
    requires
        ls.wf(),
        forall|i: int| 0 <= i < inputs@.len() ==> #[trigger] inputs@[i] < ls@.len(),
    ensures
        r == behavior::any(reduce::gathered(inputs@, ls@)),
{
    let ghost s = reduce::gathered(inputs@, ls@);
    let mut base: usize = 0;
    while base < inputs.len()
        invariant
            base <= inputs@.len(),
            ls.wf(),
            forall|i: int| 0 <= i < inputs@.len() ==> #[trigger] inputs@[i] < ls@.len(),
            s == reduce::gathered(inputs@, ls@),
            forall|i: int| 0 <= i < base ==> !s[i],
        decreases inputs@.len() - base,
    {
        let (w, n): (u64, u32) = reduce::gather_word(inputs, ls, base);
        if reduce::some_bit(w) {
            proof {
                let k = choose|k: int| 0 <= k < 64 && #[trigger] bits::bit64(w, k);
                assert(s[base + k]);
            }
            return true;
        }
        proof {
            assert forall|i: int| 0 <= i < base + n implies !s[i] by {
                if i >= base {
                    assert(bits::bit64(w, i - base) == s[base + (i - base)]);
                }
            }
        }
        base = base + n as usize;
    }
    false
}

/// XOR of every input link's value: whether an odd number of them is powered.
pub fn xor_inputs(inputs: &[u32], ls: &BitSet) -> (r: bool)
    requires
        ls.wf(),
        forall|i: int| 0 <= i < inputs@.len() ==> #[trigger] inputs@[i] < ls@.len(),
    ensures
        r == (behavior::ones(reduce::gathered(inputs@, ls@)) % 2 == 1),
{
    let ghost s = reduce::gathered(inputs@, ls@);
    let mut odd: bool = false;
    let mut base: usize = 0;
    while base < inputs.len()
        invariant
            base <= inputs@.len(),
            ls.wf(),
            forall|i: int| 0 <= i < inputs@.len() ==> #[trigger] inputs@[i] < ls@.len(),
            s == reduce::gathered(inputs@, ls@),
            odd == (behavior::ones(s.subrange(0, base as int)) % 2 == 1),
        decreases inputs@.len() - base,
    {
        let (w, n): (u64, u32) = reduce::gather_word(inputs, ls, base);
        let more: u32 = reduce::ones_in(w, n, Ghost(s), Ghost(base as int));
        proof {
            reduce::lemma_ones_split(s, base as int, base + n);
        }
        odd = odd != (more % 2 == 1);
        base = base + n as usize;
    }
    assert(s.subrange(0, base as int) =~= s);
    odd
}

} // verus!
