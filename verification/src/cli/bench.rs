//! `bench`: writing large numbers legibly.

use vstd::prelude::*;
use vstd::string::StringExecFns;
use crate::text;

verus! {

/// A number in decimal, its digits in groups of three from the right, with `_` between the groups.
pub open spec fn grouped(n: nat) -> Seq<char>
    decreases n,
{
    if n < 1000 {
        text::decimal(n)
    } else {
        grouped(n / 1000) + "_"@ + text::digit(n as int / 100 % 10) + text::digit(
            n as int / 10 % 10,
        ) + text::digit(n as int % 10)
    }
}

/// Append a number in groups of three digits.
fn push_grouped(s: &mut String, n: u64)
    ensures
        final(s)@ == old(s)@ + grouped(n as nat),
    decreases n,
{
    if n < 1000 {
        text::push_decimal(s, n);
    } else {
        push_grouped(s, n / 1000);
        s.append("_");
        text::push_decimal(s, n / 100 % 10);
        text::push_decimal(s, n / 10 % 10);
        text::push_decimal(s, n % 10);
        assert(s@ =~= old(s)@ + grouped(n as nat));
    }
}

/// A number with its digits in groups of three, like `1_000_000`.
pub fn group(n: u64) -> (r: String)
    ensures
        r@ == grouped(n as nat),
{
    let mut s: String = String::new();
    push_grouped(&mut s, n);
    assert(s@ =~= grouped(n as nat));
    s
}

/// The last three digits of a number of more.
proof fn lemma_last_three(n: nat)
    requires
        n >= 1000,
    ensures
        text::decimal(n) == text::decimal(n / 1000) + text::digit(n as int / 100 % 10)
            + text::digit(n as int / 10 % 10) + text::digit(n as int % 10),
{
    assert(text::decimal(n) == text::decimal(n / 10) + text::digit(n as int % 10));
    assert(text::decimal(n / 10) == text::decimal(n / 10 / 10) + text::digit(
        (n / 10) as int % 10,
    ));
    assert(text::decimal(n / 10 / 10) == text::decimal(n / 10 / 10 / 10) + text::digit(
        (n / 10 / 10) as int % 10,
    ));
    assert(n / 10 / 10 == n / 100 && n / 100 / 10 == n / 1000);
}

/// Leaving the `_` out of a group of three digits and what stands ahead of it.
proof fn lemma_keep_group(head: Seq<char>, tail: Seq<char>)
    requires
        forall|i: int| 0 <= i < tail.len() ==> '0' <= #[trigger] tail[i] <= '9',
    ensures
        (head + (seq!['_'] + tail)).filter(|c: char| c != '_') == head.filter(|c: char| c != '_')
            + tail,
{
    let keep = |c: char| c != '_';
    let bar = seq!['_'];
    Seq::filter_distributes_over_add(head, bar + tail, keep);
    Seq::filter_distributes_over_add(bar, tail, keep);
    lemma_keeps_digits(tail);
    assert(bar.filter(keep) =~= Seq::empty()) by {
        reveal_with_fuel(Seq::filter, 2);
        assert(bar.drop_last() =~= Seq::empty());
    }
    assert(bar.filter(keep) + tail =~= tail);
}

/// Where the `_` stand in a group of three digits and what stands ahead of it.
proof fn lemma_bars(head: Seq<char>, tail: Seq<char>, g: Seq<char>)
    requires
        tail.len() == 3,
        forall|i: int| 0 <= i < tail.len() ==> '0' <= #[trigger] tail[i] <= '9',
        forall|i: int|
            0 <= i < head.len() ==> (#[trigger] head[i] == '_' <==> (head.len() - i) % 4 == 0),
        g == head + (seq!['_'] + tail),
    ensures
        forall|i: int| 0 <= i < g.len() ==> (#[trigger] g[i] == '_' <==> (g.len() - i) % 4 == 0),
{
    assert forall|i: int| 0 <= i < g.len() implies (#[trigger] g[i] == '_' <==> (g.len() - i) % 4
        == 0) by {
        let n = head.len();
        if i < n {
            assert(g[i] == head[i]);
        } else if i > n {
            assert(g[i] == tail[i - n - 1]);
        }
    }
}

/// Without its `_` a grouped number is the number in decimal, and the `_` stand where the distance to
/// the end is a multiple of four: ahead of every three digits but the first ones.
pub proof fn law_groups_of_three(n: nat)
    ensures
        grouped(n).filter(|c: char| c != '_') == text::decimal(n),
        forall|i: int|
            0 <= i < grouped(n).len() ==> (#[trigger] grouped(n)[i] == '_' <==> (grouped(n).len()
                - i) % 4 == 0),
        grouped(n).len() % 4 != 0,
    decreases n,
{
    let g = grouped(n);
    if n < 1000 {
        text::law_decimal_stands_for_its_number(n);
        lemma_short(n);
        lemma_keeps_digits(g);
    } else {
        law_groups_of_three(n / 1000);
        let head = grouped(n / 1000);
        let tail = lemma_grouped(n);
        lemma_keep_group(head, tail);
        lemma_bars(head, tail, g);
    }
}

/// The last three digits of a number, in decimal and grouped.
proof fn lemma_grouped(n: nat) -> (tail: Seq<char>)
    requires
        n >= 1000,
    ensures
        tail.len() == 3,
        forall|i: int| 0 <= i < tail.len() ==> '0' <= #[trigger] tail[i] <= '9',
        grouped(n) == grouped(n / 1000) + (seq!['_'] + tail),
        text::decimal(n) == text::decimal(n / 1000) + tail,
{
    reveal_strlit("_");
    let a = text::digit(n as int / 100 % 10);
    let b = text::digit(n as int / 10 % 10);
    let c = text::digit(n as int % 10);
    text::lemma_digit(n as int / 100 % 10);
    text::lemma_digit(n as int / 10 % 10);
    text::lemma_digit(n as int % 10);
    lemma_last_three(n);
    let head = grouped(n / 1000);
    let tail = a + b + c;
    assert("_"@ =~= seq!['_']);
    assert(grouped(n) =~= head + (seq!['_'] + tail));
    assert(text::decimal(n) =~= text::decimal(n / 1000) + tail);
    tail
}

/// A number below a thousand has three digits at most.
proof fn lemma_short(n: nat)
    requires
        n < 1000,
    ensures
        1 <= text::decimal(n).len() <= 3,
{
    text::lemma_digit(n as int % 10);
    if n >= 10 {
        let tens = n / 10;
        text::lemma_digit(tens as int % 10);
        if n >= 100 {
            text::lemma_digit((tens / 10) as int);
            assert(text::decimal(tens / 10) == text::digit((tens / 10) as int));
            assert(text::decimal(tens) == text::decimal(tens / 10) + text::digit(tens as int % 10));
        } else {
            assert(text::decimal(tens) == text::digit(tens as int));
        }
        assert(text::decimal(n) == text::decimal(tens) + text::digit(n as int % 10));
    } else {
        assert(text::decimal(n) == text::digit(n as int));
    }
}

/// Nothing but `_` is left out.
proof fn lemma_keeps_digits(s: Seq<char>)
    requires
        forall|i: int| 0 <= i < s.len() ==> '0' <= #[trigger] s[i] <= '9',
    ensures
        s.filter(|c: char| c != '_') == s,
    decreases s.len(),
{
    reveal(Seq::filter);
    if s.len() > 0 {
        assert('0' <= s[s.len() - 1] <= '9');
        lemma_keeps_digits(s.drop_last());
        assert(s =~= s.drop_last().push(s.last()));
    }
}

} // verus!
