//! Writing numbers, names and error messages out.

use vstd::prelude::*;
#[allow(unused_imports)]
use vstd::arithmetic::power;
use vstd::string::{StrSliceExecFns, StringExecFns};
use crate::error::{PinKind, SimError};
use crate::types::CompType;

verus! {

/// The digit of value `d`, in bases up to 16.
pub open spec fn digit(d: int) -> Seq<char> {
    "0123456789ABCDEF"@.subrange(d, d + 1)
}

/// A number in decimal.
pub open spec fn decimal(n: nat) -> Seq<char>
    decreases n,
{
    if n < 10 {
        digit(n as int)
    } else {
        decimal(n / 10) + digit(n as int % 10)
    }
}

/// The lowest `width` hexadecimal digits of a number.
pub open spec fn hex(n: nat, width: nat) -> Seq<char>
    decreases width,
{
    if width == 0 {
        Seq::empty()
    } else {
        hex(n / 16, (width - 1) as nat) + digit(n as int % 16)
    }
}

/// Append the digit of value `d`.
fn push_digit(s: &mut String, d: usize)
    requires
        d < 16,
    ensures
        final(s)@ == old(s)@ + digit(d as int),
{
    proof {
        reveal_strlit("0123456789ABCDEF");
    }
    s.append("0123456789ABCDEF".substring_char(d, d + 1));
}

/// Append a number in decimal.
pub fn push_decimal(s: &mut String, n: u64)
    ensures
        final(s)@ == old(s)@ + decimal(n as nat),
    decreases n,
{
    if n >= 10 {
        push_decimal(s, n / 10);
    }
    push_digit(s, (n % 10) as usize);
    assert(s@ =~= old(s)@ + decimal(n as nat));
}

/// Append the lowest `width` hexadecimal digits of a number.
pub fn push_hex(s: &mut String, n: u64, width: u32)
    ensures
        final(s)@ == old(s)@ + hex(n as nat, width as nat),
    decreases width,
{
    if width > 0 {
        push_hex(s, n / 16, width - 1);
        push_digit(s, (n % 16) as usize);
    }
    assert(s@ =~= old(s)@ + hex(n as nat, width as nat));
}

impl CompType {
    /// The name of a type.
    pub open spec fn name_text(self) -> Seq<char> {
        match self {
            CompType::Not => "Not"@,
            CompType::And => "And"@,
            CompType::Or => "Or"@,
            CompType::Xor => "Xor"@,
            CompType::Delay => "Delay"@,
            CompType::Clk => "Clk"@,
            CompType::HalfAdder => "HalfAdder"@,
            CompType::FullAdder => "FullAdder"@,
            CompType::Rom => "Rom"@,
            CompType::DFf => "DFf"@,
            CompType::JkFf => "JkFf"@,
            CompType::SrFf => "SrFf"@,
            CompType::Rng => "Rng"@,
            CompType::Ram => "Ram"@,
            CompType::Decoder => "Decoder"@,
            CompType::Encoder => "Encoder"@,
            CompType::Mux => "Mux"@,
            CompType::Demux => "Demux"@,
            CompType::UserInput => "UserInput"@,
            CompType::LedMatrix => "LedMatrix"@,
        }
    }

    /// The name of the type.
    pub fn name(self) -> (r: &'static str)
        ensures
            r@ == self.name_text(),
    {
        match self {
            CompType::Not => "Not",
            CompType::And => "And",
            CompType::Or => "Or",
            CompType::Xor => "Xor",
            CompType::Delay => "Delay",
            CompType::Clk => "Clk",
            CompType::HalfAdder => "HalfAdder",
            CompType::FullAdder => "FullAdder",
            CompType::Rom => "Rom",
            CompType::DFf => "DFf",
            CompType::JkFf => "JkFf",
            CompType::SrFf => "SrFf",
            CompType::Rng => "Rng",
            CompType::Ram => "Ram",
            CompType::Decoder => "Decoder",
            CompType::Encoder => "Encoder",
            CompType::Mux => "Mux",
            CompType::Demux => "Demux",
            CompType::UserInput => "UserInput",
            CompType::LedMatrix => "LedMatrix",
        }
    }
}

impl PinKind {
    /// The word for the side.
    pub open spec fn name_text(self) -> Seq<char> {
        match self {
            PinKind::Input => "input"@,
            PinKind::Output => "output"@,
        }
    }

    /// The word for the side.
    pub fn name(self) -> (r: &'static str)
        ensures
            r@ == self.name_text(),
    {
        match self {
            PinKind::Input => "input",
            PinKind::Output => "output",
        }
    }
}

impl SimError {
    /// The message of an error.
    pub open spec fn text(self) -> Seq<char> {
        match self {
            SimError::UnknownComponentType(id) => "unknown component type id "@ + decimal(
                id as nat,
            ),
            SimError::LinkOutOfRange { idx, link, count } => "component "@ + decimal(idx as nat)
                + ": link id "@ + decimal(link as nat) + " out of range (link_count="@ + decimal(
                count as nat,
            ) + ")"@,
            SimError::BadArity { idx, ty, ins, outs, ops } => "component "@ + decimal(idx as nat)
                + " ("@ + ty.name_text() + "): bad arity in="@ + decimal(ins as nat) + " out="@
                + decimal(outs as nat) + " ops="@ + decimal(ops as nat),
            SimError::NegateOutOfRange { idx, pin_kind, pin, count } => "component "@ + decimal(
                idx as nat,
            ) + ": negated "@ + pin_kind.name_text() + " index "@ + decimal(pin as nat)
                + " out of range (count="@ + decimal(count as nat) + ")"@,
            SimError::NotAnInput(id) => "component "@ + decimal(id as nat)
                + " is not a user-input component"@,
            SimError::BadBinary(why) => "malformed .lgb binary: "@ + why@,
            SimError::ThreadPool(why) => "cannot build the thread pool: "@ + why@,
        }
    }

    /// The message of the error.
    pub fn message(&self) -> (r: String)
        ensures
            r@ == self.text(),
    {
        let mut s: String = String::new();
        match self {
            SimError::UnknownComponentType(id) => {
                s.append("unknown component type id ");
                push_decimal(&mut s, *id as u64);
            },
            SimError::LinkOutOfRange { idx, link, count } => {
                s.append("component ");
                push_decimal(&mut s, *idx as u64);
                s.append(": link id ");
                push_decimal(&mut s, *link as u64);
                s.append(" out of range (link_count=");
                push_decimal(&mut s, *count as u64);
                s.append(")");
            },
            SimError::BadArity { idx, ty, ins, outs, ops } => {
                s.append("component ");
                push_decimal(&mut s, *idx as u64);
                s.append(" (");
                s.append(ty.name());
                s.append("): bad arity in=");
                push_decimal(&mut s, *ins as u64);
                s.append(" out=");
                push_decimal(&mut s, *outs as u64);
                s.append(" ops=");
                push_decimal(&mut s, *ops as u64);
            },
            SimError::NegateOutOfRange { idx, pin_kind, pin, count } => {
                s.append("component ");
                push_decimal(&mut s, *idx as u64);
                s.append(": negated ");
                s.append(pin_kind.name());
                s.append(" index ");
                push_decimal(&mut s, *pin as u64);
                s.append(" out of range (count=");
                push_decimal(&mut s, *count as u64);
                s.append(")");
            },
            SimError::NotAnInput(id) => {
                s.append("component ");
                push_decimal(&mut s, *id as u64);
                s.append(" is not a user-input component");
            },
            SimError::BadBinary(why) => {
                s.append("malformed .lgb binary: ");
                s.append(why.as_str());
            },
            SimError::ThreadPool(why) => {
                s.append("cannot build the thread pool: ");
                s.append(why.as_str());
            },
        }
        assert(s@ =~= self.text());
        s
    }
}

/// The value of a digit: its place among `0` to `9`, or ten and its place among `A` to `F`.
pub open spec fn digit_value(c: char) -> int {
    if '0' <= c <= '9' {
        c as int - '0' as int
    } else {
        10 + (c as int - 'A' as int)
    }
}

/// The number that digits stand for in a base, the highest digit first.
pub open spec fn value(s: Seq<char>, base: int) -> int
    decreases s.len(),
{
    if s.len() == 0 {
        0
    } else {
        value(s.drop_last(), base) * base + digit_value(s.last())
    }
}

/// The digits, one by one.
pub proof fn lemma_digit(d: int)
    requires
        0 <= d < 16,
    ensures
        digit(d).len() == 1,
        digit_value(digit(d)[0]) == d,
        d < 10 ==> '0' <= digit(d)[0] <= '9',
        d >= 10 ==> 'A' <= digit(d)[0] <= 'F',
        digit(d)[0] == '0' <==> d == 0,
{
    reveal_strlit("0123456789ABCDEF");
}

/// A number written in decimal is made of the digits `0` to `9`, stands for the number, and has no
/// zero in front unless it is zero.
pub proof fn law_decimal_stands_for_its_number(n: nat)
    ensures
        decimal(n).len() >= 1,
        forall|i: int| 0 <= i < decimal(n).len() ==> '0' <= #[trigger] decimal(n)[i] <= '9',
        value(decimal(n), 10) == n,
        n > 0 ==> decimal(n)[0] != '0',
    decreases n,
{
    lemma_digit(n as int % 10);
    let last = digit(n as int % 10);
    if n < 10 {
        assert(decimal(n).drop_last() =~= Seq::empty());
        assert(value(decimal(n).drop_last(), 10) == 0);
    } else {
        law_decimal_stands_for_its_number(n / 10);
        assert(decimal(n).drop_last() =~= decimal(n / 10));
        assert(decimal(n).last() == last[0]);
    }
}

/// A number written in hexadecimal has the given width, is made of the digits `0` to `9` and `A` to
/// `F`, and stands for the number if that needs no more digits.
pub proof fn law_hex_stands_for_its_number(n: nat, width: nat)
    ensures
        hex(n, width).len() == width,
        forall|i: int|
            0 <= i < width ==> ('0' <= #[trigger] hex(n, width)[i] <= '9' || 'A' <= hex(n, width)[i]
                <= 'F'),
        n < power::pow(16, width) ==> value(hex(n, width), 16) == n,
    decreases width,
{
    if width == 0 {
        power::lemma_pow0(16);
    } else {
        let low = (width - 1) as nat;
        lemma_digit(n as int % 16);
        law_hex_stands_for_its_number(n / 16, low);
        assert(hex(n, width).drop_last() =~= hex(n / 16, low));
        assert(hex(n, width).last() == digit(n as int % 16)[0]);
        power::lemma_pow1(16);
        power::lemma_pow_adds(16, low, 1);
        assert(power::pow(16, width) == power::pow(16, low) * 16);
    }
}

/// The names of the types.
pub proof fn law_type_names()
    ensures
        CompType::Not.name_text() == seq!['N', 'o', 't'],
        CompType::And.name_text() == seq!['A', 'n', 'd'],
        CompType::Or.name_text() == seq!['O', 'r'],
        CompType::Xor.name_text() == seq!['X', 'o', 'r'],
        CompType::Delay.name_text() == seq!['D', 'e', 'l', 'a', 'y'],
        CompType::Clk.name_text() == seq!['C', 'l', 'k'],
        CompType::HalfAdder.name_text() == seq!['H', 'a', 'l', 'f', 'A', 'd', 'd', 'e', 'r'],
        CompType::FullAdder.name_text() == seq!['F', 'u', 'l', 'l', 'A', 'd', 'd', 'e', 'r'],
        CompType::Rom.name_text() == seq!['R', 'o', 'm'],
        CompType::DFf.name_text() == seq!['D', 'F', 'f'],
        CompType::JkFf.name_text() == seq!['J', 'k', 'F', 'f'],
        CompType::SrFf.name_text() == seq!['S', 'r', 'F', 'f'],
        CompType::Rng.name_text() == seq!['R', 'n', 'g'],
        CompType::Ram.name_text() == seq!['R', 'a', 'm'],
        CompType::Decoder.name_text() == seq!['D', 'e', 'c', 'o', 'd', 'e', 'r'],
        CompType::Encoder.name_text() == seq!['E', 'n', 'c', 'o', 'd', 'e', 'r'],
        CompType::Mux.name_text() == seq!['M', 'u', 'x'],
        CompType::Demux.name_text() == seq!['D', 'e', 'm', 'u', 'x'],
        CompType::UserInput.name_text() == seq!['U', 's', 'e', 'r', 'I', 'n', 'p', 'u', 't'],
        CompType::LedMatrix.name_text() == seq!['L', 'e', 'd', 'M', 'a', 't', 'r', 'i', 'x'],
{
    reveal_strlit("Not");
    reveal_strlit("And");
    reveal_strlit("Or");
    reveal_strlit("Xor");
    reveal_strlit("Delay");
    reveal_strlit("Clk");
    reveal_strlit("HalfAdder");
    reveal_strlit("FullAdder");
    reveal_strlit("Rom");
    reveal_strlit("DFf");
    reveal_strlit("JkFf");
    reveal_strlit("SrFf");
    reveal_strlit("Rng");
    reveal_strlit("Ram");
    reveal_strlit("Decoder");
    reveal_strlit("Encoder");
    reveal_strlit("Mux");
    reveal_strlit("Demux");
    reveal_strlit("UserInput");
    reveal_strlit("LedMatrix");
}

} // verus!
