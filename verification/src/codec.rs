//! The compact little-endian `.lgb` binary board format.
//!
//! ```text
//! Header (16 B):  u32 magic=0x4C474231 ("LGB1") | u16 version=1 | u16 reserved
//!                 u32 link_count | u32 component_count
//! Per component:  u16 type | u16 reserved
//!                 u32 in_count i | u32 out_count o | u32 op_count p
//!                 u32*i input link ids | u32*o output link ids | u32*p ops
//! ```
//!
//! The format has no field for negated pins: a board is written without them.

use vstd::prelude::*;
use vstd::string::StringExecFns;
use crate::board::{BoardDescriptor, ComponentDescriptor};
use crate::error::SimError;
#[allow(unused_imports)]
use crate::netlist::{BoardModel, ComponentModel};
use crate::text;
use crate::types::CompType;

verus! {

/// File magic. It is written little-endian like every other field, so a file begins with the bytes
/// `31 42 47 4C`.
pub const LGB_MAGIC: u32 = 0x4C47_4231;

/// Format version.
pub const LGB_VERSION: u16 = 1;

/// The two bytes of a number, lowest first.
pub open spec fn le16(v: u16) -> Seq<u8> {
    seq![(v % 256) as u8, (v / 256) as u8]
}

/// The four bytes of a number, lowest first.
pub open spec fn le32(v: u32) -> Seq<u8> {
    seq![
        (v % 256) as u8,
        (v / 256 % 256) as u8,
        (v / 65536 % 256) as u8,
        (v / 16777216) as u8,
    ]
}

/// The bytes of a list of numbers.
pub open spec fn le_words(s: Seq<u32>) -> Seq<u8> {
    Seq::new(4 * s.len(), |k: int| le32(s[k / 4])[k % 4])
}

/// The bytes of a component.
pub open spec fn component_bytes(c: ComponentModel) -> Seq<u8> {
    le16(c.ty.number()) + le16(0) + le32(c.inputs.len() as u32) + le32(c.outputs.len() as u32)
        + le32(c.ops.len() as u32) + le_words(c.inputs) + le_words(c.outputs) + le_words(c.ops)
}

/// The bytes of a list of components.
pub open spec fn components_bytes(cs: Seq<ComponentModel>) -> Seq<u8>
    decreases cs.len(),
{
    if cs.len() == 0 {
        Seq::empty()
    } else {
        components_bytes(cs.drop_last()) + component_bytes(cs.last())
    }
}

/// The bytes ahead of the components.
pub open spec fn header_bytes(b: BoardModel) -> Seq<u8> {
    le32(LGB_MAGIC) + le16(LGB_VERSION) + le16(0) + le32(b.links) + le32(b.components.len() as u32)
}

/// The bytes of a board.
pub open spec fn board_bytes(b: BoardModel) -> Seq<u8> {
    header_bytes(b) + components_bytes(b.components)
}

/// The number two bytes stand for.
pub open spec fn dec16(b: Seq<u8>, at: int) -> u16 {
    (b[at] + 256 * b[at + 1]) as u16
}

/// The number four bytes stand for.
pub open spec fn dec32(b: Seq<u8>, at: int) -> u32 {
    (b[at] + 256 * b[at + 1] + 65536 * b[at + 2] + 16777216 * b[at + 3]) as u32
}

/// What can be wrong with a binary board.
pub enum Defect {
    /// The magic number is another.
    Magic(u32),
    /// The version is another.
    Version(u16),
    /// `need` bytes were due at offset `at`, but only `left` remain.
    Truncated { need: nat, at: nat, left: nat },
    /// A type id that names no component type.
    UnknownType(u16),
    /// A list too long for its bytes to be counted.
    Overflow(nat),
}

impl Defect {
    /// What a malformed board's error says.
    pub open spec fn text(self) -> Seq<char> {
        match self {
            Defect::Magic(v) => "bad magic 0x"@ + text::hex(v as nat, 8) + " (expected 0x"@
                + text::hex(LGB_MAGIC as nat, 8) + ")"@,
            Defect::Version(v) => "unsupported version "@ + text::decimal(v as nat)
                + " (this build reads "@ + text::decimal(LGB_VERSION as nat) + ")"@,
            Defect::Truncated { need, at, left } => "truncated: need "@ + text::decimal(need)
                + " bytes at offset "@ + text::decimal(at) + " but only "@ + text::decimal(left)
                + " remain"@,
            Defect::UnknownType(id) => "unknown component type id "@ + text::decimal(id as nat),
            Defect::Overflow(n) => "element count "@ + text::decimal(n)
                + " overflows the byte length"@,
        }
    }

    /// The message of the error that reports this defect.
    pub open spec fn message_text(self) -> Seq<char> {
        match self {
            Defect::UnknownType(_) => self.text(),
            _ => "malformed .lgb binary: "@ + self.text(),
        }
    }

    /// `e` reports this defect.
    pub open spec fn reported_by(self, e: SimError) -> bool {
        match self {
            Defect::UnknownType(id) => e == SimError::UnknownComponentType(id),
            _ => e is BadBinary && e->BadBinary_0@ == self.text(),
        }
    }
}

/// `n` bytes are there from `at` on.
pub open spec fn span(b: Seq<u8>, at: int, n: int) -> Result<(), Defect> {
    if at + n <= b.len() {
        Ok(())
    } else {
        Err(Defect::Truncated { need: n as nat, at: at as nat, left: (b.len() - at) as nat })
    }
}

/// The two-byte number at `at`.
pub open spec fn read16(b: Seq<u8>, at: int) -> Result<u16, Defect> {
    match span(b, at, 2) {
        Ok(_) => Ok(dec16(b, at)),
        Err(d) => Err(d),
    }
}

/// The four-byte number at `at`.
pub open spec fn read32(b: Seq<u8>, at: int) -> Result<u32, Defect> {
    match span(b, at, 4) {
        Ok(_) => Ok(dec32(b, at)),
        Err(d) => Err(d),
    }
}

/// The `n` four-byte numbers from `at` on.
pub open spec fn read_words(b: Seq<u8>, at: int, n: u32) -> Result<Seq<u32>, Defect> {
    if 4 * n > usize::MAX {
        Err(Defect::Overflow(n as nat))
    } else {
        match span(b, at, 4 * n) {
            Ok(_) => Ok(Seq::new(n as nat, |i: int| dec32(b, at + 4 * i))),
            Err(d) => Err(d),
        }
    }
}

/// The component at `at`: the first thing wrong with its bytes, or the component and where the next
/// one starts.
pub open spec fn read_component(b: Seq<u8>, at: int) -> Result<(ComponentModel, int), Defect> {
    match (read16(b, at), read16(b, at + 2)) {
        (Err(d), _) => Err(d),
        (_, Err(d)) => Err(d),
        (Ok(id), Ok(_)) => match CompType::of_number(id) {
            None => Err(Defect::UnknownType(id)),
            Some(ty) => match (read32(b, at + 4), read32(b, at + 8), read32(b, at + 12)) {
                (Err(d), _, _) => Err(d),
                (_, Err(d), _) => Err(d),
                (_, _, Err(d)) => Err(d),
                (Ok(i), Ok(o), Ok(p)) => match (
                    read_words(b, at + 16, i),
                    read_words(b, at + 16 + 4 * i, o),
                    read_words(b, at + 16 + 4 * i + 4 * o, p),
                ) {
                    (Err(d), _, _) => Err(d),
                    (_, Err(d), _) => Err(d),
                    (_, _, Err(d)) => Err(d),
                    (Ok(inputs), Ok(outputs), Ok(ops)) => Ok(
                        (
                            ComponentModel {
                                ty,
                                inputs,
                                outputs,
                                ops,
                                neg_inputs: Seq::empty(),
                                neg_outputs: Seq::empty(),
                            },
                            at + 16 + 4 * i + 4 * o + 4 * p,
                        ),
                    ),
                },
            },
        },
    }
}

/// The `n` components from `at` on.
pub open spec fn read_components(b: Seq<u8>, at: int, n: nat) -> Result<
    Seq<ComponentModel>,
    Defect,
>
    decreases n,
{
    if n == 0 {
        Ok(Seq::empty())
    } else {
        match read_component(b, at) {
            Err(d) => Err(d),
            Ok((c, next)) => joined(seq![c], read_components(b, next, (n - 1) as nat)),
        }
    }
}

/// A list of components ahead of the ones still read.
pub open spec fn joined(
    head: Seq<ComponentModel>,
    rest: Result<Seq<ComponentModel>, Defect>,
) -> Result<Seq<ComponentModel>, Defect> {
    match rest {
        Ok(tail) => Ok(head + tail),
        Err(d) => Err(d),
    }
}

/// The board the bytes stand for, or the first thing wrong with them. Bytes behind the last
/// component are not looked at.
pub open spec fn read_board(b: Seq<u8>) -> Result<BoardModel, Defect> {
    match read32(b, 0) {
        Err(d) => Err(d),
        Ok(magic) => if magic != LGB_MAGIC {
            Err(Defect::Magic(magic))
        } else {
            match read16(b, 4) {
                Err(d) => Err(d),
                Ok(version) => if version != LGB_VERSION {
                    Err(Defect::Version(version))
                } else {
                    match (read16(b, 6), read32(b, 8), read32(b, 12)) {
                        (Err(d), _, _) => Err(d),
                        (_, Err(d), _) => Err(d),
                        (_, _, Err(d)) => Err(d),
                        (Ok(_), Ok(links), Ok(n)) => match read_components(b, 16, n as nat) {
                            Err(d) => Err(d),
                            Ok(components) => Ok(BoardModel { links, components }),
                        },
                    }
                },
            }
        },
    }
}

/// Append a two-byte number.
fn put16(out: &mut Vec<u8>, v: u16)
    ensures
        final(out)@ == old(out)@ + le16(v),
{
    out.push((v % 256) as u8);
    out.push((v / 256) as u8);
    assert(out@ =~= old(out)@ + le16(v));
}

/// Append a four-byte number.
fn put32(out: &mut Vec<u8>, v: u32)
    ensures
        final(out)@ == old(out)@ + le32(v),
{
    out.push((v % 256) as u8);
    out.push((v / 256 % 256) as u8);
    out.push((v / 65536 % 256) as u8);
    out.push((v / 16777216) as u8);
    assert(out@ =~= old(out)@ + le32(v));
}

/// Append a list of four-byte numbers.
pub(crate) fn put_words(out: &mut Vec<u8>, words: &[u32])
    ensures
        final(out)@ == old(out)@ + le_words(words@),
{
    let n: usize = words.len();
    assert(out@ =~= old(out)@ + le_words(words@.subrange(0, 0)));
    let mut i: usize = 0;
    while i < n
        invariant
            i <= n,
            n == words@.len(),
            out@ == old(out)@ + le_words(words@.subrange(0, i as int)),
        decreases n - i,
    {
        put32(out, words[i]);
        assert(le_words(words@.subrange(0, i + 1)) =~= le_words(words@.subrange(0, i as int))
            + le32(words@[i as int]));
        assert(out@ =~= old(out)@ + le_words(words@.subrange(0, i + 1)));
        i = i + 1;
    }
    assert(words@.subrange(0, n as int) =~= words@);
}

/// Appending in two steps.
proof fn lemma_append(a: Seq<u8>, b: Seq<u8>, c: Seq<u8>)
    ensures
        (a + b) + c == a + (b + c),
{
    assert((a + b) + c =~= a + (b + c));
}

/// Append a component.
fn put_component(out: &mut Vec<u8>, c: &ComponentDescriptor)
    ensures
        final(out)@ == old(out)@ + component_bytes(c@),
{
    let ghost start = out@;
    let ghost mut done = le16(c.ty.number());
    put16(out, c.ty.id());
    put16(out, 0);
    proof {
        lemma_append(start, done, le16(0));
        done = done + le16(0);
    }
    put32(out, c.inputs.len() as u32);
    proof {
        lemma_append(start, done, le32(c.inputs@.len() as u32));
        done = done + le32(c.inputs@.len() as u32);
    }
    put32(out, c.outputs.len() as u32);
    proof {
        lemma_append(start, done, le32(c.outputs@.len() as u32));
        done = done + le32(c.outputs@.len() as u32);
    }
    put32(out, c.ops.len() as u32);
    proof {
        lemma_append(start, done, le32(c.ops@.len() as u32));
        done = done + le32(c.ops@.len() as u32);
    }
    put_words(out, c.inputs.as_slice());
    proof {
        lemma_append(start, done, le_words(c.inputs@));
        done = done + le_words(c.inputs@);
    }
    put_words(out, c.outputs.as_slice());
    proof {
        lemma_append(start, done, le_words(c.outputs@));
        done = done + le_words(c.outputs@);
    }
    put_words(out, c.ops.as_slice());
    proof {
        lemma_append(start, done, le_words(c.ops@));
    }
}

/// Write a board in the `.lgb` format.
pub fn encode_board(desc: &BoardDescriptor) -> (r: Vec<u8>)
    ensures
        r@ == board_bytes(desc@),
{
    let ghost b = desc@;
    let n: usize = desc.components.len();
    let mut out: Vec<u8> = Vec::new();
    put32(&mut out, LGB_MAGIC);
    put16(&mut out, LGB_VERSION);
    put16(&mut out, 0);
    put32(&mut out, desc.link_count);
    put32(&mut out, n as u32);
    assert(out@ =~= header_bytes(b));
    assert(header_bytes(b) + components_bytes(b.components.subrange(0, 0)) =~= header_bytes(b));
    let mut i: usize = 0;
    while i < n
        invariant
            i <= n,
            n == b.components.len(),
            b == desc@,
            out@ == header_bytes(b) + components_bytes(b.components.subrange(0, i as int)),
        decreases n - i,
    {
        let c = &desc.components[i];
        let ghost before = out@;
        put_component(&mut out, c);
        proof {
            assert(b.components[i as int] == c@);
            assert(b.components.subrange(0, i + 1).drop_last() =~= b.components.subrange(
                0,
                i as int,
            ));
            lemma_append(
                header_bytes(b),
                components_bytes(b.components.subrange(0, i as int)),
                component_bytes(c@),
            );
        }
        i = i + 1;
    }
    assert(b.components.subrange(0, n as int) =~= b.components);
    out
}

/// A bounds-checked cursor over the bytes.
struct Reader<'a> {
    b: &'a [u8],
    pos: usize,
}

impl<'a> Reader<'a> {
    spec fn wf(&self) -> bool {
        self.pos <= self.b@.len()
    }

    /// A cursor at the first byte.
    fn new(b: &'a [u8]) -> (r: Self)
        ensures
            r.wf(),
            r.b == b,
            r.pos == 0,
    {
        Reader { b, pos: 0 }
    }

    /// The next `n` bytes.
    fn take(&mut self, n: usize) -> (r: Result<&'a [u8], SimError>)
        requires
            old(self).wf(),
        ensures
            final(self).wf(),
            final(self).b == old(self).b,
            match span(old(self).b@, old(self).pos as int, n as int) {
                Ok(_) => r is Ok && r->Ok_0@ == old(self).b@.subrange(
                    old(self).pos as int,
                    old(self).pos + n,
                ) && final(self).pos == old(self).pos + n,
                Err(d) => r is Err && d.reported_by(r->Err_0),
            },
    {
        let left: usize = self.b.len() - self.pos;
        if n <= left {
            let from: usize = self.pos;
            self.pos = from + n;
            Ok(vstd::slice::slice_subrange(self.b, from, from + n))
        } else {
            let mut why: String = String::new();
            why.append("truncated: need ");
            text::push_decimal(&mut why, n as u64);
            why.append(" bytes at offset ");
            text::push_decimal(&mut why, self.pos as u64);
            why.append(" but only ");
            text::push_decimal(&mut why, left as u64);
            why.append(" remain");
            proof {
                let d = Defect::Truncated {
                    need: n as nat,
                    at: self.pos as nat,
                    left: left as nat,
                };
                assert(why@ =~= d.text());
            }
            Err(SimError::BadBinary(why))
        }
    }

    /// The next two-byte number.
    fn u16(&mut self) -> (r: Result<u16, SimError>)
        requires
            old(self).wf(),
        ensures
            final(self).wf(),
            final(self).b == old(self).b,
            match read16(old(self).b@, old(self).pos as int) {
                Ok(v) => r == Ok::<u16, SimError>(v) && final(self).pos == old(self).pos + 2,
                Err(d) => r is Err && d.reported_by(r->Err_0),
            },
    {
        match self.take(2) {
            Ok(s) => Ok(s[0] as u16 + 256 * (s[1] as u16)),
            Err(e) => Err(e),
        }
    }

    /// The next four-byte number.
    fn u32(&mut self) -> (r: Result<u32, SimError>)
        requires
            old(self).wf(),
        ensures
            final(self).wf(),
            final(self).b == old(self).b,
            match read32(old(self).b@, old(self).pos as int) {
                Ok(v) => r == Ok::<u32, SimError>(v) && final(self).pos == old(self).pos + 4,
                Err(d) => r is Err && d.reported_by(r->Err_0),
            },
    {
        match self.take(4) {
            Ok(s) => Ok(word_at(s, 0)),
            Err(e) => Err(e),
        }
    }

    /// The next `n` four-byte numbers. The whole stretch is checked before anything is read.
    fn u32_vec(&mut self, n: u32) -> (r: Result<Vec<u32>, SimError>)
        requires
            old(self).wf(),
        ensures
            final(self).wf(),
            final(self).b == old(self).b,
            match read_words(old(self).b@, old(self).pos as int, n) {
                Ok(v) => r is Ok && r->Ok_0@ == v && final(self).pos == old(self).pos + 4 * n,
                Err(d) => r is Err && d.reported_by(r->Err_0),
            },
    {
        let ghost b = self.b@;
        let ghost at = self.pos as int;
        let len: usize = match (n as usize).checked_mul(4) {
            Some(len) => len,
            None => {
                let mut why: String = String::new();
                why.append("element count ");
                text::push_decimal(&mut why, n as u64);
                why.append(" overflows the byte length");
                proof {
                    assert(why@ =~= Defect::Overflow(n as nat).text());
                }
                return Err(SimError::BadBinary(why));
            },
        };
        let s: &[u8] = match self.take(len) {
            Ok(s) => s,
            Err(e) => {
                return Err(e);
            },
        };
        let mut out: Vec<u32> = Vec::new();
        let mut i: u32 = 0;
        while i < n
            invariant
                i <= n,
                len == 4 * n,
                s@ == b.subrange(at, at + len),
                0 <= at,
                at + len <= b.len(),
                out@.len() == i,
                forall|k: int| 0 <= k < i ==> #[trigger] out@[k] == dec32(b, at + 4 * k),
            decreases n - i,
        {
            out.push(word_at(s, 4 * i as usize));
            i = i + 1;
        }
        assert(out@ =~= Seq::new(n as nat, |i: int| dec32(b, at + 4 * i)));
        Ok(out)
    }

    /// The next component.
    fn component(&mut self) -> (r: Result<ComponentDescriptor, SimError>)
        requires
            old(self).wf(),
        ensures
            final(self).wf(),
            final(self).b == old(self).b,
            match read_component(old(self).b@, old(self).pos as int) {
                Ok((c, next)) => r is Ok && r->Ok_0@ == c && final(self).pos == next,
                Err(d) => r is Err && d.reported_by(r->Err_0),
            },
    {
        let ty_id: u16 = match self.u16() {
            Ok(v) => v,
            Err(e) => {
                return Err(e);
            },
        };
        match self.u16() {
            Ok(_) => {},
            Err(e) => {
                return Err(e);
            },
        }
        let ty: CompType = match CompType::try_from_u16(ty_id) {
            Some(ty) => ty,
            None => {
                return Err(SimError::UnknownComponentType(ty_id));
            },
        };
        let ins: u32 = match self.u32() {
            Ok(v) => v,
            Err(e) => {
                return Err(e);
            },
        };
        let outs: u32 = match self.u32() {
            Ok(v) => v,
            Err(e) => {
                return Err(e);
            },
        };
        let op_count: u32 = match self.u32() {
            Ok(v) => v,
            Err(e) => {
                return Err(e);
            },
        };
        let inputs: Vec<u32> = match self.u32_vec(ins) {
            Ok(v) => v,
            Err(e) => {
                return Err(e);
            },
        };
        let outputs: Vec<u32> = match self.u32_vec(outs) {
            Ok(v) => v,
            Err(e) => {
                return Err(e);
            },
        };
        let ops: Vec<u32> = match self.u32_vec(op_count) {
            Ok(v) => v,
            Err(e) => {
                return Err(e);
            },
        };
        Ok(
            ComponentDescriptor {
                ty,
                inputs,
                outputs,
                ops,
                neg_inputs: Vec::new(),
                neg_outputs: Vec::new(),
            },
        )
    }
}

/// The four-byte number at `at`.
fn word_at(s: &[u8], at: usize) -> (v: u32)
    requires
        at + 4 <= s@.len(),
    ensures
        v == dec32(s@, at as int),
{
    s[at] as u32 + 256 * (s[at + 1] as u32) + 65536 * (s[at + 2] as u32) + 16777216 * (s[at
        + 3] as u32)
}

/// Read a board in the `.lgb` format. The magic, the version and every length are checked, so a
/// truncated or corrupt file is an error. Link ranges and arities are left to
/// [`Board::compile`](crate::board::Board::compile).
pub fn decode_board(bytes: &[u8]) -> (r: Result<BoardDescriptor, SimError>)
    ensures
        match read_board(bytes@) {
            Ok(b) => r is Ok && r->Ok_0@ == b,
            Err(d) => r is Err && d.reported_by(r->Err_0),
        },
{
    let mut r = Reader::new(bytes);
    let magic: u32 = match r.u32() {
        Ok(v) => v,
        Err(e) => {
            return Err(e);
        },
    };
    if magic != LGB_MAGIC {
        let mut why: String = String::new();
        why.append("bad magic 0x");
        text::push_hex(&mut why, magic as u64, 8);
        why.append(" (expected 0x");
        text::push_hex(&mut why, LGB_MAGIC as u64, 8);
        why.append(")");
        proof {
            assert(why@ =~= Defect::Magic(magic).text());
        }
        return Err(SimError::BadBinary(why));
    }
    let version: u16 = match r.u16() {
        Ok(v) => v,
        Err(e) => {
            return Err(e);
        },
    };
    if version != LGB_VERSION {
        let mut why: String = String::new();
        why.append("unsupported version ");
        text::push_decimal(&mut why, version as u64);
        why.append(" (this build reads ");
        text::push_decimal(&mut why, LGB_VERSION as u64);
        why.append(")");
        proof {
            assert(why@ =~= Defect::Version(version).text());
        }
        return Err(SimError::BadBinary(why));
    }
    match r.u16() {
        Ok(_) => {},
        Err(e) => {
            return Err(e);
        },
    }
    let link_count: u32 = match r.u32() {
        Ok(v) => v,
        Err(e) => {
            return Err(e);
        },
    };
    let count: u32 = match r.u32() {
        Ok(v) => v,
        Err(e) => {
            return Err(e);
        },
    };
    let mut components: Vec<ComponentDescriptor> = Vec::new();
    let ghost all = read_components(bytes@, 16, count as nat);
    proof {
        let none: Seq<ComponentModel> = Seq::empty();
        assert(models(components@) =~= none);
        lemma_joined_nothing(all);
    }
    let mut left: u32 = count;
    while left > 0
        invariant
            r.wf(),
            r.b == bytes,
            read_board(bytes@) == (match all {
                Err(d) => Err(d),
                Ok(components) => Ok(BoardModel { links: link_count, components }),
            }),
            all == joined(
                models(components@),
                read_components(bytes@, r.pos as int, left as nat),
            ),
        decreases left,
    {
        let ghost at = r.pos as int;
        let ghost before = components@;
        let c: ComponentDescriptor = match r.component() {
            Ok(c) => c,
            Err(e) => {
                return Err(e);
            },
        };
        let ghost m = c@;
        components.push(c);
        left = left - 1;
        proof {
            assert(models(components@) =~= models(before).push(m));
            let rest = read_components(bytes@, r.pos as int, left as nat);
            lemma_joined_step(models(before), m, rest);
        }
    }
    proof {
        assert(models(components@) + Seq::<ComponentModel>::empty() =~= models(components@));
    }
    let desc = BoardDescriptor { link_count, components };
    assert(desc@.components =~= models(components@));
    Ok(desc)
}

/// The contents of a list of component descriptions.
spec fn models(cs: Seq<ComponentDescriptor>) -> Seq<ComponentModel> {
    Seq::new(cs.len(), |i: int| cs[i]@)
}

proof fn lemma_joined_nothing(r: Result<Seq<ComponentModel>, Defect>)
    ensures
        joined(Seq::empty(), r) == r,
{
    if r is Ok {
        assert(Seq::<ComponentModel>::empty() + r->Ok_0 =~= r->Ok_0);
    }
}

proof fn lemma_joined_step(
    head: Seq<ComponentModel>,
    c: ComponentModel,
    rest: Result<Seq<ComponentModel>, Defect>,
)
    ensures
        joined(head, joined(seq![c], rest)) == joined(head.push(c), rest),
{
    if rest is Ok {
        assert(head + (seq![c] + rest->Ok_0) =~= head.push(c) + rest->Ok_0);
    }
}

/// The board has no negated pins, and its counts fit their fields.
pub open spec fn writable(b: BoardModel) -> bool {
    &&& b.components.len() <= u32::MAX
    &&& forall|i: int| 0 <= i < b.components.len() ==> writable_component(#[trigger] b.components[i])
}

/// The component has no negated pins, and its counts fit their fields.
pub open spec fn writable_component(c: ComponentModel) -> bool {
    &&& c.neg_inputs.len() == 0
    &&& c.neg_outputs.len() == 0
    &&& c.inputs.len() <= u32::MAX && 4 * c.inputs.len() <= usize::MAX
    &&& c.outputs.len() <= u32::MAX && 4 * c.outputs.len() <= usize::MAX
    &&& c.ops.len() <= u32::MAX && 4 * c.ops.len() <= usize::MAX
}

/// The bytes `s` stand at `at`.
#[verifier::opaque]
spec fn stand(b: Seq<u8>, at: int, s: Seq<u8>) -> bool {
    0 <= at && at + s.len() <= b.len() && forall|i: int|
        0 <= i < s.len() ==> #[trigger] b[at + i] == s[i]
}

proof fn lemma_stand_split(b: Seq<u8>, at: int, s: Seq<u8>, t: Seq<u8>)
    requires
        stand(b, at, s + t),
    ensures
        stand(b, at, s),
        stand(b, at + s.len(), t),
{
    reveal(stand);
    assert forall|i: int| 0 <= i < s.len() implies #[trigger] b[at + i] == s[i] by {
        assert(b[at + i] == (s + t)[i]);
    }
    assert forall|i: int| 0 <= i < t.len() implies #[trigger] b[at + s.len() + i] == t[i] by {
        assert(b[at + (s.len() + i)] == (s + t)[s.len() + i]);
    }
}

proof fn lemma_read16(b: Seq<u8>, at: int, v: u16)
    requires
        stand(b, at, le16(v)),
    ensures
        read16(b, at) == Ok::<u16, Defect>(v),
{
    reveal(stand);
    assert(b[at + 0] == le16(v)[0]);
    assert(b[at + 1] == le16(v)[1]);
}

/// The bytes of a number stand for it.
proof fn lemma_dec32(b: Seq<u8>, at: int, v: u32)
    requires
        b[at] == le32(v)[0],
        b[at + 1] == le32(v)[1],
        b[at + 2] == le32(v)[2],
        b[at + 3] == le32(v)[3],
    ensures
        dec32(b, at) == v,
{
    assert((v % 256) + 256 * ((v / 256) % 256) + 65536 * ((v / 65536) % 256) + 16777216 * (v
        / 16777216) == v) by (bit_vector);
}

proof fn lemma_read32(b: Seq<u8>, at: int, v: u32)
    requires
        stand(b, at, le32(v)),
    ensures
        read32(b, at) == Ok::<u32, Defect>(v),
{
    reveal(stand);
    assert(b[at + 0] == le32(v)[0]);
    assert(b[at + 1] == le32(v)[1]);
    assert(b[at + 2] == le32(v)[2]);
    assert(b[at + 3] == le32(v)[3]);
    lemma_dec32(b, at, v);
}

proof fn lemma_read_words(b: Seq<u8>, at: int, s: Seq<u32>)
    requires
        s.len() <= u32::MAX,
        4 * s.len() <= usize::MAX,
        stand(b, at, le_words(s)),
    ensures
        read_words(b, at, s.len() as u32) == Ok::<Seq<u32>, Defect>(s),
{
    reveal(stand);
    let t = le_words(s);
    let got = Seq::new(s.len(), |i: int| dec32(b, at + 4 * i));
    assert forall|i: int| 0 <= i < s.len() implies got[i] == s[i] by {
        assert(b[at + (4 * i)] == t[4 * i]);
        assert(b[at + (4 * i + 1)] == t[4 * i + 1]);
        assert(b[at + (4 * i + 2)] == t[4 * i + 2]);
        assert(b[at + (4 * i + 3)] == t[4 * i + 3]);
        lemma_dec32(b, at + 4 * i, s[i]);
    }
    assert(got =~= s);
}

proof fn lemma_read_component(b: Seq<u8>, at: int, c: ComponentModel)
    requires
        writable_component(c),
        stand(b, at, component_bytes(c)),
    ensures
        read_component(b, at) == Ok::<(ComponentModel, int), Defect>(
            (c, at + component_bytes(c).len()),
        ),
{
    let s1 = le16(c.ty.number());
    let s2 = s1 + le16(0);
    let s3 = s2 + le32(c.inputs.len() as u32);
    let s4 = s3 + le32(c.outputs.len() as u32);
    let s5 = s4 + le32(c.ops.len() as u32);
    let s6 = s5 + le_words(c.inputs);
    let s7 = s6 + le_words(c.outputs);
    lemma_stand_split(b, at, s7, le_words(c.ops));
    lemma_stand_split(b, at, s6, le_words(c.outputs));
    lemma_stand_split(b, at, s5, le_words(c.inputs));
    lemma_stand_split(b, at, s4, le32(c.ops.len() as u32));
    lemma_stand_split(b, at, s3, le32(c.outputs.len() as u32));
    lemma_stand_split(b, at, s2, le32(c.inputs.len() as u32));
    lemma_stand_split(b, at, s1, le16(0));
    lemma_read16(b, at, c.ty.number());
    lemma_read16(b, at + 2, 0);
    lemma_read32(b, at + 4, c.inputs.len() as u32);
    lemma_read32(b, at + 8, c.outputs.len() as u32);
    lemma_read32(b, at + 12, c.ops.len() as u32);
    lemma_read_words(b, at + 16, c.inputs);
    lemma_read_words(b, at + 16 + 4 * c.inputs.len(), c.outputs);
    lemma_read_words(b, at + 16 + 4 * c.inputs.len() + 4 * c.outputs.len(), c.ops);
    crate::types::law_id_round_trips(c.ty);
    assert(c.neg_inputs =~= Seq::empty());
    assert(c.neg_outputs =~= Seq::empty());
}

proof fn lemma_components_bytes_front(cs: Seq<ComponentModel>)
    requires
        cs.len() > 0,
    ensures
        components_bytes(cs) == component_bytes(cs[0]) + components_bytes(cs.drop_first()),
    decreases cs.len(),
{
    let first = component_bytes(cs[0]);
    if cs.len() == 1 {
        assert(components_bytes(cs.drop_last()) =~= Seq::empty());
        assert(components_bytes(cs.drop_first()) =~= Seq::empty());
        assert(components_bytes(cs) =~= first + components_bytes(cs.drop_first()));
    } else {
        lemma_components_bytes_front(cs.drop_last());
        assert(cs.drop_last().drop_first() =~= cs.drop_first().drop_last());
        assert(cs.drop_first().last() == cs.last());
        lemma_append(
            first,
            components_bytes(cs.drop_first().drop_last()),
            component_bytes(cs.last()),
        );
    }
}

proof fn lemma_read_components(b: Seq<u8>, at: int, cs: Seq<ComponentModel>)
    requires
        forall|i: int| 0 <= i < cs.len() ==> writable_component(#[trigger] cs[i]),
        stand(b, at, components_bytes(cs)),
    ensures
        read_components(b, at, cs.len()) == Ok::<Seq<ComponentModel>, Defect>(cs),
    decreases cs.len(),
{
    if cs.len() == 0 {
        assert(cs =~= Seq::empty());
    } else {
        let first = component_bytes(cs[0]);
        let rest = cs.drop_first();
        lemma_components_bytes_front(cs);
        lemma_stand_split(b, at, first, components_bytes(rest));
        lemma_read_component(b, at, cs[0]);
        lemma_read_components(b, at + first.len(), rest);
        assert(seq![cs[0]] + rest =~= cs);
    }
}

proof fn lemma_read_header(bytes: Seq<u8>, b: BoardModel)
    requires
        stand(bytes, 0, header_bytes(b)),
    ensures
        read32(bytes, 0) == Ok::<u32, Defect>(LGB_MAGIC),
        read16(bytes, 4) == Ok::<u16, Defect>(LGB_VERSION),
        read16(bytes, 6) == Ok::<u16, Defect>(0),
        read32(bytes, 8) == Ok::<u32, Defect>(b.links),
        read32(bytes, 12) == Ok::<u32, Defect>(b.components.len() as u32),
{
    let h1 = le32(LGB_MAGIC);
    let h2 = h1 + le16(LGB_VERSION);
    let h3 = h2 + le16(0);
    let h4 = h3 + le32(b.links);
    assert(h1.len() == 4 && h2.len() == 6 && h3.len() == 8 && h4.len() == 12);
    lemma_stand_split(bytes, 0, h4, le32(b.components.len() as u32));
    lemma_stand_split(bytes, 0, h3, le32(b.links));
    lemma_stand_split(bytes, 0, h2, le16(0));
    lemma_stand_split(bytes, 0, h1, le16(LGB_VERSION));
    lemma_read32(bytes, 0, LGB_MAGIC);
    lemma_read16(bytes, 4, LGB_VERSION);
    lemma_read16(bytes, 6, 0);
    lemma_read32(bytes, 8, b.links);
    lemma_read32(bytes, 12, b.components.len() as u32);
}

proof fn lemma_read_parts(bytes: Seq<u8>, b: BoardModel)
    requires
        read32(bytes, 0) == Ok::<u32, Defect>(LGB_MAGIC),
        read16(bytes, 4) == Ok::<u16, Defect>(LGB_VERSION),
        read16(bytes, 6) == Ok::<u16, Defect>(0),
        read32(bytes, 8) == Ok::<u32, Defect>(b.links),
        read32(bytes, 12) == Ok::<u32, Defect>(b.components.len() as u32),
        b.components.len() <= u32::MAX,
        read_components(bytes, 16, b.components.len()) == Ok::<Seq<ComponentModel>, Defect>(
            b.components,
        ),
    ensures
        read_board(bytes) == Ok::<BoardModel, Defect>(b),
{
}

/// Reading back a written board gives the board, whatever follows it.
pub proof fn law_round_trip(b: BoardModel, tail: Seq<u8>)
    requires
        writable(b),
    ensures
        read_board(board_bytes(b) + tail) == Ok::<BoardModel, Defect>(b),
{
    let bytes = board_bytes(b) + tail;
    assert(stand(bytes, 0, board_bytes(b) + tail)) by {
        reveal(stand);
    }
    lemma_stand_split(bytes, 0, board_bytes(b), tail);
    assert(stand(bytes, 0, header_bytes(b)) && stand(bytes, 16, components_bytes(b.components))) by {
        lemma_stand_split(bytes, 0, header_bytes(b), components_bytes(b.components));
        lemma_header_length(b);
    }
    lemma_read_header(bytes, b);
    lemma_read_components(bytes, 16, b.components);
    lemma_read_parts(bytes, b);
}

proof fn lemma_header_length(b: BoardModel)
    ensures
        header_bytes(b).len() == 16,
{
}

/// What can be read from the first `n` bytes reads the same from all of them.
proof fn lemma_cut_numbers(b: Seq<u8>, n: int, at: int)
    requires
        0 <= n <= b.len(),
        0 <= at,
    ensures
        read16(b.take(n), at) is Ok ==> read16(b, at) == read16(b.take(n), at),
        read32(b.take(n), at) is Ok ==> read32(b, at) == read32(b.take(n), at),
{
}

proof fn lemma_cut_words(b: Seq<u8>, n: int, at: int, count: u32)
    requires
        0 <= n <= b.len(),
        0 <= at,
        read_words(b.take(n), at, count) is Ok,
    ensures
        read_words(b, at, count) == read_words(b.take(n), at, count),
        read_words(b, at, count)->Ok_0.len() == count,
        at + 4 * count <= n,
{
    let a = Seq::new(count as nat, |i: int| dec32(b, at + 4 * i));
    let c = Seq::new(count as nat, |i: int| dec32(b.take(n), at + 4 * i));
    assert forall|i: int| 0 <= i < count implies a[i] == c[i] by {
        assert(b.take(n)[at + 4 * i] == b[at + 4 * i]);
        assert(b.take(n)[at + 4 * i + 1] == b[at + 4 * i + 1]);
        assert(b.take(n)[at + 4 * i + 2] == b[at + 4 * i + 2]);
        assert(b.take(n)[at + 4 * i + 3] == b[at + 4 * i + 3]);
    }
    assert(a =~= c);
}

proof fn lemma_cut_component(b: Seq<u8>, n: int, at: int)
    requires
        0 <= n <= b.len(),
        0 <= at,
        read_component(b.take(n), at) is Ok,
    ensures
        read_component(b, at) == read_component(b.take(n), at),
        read_component(b, at) matches Ok((c, next)) ==> next == at + component_bytes(c).len()
            && next <= n,
{
    let cut = b.take(n);
    lemma_cut_numbers(b, n, at);
    lemma_cut_numbers(b, n, at + 2);
    lemma_cut_numbers(b, n, at + 4);
    lemma_cut_numbers(b, n, at + 8);
    lemma_cut_numbers(b, n, at + 12);
    let i = read32(b, at + 4)->Ok_0;
    let o = read32(b, at + 8)->Ok_0;
    let p = read32(b, at + 12)->Ok_0;
    lemma_cut_words(b, n, at + 16, i);
    lemma_cut_words(b, n, at + 16 + 4 * i, o);
    lemma_cut_words(b, n, at + 16 + 4 * i + 4 * o, p);
}

proof fn lemma_cut_components(b: Seq<u8>, n: int, at: int, count: nat)
    requires
        0 <= n <= b.len(),
        0 <= at <= n,
        read_components(b.take(n), at, count) is Ok,
    ensures
        read_components(b, at, count) == read_components(b.take(n), at, count),
        at + components_bytes(read_components(b, at, count)->Ok_0).len() <= n,
    decreases count,
{
    let cut = b.take(n);
    if count > 0 {
        lemma_cut_component(b, n, at);
        if let Ok((c, next)) = read_component(cut, at) {
            let rest = read_components(cut, next, (count - 1) as nat);
            assert(rest is Ok);
            lemma_cut_components(b, n, next, (count - 1) as nat);
            let all = seq![c] + rest->Ok_0;
            assert(all.drop_first() =~= rest->Ok_0);
            lemma_components_bytes_front(all);
        }
    }
}

/// A component that can be read from all the bytes, but not from the first `n`, is cut short.
proof fn lemma_component_cut_short(b: Seq<u8>, n: int, at: int)
    requires
        0 <= n <= b.len(),
        0 <= at,
        read_component(b, at) is Ok,
        read_component(b.take(n), at) is Err,
    ensures
        read_component(b.take(n), at)->Err_0 is Truncated,
{
    lemma_cut_numbers(b, n, at);
    lemma_cut_numbers(b, n, at + 2);
    lemma_cut_numbers(b, n, at + 4);
    lemma_cut_numbers(b, n, at + 8);
    lemma_cut_numbers(b, n, at + 12);
}

proof fn lemma_components_cut_short(b: Seq<u8>, n: int, at: int, count: nat)
    requires
        0 <= n <= b.len(),
        0 <= at,
        read_components(b, at, count) is Ok,
        read_components(b.take(n), at, count) is Err,
    ensures
        read_components(b.take(n), at, count)->Err_0 is Truncated,
    decreases count,
{
    let cut = b.take(n);
    if count > 0 {
        match read_component(cut, at) {
            Err(d) => {
                lemma_component_cut_short(b, n, at);
            },
            Ok((c, next)) => {
                lemma_cut_component(b, n, at);
                lemma_components_cut_short(b, n, next, (count - 1) as nat);
            },
        }
    }
}

/// A board cut short anywhere is rejected, for being cut short.
pub proof fn law_truncation_is_rejected(b: BoardModel, n: int)
    requires
        writable(b),
        0 <= n < board_bytes(b).len(),
    ensures
        read_board(board_bytes(b).take(n)) is Err,
        read_board(board_bytes(b).take(n))->Err_0 is Truncated,
{
    let bytes = board_bytes(b);
    let cut = bytes.take(n);
    law_round_trip(b, Seq::empty());
    assert(bytes + Seq::<u8>::empty() =~= bytes);
    lemma_cut_numbers(bytes, n, 0);
    lemma_cut_numbers(bytes, n, 4);
    lemma_cut_numbers(bytes, n, 6);
    lemma_cut_numbers(bytes, n, 8);
    lemma_cut_numbers(bytes, n, 12);
    if read_board(cut) is Ok {
        let count = read32(bytes, 12)->Ok_0;
        lemma_cut_components(bytes, n, 16, count as nat);
        lemma_header_length(b);
        assert(read_board(bytes)->Ok_0.components == b.components);
    } else if read32(cut, 12) is Ok {
        let count = read32(bytes, 12)->Ok_0;
        if read_components(cut, 16, count as nat) is Err {
            lemma_components_cut_short(bytes, n, 16, count as nat);
        }
    }
}

/// Two byte strings agree from position `i` up to position `j`.
pub open spec fn agree(a: Seq<u8>, b: Seq<u8>, i: int, j: int) -> bool {
    forall|k: int| i <= k < j ==> #[trigger] a[k] == b[k]
}

/// Where component `k` of a board begins in its bytes.
pub open spec fn component_at(b: BoardModel, k: int) -> int {
    16 + components_bytes(b.components.take(k)).len() as int
}

/// The component that begins at `at` and is `len` bytes long is the same in both byte strings, but
/// for the field that is reserved, and for the id of a user input, which may be any of its ids in
/// `bytes` and is its own in `written`.
pub open spec fn same_component(bytes: Seq<u8>, written: Seq<u8>, at: int, len: int) -> bool {
    &&& agree(bytes, written, at, at + 2) || {
        &&& 200 <= dec16(bytes, at) <= 299
        &&& dec16(bytes, at) != 204
        &&& dec16(written, at) == 200
    }
    &&& agree(bytes, written, at + 4, at + len)
}

/// The bytes at `at` are those of component `c`, but for the reserved field and the id.
#[verifier::opaque]
spec fn holds(b: Seq<u8>, at: int, c: ComponentModel) -> bool {
    let e = component_bytes(c);
    &&& 0 <= at && at + e.len() <= b.len()
    &&& CompType::of_number(dec16(b, at)) == Some(c.ty)
    &&& forall|i: int| 4 <= i < e.len() ==> #[trigger] e[i] == b[at + i]
}

/// A number has the bytes it was read from.
proof fn lemma_le32_dec32(b: Seq<u8>, at: int)
    ensures
        le32(dec32(b, at))[0] == b[at],
        le32(dec32(b, at))[1] == b[at + 1],
        le32(dec32(b, at))[2] == b[at + 2],
        le32(dec32(b, at))[3] == b[at + 3],
{
    let v = dec32(b, at);
    let (p, q, r, t) = (b[at] as int, b[at + 1] as int, b[at + 2] as int, b[at + 3] as int);
    assert(v == p + 256 * q + 65536 * r + 16777216 * t);
    assert(v / 256 == q + 256 * r + 65536 * t);
    assert(v / 65536 == r + 256 * t);
    assert(v / 16777216 == t);
}

/// A list of numbers has the bytes it was read from.
proof fn lemma_le_words_read(b: Seq<u8>, at: int, n: u32)
    requires
        read_words(b, at, n) is Ok,
    ensures
        le_words(read_words(b, at, n)->Ok_0).len() == 4 * n,
        forall|k: int|
            0 <= k < 4 * n ==> #[trigger] le_words(read_words(b, at, n)->Ok_0)[k] == b[at + k],
{
    let s = read_words(b, at, n)->Ok_0;
    assert forall|k: int| 0 <= k < 4 * n implies #[trigger] le_words(s)[k] == b[at + k] by {
        let w = k / 4;
        assert(s[w] == dec32(b, at + 4 * w));
        lemma_le32_dec32(b, at + 4 * w);
        assert(k == 4 * w + k % 4);
    }
}

/// A component that was read stands where it was read from.
proof fn lemma_read_holds(b: Seq<u8>, at: int)
    requires
        0 <= at,
        read_component(b, at) is Ok,
    ensures
        holds(b, at, read_component(b, at)->Ok_0.0),
        read_component(b, at)->Ok_0.1 == at + component_bytes(
            read_component(b, at)->Ok_0.0,
        ).len(),
        read_component(b, at)->Ok_0.1 <= b.len(),
{
    reveal(holds);
    let c = read_component(b, at)->Ok_0.0;
    assert(b.take(b.len() as int) =~= b);
    lemma_cut_component(b, b.len() as int, at);
    let i = dec32(b, at + 4);
    let o = dec32(b, at + 8);
    let p = dec32(b, at + 12);
    lemma_le32_dec32(b, at + 4);
    lemma_le32_dec32(b, at + 8);
    lemma_le32_dec32(b, at + 12);
    lemma_le_words_read(b, at + 16, i);
    lemma_le_words_read(b, at + 16 + 4 * i, o);
    lemma_le_words_read(b, at + 16 + 4 * i + 4 * o, p);
    assert(c.inputs.len() == i && c.outputs.len() == o && c.ops.len() == p);
    let h4 = le16(c.ty.number()) + le16(0);
    let h8 = h4 + le32(i);
    let h12 = h8 + le32(o);
    let h16 = h12 + le32(p);
    let w1 = h16 + le_words(c.inputs);
    let w2 = w1 + le_words(c.outputs);
    let e = component_bytes(c);
    assert(e == w2 + le_words(c.ops));
    assert forall|k: int| 4 <= k < e.len() implies #[trigger] e[k] == b[at + k] by {
        if k < 8 {
            assert(e[k] == le32(i)[k - 4]);
        } else if k < 12 {
            assert(e[k] == le32(o)[k - 8]);
        } else if k < 16 {
            assert(e[k] == le32(p)[k - 12]);
        } else if k < 16 + 4 * i {
            assert(e[k] == le_words(c.inputs)[k - 16]);
        } else if k < 16 + 4 * i + 4 * o {
            assert(e[k] == le_words(c.outputs)[k - 16 - 4 * i]);
        } else {
            assert(e[k] == le_words(c.ops)[k - 16 - 4 * i - 4 * o]);
        }
    }
}

/// Components that were read stand one after the other where they were read from.
proof fn lemma_read_all_hold(b: Seq<u8>, at: int, n: nat, cs: Seq<ComponentModel>)
    requires
        0 <= at <= b.len(),
        read_components(b, at, n) == Ok::<Seq<ComponentModel>, Defect>(cs),
    ensures
        cs.len() == n,
        at + components_bytes(cs).len() <= b.len(),
    decreases n,
{
    if n > 0 {
        lemma_read_holds(b, at);
        let (c, next) = read_component(b, at)->Ok_0;
        let rest = read_components(b, next, (n - 1) as nat);
        assert(rest is Ok);
        lemma_read_all_hold(b, next, (n - 1) as nat, rest->Ok_0);
        assert(cs.drop_first() =~= rest->Ok_0);
        lemma_components_bytes_front(cs);
    }
}

/// Component `k` of those that were read stands behind the ones before it.
proof fn lemma_read_one_holds(b: Seq<u8>, at: int, n: nat, cs: Seq<ComponentModel>, k: int)
    requires
        0 <= at <= b.len(),
        read_components(b, at, n) == Ok::<Seq<ComponentModel>, Defect>(cs),
        0 <= k < cs.len(),
    ensures
        holds(b, at + components_bytes(cs.take(k)).len(), cs[k]),
    decreases n,
{
    lemma_read_holds(b, at);
    let (c, next) = read_component(b, at)->Ok_0;
    let rest = read_components(b, next, (n - 1) as nat);
    assert(rest is Ok);
    let tail = rest->Ok_0;
    assert(cs == seq![c] + tail);
    if k == 0 {
        assert(cs.take(0).len() == 0);
        assert(cs[0] == c);
    } else {
        lemma_read_one_holds(b, next, (n - 1) as nat, tail, k - 1);
        lemma_components_bytes_front(cs.take(k));
        assert(cs.take(k).drop_first() =~= tail.take(k - 1));
        assert(cs.take(k)[0] == c);
        assert(cs[k] == tail[k - 1]);
    }
}

/// Every component has its bytes in those of the list.
proof fn lemma_bytes_of(cs: Seq<ComponentModel>, k: int)
    requires
        0 <= k < cs.len(),
    ensures
        ({
            let at = components_bytes(cs.take(k)).len();
            let e = component_bytes(cs[k]);
            &&& at + e.len() <= components_bytes(cs).len()
            &&& forall|i: int| 0 <= i < e.len() ==> #[trigger] e[i] == components_bytes(cs)[at + i]
        }),
    decreases cs.len(),
{
    if k == cs.len() - 1 {
        assert(cs.take(k) =~= cs.drop_last());
    } else {
        lemma_bytes_of(cs.drop_last(), k);
        assert(cs.drop_last().take(k) =~= cs.take(k));
    }
}

/// A component reads the same from bytes that are cut behind it.
proof fn lemma_component_kept(b: Seq<u8>, m: int, at: int)
    requires
        0 <= m <= b.len(),
        0 <= at,
        read_component(b, at) is Ok,
        read_component(b, at)->Ok_0.1 <= m,
    ensures
        read_component(b.take(m), at) == read_component(b, at),
{
    lemma_read_holds(b, at);
    let i = dec32(b, at + 4);
    let o = dec32(b, at + 8);
    let p = dec32(b, at + 12);
    lemma_words_kept(b, m, at + 16, i);
    lemma_words_kept(b, m, at + 16 + 4 * i, o);
    lemma_words_kept(b, m, at + 16 + 4 * i + 4 * o, p);
    lemma_cut_numbers(b, m, at);
    lemma_cut_numbers(b, m, at + 2);
    lemma_cut_numbers(b, m, at + 4);
    lemma_cut_numbers(b, m, at + 8);
    lemma_cut_numbers(b, m, at + 12);
}

proof fn lemma_words_kept(b: Seq<u8>, m: int, at: int, n: u32)
    requires
        0 <= m <= b.len(),
        0 <= at,
        at + 4 * n <= m,
        read_words(b, at, n) is Ok,
    ensures
        read_words(b.take(m), at, n) == read_words(b, at, n),
{
    lemma_cut_words(b, m, at, n);
}

proof fn lemma_components_kept(b: Seq<u8>, m: int, at: int, n: nat)
    requires
        0 <= at <= b.len(),
        0 <= m <= b.len(),
        read_components(b, at, n) is Ok,
        at + components_bytes(read_components(b, at, n)->Ok_0).len() <= m,
    ensures
        read_components(b.take(m), at, n) == read_components(b, at, n),
    decreases n,
{
    if n > 0 {
        lemma_read_holds(b, at);
        let (c, next) = read_component(b, at)->Ok_0;
        let rest = read_components(b, next, (n - 1) as nat);
        assert(rest is Ok);
        let cs = read_components(b, at, n)->Ok_0;
        assert(cs.drop_first() =~= rest->Ok_0);
        lemma_components_bytes_front(cs);
        lemma_component_kept(b, m, at);
        lemma_components_kept(b, m, next, (n - 1) as nat);
    }
}

/// The header of a board that was read, written again.
proof fn lemma_header_rewritten(bytes: Seq<u8>, b: BoardModel)
    requires
        read_board(bytes) == Ok::<BoardModel, Defect>(b),
        b.components.len() == dec32(bytes, 12),
    ensures
        agree(bytes, header_bytes(b), 0, 6),
        agree(bytes, header_bytes(b), 8, 16),
{
    let written = header_bytes(b);
    let n = dec32(bytes, 12);
    lemma_le32_dec32(bytes, 0);
    lemma_le32_dec32(bytes, 8);
    lemma_le32_dec32(bytes, 12);
    let h1 = le32(LGB_MAGIC);
    let h2 = h1 + le16(LGB_VERSION);
    let h3 = h2 + le16(0);
    let h4 = h3 + le32(b.links);
    assert(written == h4 + le32(n));
    assert(dec16(bytes, 4) == LGB_VERSION);
    assert forall|i: int| 0 <= i < 6 implies #[trigger] bytes[i] == written[i] by {
        if i < 4 {
            assert(written[i] == h1[i]);
        } else {
            assert(written[i] == le16(LGB_VERSION)[i - 4]);
        }
    }
    assert forall|i: int| 8 <= i < 16 implies #[trigger] bytes[i] == written[i] by {
        if i < 12 {
            assert(written[i] == le32(b.links)[i - 8]);
        } else {
            assert(written[i] == le32(n)[i - 12]);
        }
    }
}

/// A component that was read, written again at its place.
proof fn lemma_component_rewritten(bytes: Seq<u8>, written: Seq<u8>, at: int, c: ComponentModel)
    requires
        holds(bytes, at, c),
        forall|i: int|
            0 <= i < component_bytes(c).len() ==> #[trigger] component_bytes(c)[i] == written[at
                + i],
    ensures
        same_component(bytes, written, at, component_bytes(c).len() as int),
{
    reveal(holds);
    let e = component_bytes(c);
    let id = dec16(bytes, at);
    let own = c.ty.number();
    assert forall|i: int| at + 4 <= i < at + e.len() implies #[trigger] bytes[i] == written[i] by {
        assert(e[i - at] == bytes[at + (i - at)]);
        assert(e[i - at] == written[at + (i - at)]);
    }
    assert(e[0] == le16(own)[0] && e[1] == le16(own)[1]);
    assert(written[at + 0] == e[0] && written[at + 1] == e[1]);
    if 200 <= id <= 299 && id != 204 {
        assert(own == 200);
    } else {
        assert(id == own);
        assert(bytes[at] == le16(id)[0] && bytes[at + 1] == le16(id)[1]);
    }
}

/// A board reads the same from its own bytes, whatever follows them.
proof fn lemma_tail_is_ignored(bytes: Seq<u8>, tail: Seq<u8>, b: BoardModel, m: int)
    requires
        read_board(bytes) == Ok::<BoardModel, Defect>(b),
        16 + components_bytes(b.components).len() <= m <= bytes.len(),
    ensures
        read_board(bytes.take(m) + tail) == Ok::<BoardModel, Defect>(b),
{
    let n = dec32(bytes, 12);
    let whole = bytes.take(m) + tail;
    assert(whole.take(m) =~= bytes.take(m));
    lemma_components_kept(bytes, m, 16, n as nat);
    lemma_cut_components(whole, m, 16, n as nat);
    lemma_cut_numbers(whole, m, 0);
    lemma_cut_numbers(whole, m, 4);
    lemma_cut_numbers(whole, m, 6);
    lemma_cut_numbers(whole, m, 8);
    lemma_cut_numbers(whole, m, 12);
    lemma_cut_numbers(bytes, m, 0);
    lemma_cut_numbers(bytes, m, 4);
    lemma_cut_numbers(bytes, m, 6);
    lemma_cut_numbers(bytes, m, 8);
    lemma_cut_numbers(bytes, m, 12);
}

/// Writing a board that was read gives the bytes back that it was read from, but for the reserved
/// fields and for user inputs with an id other than their own. Bytes behind those do not matter.
pub proof fn law_rewriting_gives_the_bytes_back(bytes: Seq<u8>, tail: Seq<u8>)
    requires
        read_board(bytes) is Ok,
    ensures
        ({
            let b = read_board(bytes)->Ok_0;
            let written = board_bytes(b);
            &&& written.len() <= bytes.len()
            &&& agree(bytes, written, 0, 6)
            &&& agree(bytes, written, 8, 16)
            &&& forall|k: int|
                0 <= k < b.components.len() ==> same_component(
                    bytes,
                    written,
                    #[trigger] component_at(b, k),
                    component_bytes(b.components[k]).len() as int,
                )
            &&& read_board(bytes.take(written.len() as int) + tail) == Ok::<BoardModel, Defect>(b)
        }),
{
    let b = read_board(bytes)->Ok_0;
    let cs = b.components;
    let written = board_bytes(b);
    let n = dec32(bytes, 12);
    let body = components_bytes(cs);
    lemma_header_length(b);
    assert(read_components(bytes, 16, n as nat) == Ok::<Seq<ComponentModel>, Defect>(cs));
    lemma_read_all_hold(bytes, 16, n as nat, cs);
    lemma_header_rewritten(bytes, b);
    assert(agree(bytes, written, 0, 6)) by {
        assert forall|i: int| 0 <= i < 6 implies #[trigger] bytes[i] == written[i] by {
            assert(written[i] == header_bytes(b)[i]);
        }
    }
    assert(agree(bytes, written, 8, 16)) by {
        assert forall|i: int| 8 <= i < 16 implies #[trigger] bytes[i] == written[i] by {
            assert(written[i] == header_bytes(b)[i]);
        }
    }
    assert forall|k: int| 0 <= k < cs.len() implies same_component(
        bytes,
        written,
        #[trigger] component_at(b, k),
        component_bytes(cs[k]).len() as int,
    ) by {
        let at = component_at(b, k);
        let e = component_bytes(cs[k]);
        lemma_bytes_of(cs, k);
        lemma_read_one_holds(bytes, 16, n as nat, cs, k);
        assert forall|i: int| 0 <= i < e.len() implies #[trigger] e[i] == written[at + i] by {
            assert(e[i] == body[components_bytes(cs.take(k)).len() + i]);
        }
        lemma_component_rewritten(bytes, written, at, cs[k]);
    }
    lemma_tail_is_ignored(bytes, tail, b, written.len() as int);
}

/// The numbers of a list that stands at `at`, each with its lowest byte first.
proof fn lemma_words_stand(b: Seq<u8>, at: int, s: Seq<u32>)
    requires
        stand(b, at, le_words(s)),
    ensures
        forall|i: int|
            0 <= i < s.len() ==> b[at + 4 * i] + 256 * b[at + 4 * i + 1] + 65536 * b[at + 4 * i + 2]
                + 16777216 * b[at + 4 * i + 3] == #[trigger] s[i],
{
    reveal(stand);
    let e = le_words(s);
    assert forall|i: int| 0 <= i < s.len() implies b[at + 4 * i] + 256 * b[at + 4 * i + 1] + 65536
        * b[at + 4 * i + 2] + 16777216 * b[at + 4 * i + 3] == #[trigger] s[i] by {
        let w = le32(s[i]);
        assert(e[4 * i] == w[0] && b[at + 4 * i] == e[4 * i]);
        assert(e[4 * i + 1] == w[1] && b[at + (4 * i + 1)] == e[4 * i + 1]);
        assert(e[4 * i + 2] == w[2] && b[at + (4 * i + 2)] == e[4 * i + 2]);
        assert(e[4 * i + 3] == w[3] && b[at + (4 * i + 3)] == e[4 * i + 3]);
    }
}

proof fn lemma_number_stands(b: Seq<u8>, at: int, v: u32)
    requires
        stand(b, at, le32(v)),
    ensures
        b[at] + 256 * b[at + 1] + 65536 * b[at + 2] + 16777216 * b[at + 3] == v,
{
    lemma_read32(b, at, v);
}

proof fn lemma_short_number_stands(b: Seq<u8>, at: int, v: u16)
    requires
        stand(b, at, le16(v)),
    ensures
        b[at] + 256 * b[at + 1] == v,
{
    lemma_read16(b, at, v);
}

/// The fields of a component that stands at `at`, each with its lowest byte first.
proof fn lemma_component_stands(b: Seq<u8>, at: int, c: ComponentModel)
    requires
        stand(b, at, component_bytes(c)),
        c.inputs.len() <= u32::MAX,
        c.outputs.len() <= u32::MAX,
        c.ops.len() <= u32::MAX,
    ensures
        ({
            let ins = at + 16;
            let outs = ins + 4 * c.inputs.len();
            let ops = outs + 4 * c.outputs.len();
            &&& component_bytes(c).len() == ops + 4 * c.ops.len() - at
            &&& b[at] + 256 * b[at + 1] == c.ty.number()
            &&& b[at + 2] == 0 && b[at + 3] == 0
            &&& b[at + 4] + 256 * b[at + 5] + 65536 * b[at + 6] + 16777216 * b[at + 7]
                == c.inputs.len()
            &&& b[at + 8] + 256 * b[at + 9] + 65536 * b[at + 10] + 16777216 * b[at + 11]
                == c.outputs.len()
            &&& b[at + 12] + 256 * b[at + 13] + 65536 * b[at + 14] + 16777216 * b[at + 15]
                == c.ops.len()
            &&& stand(b, ins, le_words(c.inputs))
            &&& stand(b, outs, le_words(c.outputs))
            &&& stand(b, ops, le_words(c.ops))
        }),
{
    let s1 = le16(c.ty.number());
    let s2 = s1 + le16(0);
    let s3 = s2 + le32(c.inputs.len() as u32);
    let s4 = s3 + le32(c.outputs.len() as u32);
    let s5 = s4 + le32(c.ops.len() as u32);
    let s6 = s5 + le_words(c.inputs);
    let s7 = s6 + le_words(c.outputs);
    lemma_stand_split(b, at, s7, le_words(c.ops));
    lemma_stand_split(b, at, s6, le_words(c.outputs));
    lemma_stand_split(b, at, s5, le_words(c.inputs));
    lemma_stand_split(b, at, s4, le32(c.ops.len() as u32));
    lemma_stand_split(b, at, s3, le32(c.outputs.len() as u32));
    lemma_stand_split(b, at, s2, le32(c.inputs.len() as u32));
    lemma_stand_split(b, at, s1, le16(0));
    lemma_number_stands(b, at + 4, c.inputs.len() as u32);
    lemma_number_stands(b, at + 8, c.outputs.len() as u32);
    lemma_number_stands(b, at + 12, c.ops.len() as u32);
    lemma_short_number_stands(b, at, c.ty.number());
    lemma_short_number_stands(b, at + 2, 0);
}

/// A written board begins with the bytes `31 42 47 4C 01 00 00 00`. The number of its links and that
/// of its components follow, lowest byte first, then the components.
pub proof fn law_header_layout(b: BoardModel)
    requires
        b.components.len() <= u32::MAX,
    ensures
        ({
            let w = board_bytes(b);
            &&& w.len() >= 16
            &&& w.take(8) == seq![0x31u8, 0x42u8, 0x47u8, 0x4Cu8, 1u8, 0u8, 0u8, 0u8]
            &&& w[8] + 256 * w[9] + 65536 * w[10] + 16777216 * w[11] == b.links
            &&& w[12] + 256 * w[13] + 65536 * w[14] + 16777216 * w[15] == b.components.len()
            &&& component_at(b, 0) == 16
            &&& component_at(b, b.components.len() as int) == w.len()
        }),
{
    let w = board_bytes(b);
    lemma_header_length(b);
    assert(b.components.take(0) =~= Seq::empty());
    assert(b.components.take(b.components.len() as int) =~= b.components);
    assert(stand(w, 0, header_bytes(b))) by {
        reveal(stand);
    }
    lemma_read_header(w, b);
    lemma_bytes_of_magic(w);
    assert(w.take(8) =~= seq![0x31u8, 0x42u8, 0x47u8, 0x4Cu8, 1u8, 0u8, 0u8, 0u8]);
}

proof fn lemma_bytes_of_magic(w: Seq<u8>)
    requires
        w.len() >= 16,
        dec32(w, 0) == LGB_MAGIC,
        dec16(w, 4) == LGB_VERSION,
        dec16(w, 6) == 0,
    ensures
        w[0] == 0x31 && w[1] == 0x42 && w[2] == 0x47 && w[3] == 0x4C,
        w[4] == 1 && w[5] == 0 && w[6] == 0 && w[7] == 0,
{
}

/// In a written board a component has its type's number, two zero bytes, the numbers of its inputs,
/// outputs and ops, and these three lists, every number with its lowest byte first. The next
/// component follows at once.
pub proof fn law_component_layout(b: BoardModel, k: int)
    requires
        0 <= k < b.components.len(),
        b.components[k].inputs.len() <= u32::MAX,
        b.components[k].outputs.len() <= u32::MAX,
        b.components[k].ops.len() <= u32::MAX,
    ensures
        ({
            let w = board_bytes(b);
            let c = b.components[k];
            let at = component_at(b, k);
            let ins = at + 16;
            let outs = ins + 4 * c.inputs.len();
            let ops = outs + 4 * c.outputs.len();
            &&& component_at(b, k + 1) == ops + 4 * c.ops.len()
            &&& 16 <= at && component_at(b, k + 1) <= w.len()
            &&& w[at] + 256 * w[at + 1] == c.ty.number()
            &&& w[at + 2] == 0 && w[at + 3] == 0
            &&& w[at + 4] + 256 * w[at + 5] + 65536 * w[at + 6] + 16777216 * w[at + 7]
                == c.inputs.len()
            &&& w[at + 8] + 256 * w[at + 9] + 65536 * w[at + 10] + 16777216 * w[at + 11]
                == c.outputs.len()
            &&& w[at + 12] + 256 * w[at + 13] + 65536 * w[at + 14] + 16777216 * w[at + 15]
                == c.ops.len()
            &&& forall|i: int|
                0 <= i < c.inputs.len() ==> w[ins + 4 * i] + 256 * w[ins + 4 * i + 1] + 65536 * w[ins
                    + 4 * i + 2] + 16777216 * w[ins + 4 * i + 3] == #[trigger] c.inputs[i]
            &&& forall|i: int|
                0 <= i < c.outputs.len() ==> w[outs + 4 * i] + 256 * w[outs + 4 * i + 1] + 65536
                    * w[outs + 4 * i + 2] + 16777216 * w[outs + 4 * i + 3]
                    == #[trigger] c.outputs[i]
            &&& forall|i: int|
                0 <= i < c.ops.len() ==> w[ops + 4 * i] + 256 * w[ops + 4 * i + 1] + 65536 * w[ops
                    + 4 * i + 2] + 16777216 * w[ops + 4 * i + 3] == #[trigger] c.ops[i]
        }),
{
    let cs = b.components;
    let w = board_bytes(b);
    let c = cs[k];
    let e = component_bytes(c);
    let at = component_at(b, k);
    let body = components_bytes(cs);
    lemma_header_length(b);
    lemma_bytes_of(cs, k);
    assert(cs.take(k + 1).drop_last() =~= cs.take(k));
    assert(stand(w, at, e)) by {
        reveal(stand);
        assert forall|i: int| 0 <= i < e.len() implies #[trigger] w[at + i] == e[i] by {
            assert(e[i] == body[components_bytes(cs.take(k)).len() + i]);
        }
    }
    lemma_component_stands(w, at, c);
    lemma_words_stand(w, at + 16, c.inputs);
    lemma_words_stand(w, at + 16 + 4 * c.inputs.len(), c.outputs);
    lemma_words_stand(w, at + 16 + 4 * c.inputs.len() + 4 * c.outputs.len(), c.ops);
}

/// Bytes that do not begin with `31 42 47 4C` are no board, and neither are bytes of a version other
/// than 1.
pub proof fn law_other_files_are_rejected(bytes: Seq<u8>)
    ensures
        bytes.len() < 4 ==> read_board(bytes) == Err::<BoardModel, Defect>(
            Defect::Truncated { need: 4, at: 0, left: bytes.len() },
        ),
        bytes.len() >= 4 && bytes.take(4) != seq![0x31u8, 0x42u8, 0x47u8, 0x4Cu8] ==> (read_board(
            bytes,
        ) matches Err(Defect::Magic(v)) && v == bytes[0] + 256 * bytes[1] + 65536 * bytes[2]
            + 16777216 * bytes[3]),
        bytes.len() >= 6 && bytes.take(4) == seq![0x31u8, 0x42u8, 0x47u8, 0x4Cu8] && (bytes[4] != 1
            || bytes[5] != 0) ==> (read_board(bytes) matches Err(Defect::Version(v)) && v == bytes[4]
            + 256 * bytes[5]),
{
    if bytes.len() >= 4 {
        let v = dec32(bytes, 0);
        assert(v == bytes[0] + 256 * bytes[1] + 65536 * bytes[2] + 16777216 * bytes[3]);
        if v == LGB_MAGIC {
            assert(bytes[0] == 0x31 && bytes[1] == 0x42 && bytes[2] == 0x47 && bytes[3] == 0x4C);
            assert(bytes.take(4) =~= seq![0x31u8, 0x42u8, 0x47u8, 0x4Cu8]);
        } else if bytes.take(4) == seq![0x31u8, 0x42u8, 0x47u8, 0x4Cu8] {
            assert(bytes.take(4)[0] == bytes[0] && bytes.take(4)[1] == bytes[1]);
            assert(bytes.take(4)[2] == bytes[2] && bytes.take(4)[3] == bytes[3]);
        }
    }
}

/// `d`, if it tells of missing bytes, tells of bytes that are missing at the end.
spec fn tells_what_is_missing(b: Seq<u8>, d: Defect) -> bool {
    d matches Defect::Truncated { need, at, left } ==> at + left == b.len() && left < need
}

proof fn lemma_component_missing(b: Seq<u8>, at: int)
    requires
        0 <= at <= b.len(),
    ensures
        match read_component(b, at) {
            Err(d) => tells_what_is_missing(b, d),
            Ok((c, next)) => at <= next <= b.len(),
        },
{
}

proof fn lemma_components_missing(b: Seq<u8>, at: int, n: nat)
    requires
        0 <= at <= b.len(),
    ensures
        read_components(b, at, n) matches Err(d) ==> tells_what_is_missing(b, d),
    decreases n,
{
    if n > 0 {
        lemma_component_missing(b, at);
        if let Ok((c, next)) = read_component(b, at) {
            lemma_components_missing(b, next, (n - 1) as nat);
        }
    }
}

/// Where bytes are said to be missing, they are: those from the place named on are fewer than needed,
/// and as many as said.
pub proof fn law_missing_bytes_are_counted(b: Seq<u8>)
    ensures
        read_board(b) matches Err(Defect::Truncated { need, at, left }) ==> at + left == b.len()
            && left < need,
{
    if b.len() >= 16 {
        lemma_components_missing(b, 16, dec32(b, 12) as nat);
    }
}

/// The bytes of a list of numbers, four for each with the lowest first.
pub proof fn lemma_list_bytes(s: Seq<u32>)
    ensures
        le_words(s).len() == 4 * s.len(),
        forall|i: int|
            0 <= i < s.len() ==> le_words(s)[4 * i] + 256 * le_words(s)[4 * i + 1] + 65536 * le_words(
                s,
            )[4 * i + 2] + 16777216 * le_words(s)[4 * i + 3] == #[trigger] s[i],
{
    assert(stand(le_words(s), 0, le_words(s))) by {
        reveal(stand);
    }
    lemma_words_stand(le_words(s), 0, s);
}

/// A component whose type number stands for no type is reported as such, whatever follows the number.
pub proof fn law_unknown_types_are_reported(b: Seq<u8>, at: int)
    requires
        0 <= at,
        at + 4 <= b.len(),
    ensures
        ({
            let id = b[at] + 256 * b[at + 1];
            CompType::of_number(id as u16) is None ==> (read_component(b, at) matches Err(
                Defect::UnknownType(v),
            ) && v == id)
        }),
{
}

} // verus!
