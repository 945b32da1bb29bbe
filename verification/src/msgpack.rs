//! The MessagePack elements that the wire frames and the table snapshots
//! are made of: strings, array headers and map headers.
//!
//! Writers always produce the shortest header that can carry a length.
//! Readers accept every header form of the right family, whatever the
//! length it announces.

use vstd::prelude::*;
use vstd::slice::{slice_subrange, slice_to_vec};
use vstd::utf8::{decode_utf8, encode_utf8, valid_utf8};

verus! {

/// The largest length that a header can announce.
pub const MAX_LEN: usize = 0xffff_ffff;

/// The three families of headers that carry a length.
#[derive(Clone, Copy, Debug, PartialEq, Eq, Structural)]
pub enum Kind {
    Str,
    Array,
    Assoc,
}

impl Kind {
    /// The first byte of the one-byte form, for length zero.
    pub open spec fn fix_base(self) -> u8 {
        match self {
            Kind::Str => 0xa0,
            Kind::Array => 0x90,
            Kind::Assoc => 0x80,
        }
    }

    /// Lengths below this limit fit in the one-byte form.
    pub open spec fn fix_limit(self) -> nat {
        match self {
            Kind::Str => 32,
            Kind::Array => 16,
            Kind::Assoc => 16,
        }
    }

    /// The marker byte before a 16-bit length.
    pub open spec fn marker16(self) -> u8 {
        match self {
            Kind::Str => 0xda,
            Kind::Array => 0xdc,
            Kind::Assoc => 0xde,
        }
    }

    /// The marker byte before a 32-bit length.
    pub open spec fn marker32(self) -> u8 {
        match self {
            Kind::Str => 0xdb,
            Kind::Array => 0xdd,
            Kind::Assoc => 0xdf,
        }
    }
}

/// The marker byte before an 8-bit length; only strings have this form.
pub const STR8: u8 = 0xd9;

/// The two bytes of `n`, most significant first.
pub open spec fn be16(n: nat) -> Seq<u8> {
    seq![((n / 0x100) % 0x100) as u8, (n % 0x100) as u8]
}

/// The four bytes of `n`, most significant first.
pub open spec fn be32(n: nat) -> Seq<u8> {
    seq![
        ((n / 0x100_0000) % 0x100) as u8,
        ((n / 0x1_0000) % 0x100) as u8,
        ((n / 0x100) % 0x100) as u8,
        (n % 0x100) as u8,
    ]
}

/// The number that `width` bytes of `b` spell, most significant first.
pub open spec fn be_value(b: Seq<u8>, width: nat) -> nat
    decreases width,
{
    if width == 0 {
        0
    } else {
        be_value(b, (width - 1) as nat) * 0x100 + b[width - 1] as nat
    }
}

/// The shortest header of family `kind` that announces `len`.
pub open spec fn header(kind: Kind, len: nat) -> Seq<u8>
    recommends
        len <= MAX_LEN,
{
    if len < kind.fix_limit() {
        seq![(kind.fix_base() + len) as u8]
    } else if kind == Kind::Str && len < 0x100 {
        seq![STR8, len as u8]
    } else if len < 0x1_0000 {
        seq![kind.marker16()] + be16(len)
    } else {
        seq![kind.marker32()] + be32(len)
    }
}

/// What a header of family `kind` at the front of `b` says: the length it
/// announces and the number of bytes it takes. `None` where `b` does not
/// begin with a whole header of that family.
pub open spec fn announced(b: Seq<u8>, kind: Kind) -> Option<(nat, nat)> {
    if b.len() == 0 {
        None
    } else if kind.fix_base() <= b[0] < kind.fix_base() + kind.fix_limit() {
        Some(((b[0] - kind.fix_base()) as nat, 1))
    } else if kind == Kind::Str && b[0] == STR8 && b.len() >= 2 {
        Some((b[1] as nat, 2))
    } else if b[0] == kind.marker16() && b.len() >= 3 {
        Some((be_value(b.subrange(1, 3), 2), 3))
    } else if b[0] == kind.marker32() && b.len() >= 5 {
        Some((be_value(b.subrange(1, 5), 4), 5))
    } else {
        None
    }
}

/// A string element: its header, then its bytes.
pub open spec fn packed_str(bytes: Seq<u8>) -> Seq<u8>
    recommends
        bytes.len() <= MAX_LEN,
{
    header(Kind::Str, bytes.len()) + bytes
}

/// The string element at the front of `b`: its bytes and the number of
/// bytes the whole element takes. `None` where `b` does not begin with a
/// whole string element.
pub open spec fn parse_str(b: Seq<u8>) -> Option<(Seq<u8>, nat)> {
    match announced(b, Kind::Str) {
        Some((len, size)) => if size + len <= b.len() {
            Some((b.subrange(size as int, (size + len) as int), size + len))
        } else {
            None
        },
        None => None,
    }
}

/// A string element that holds `text` in UTF-8.
pub open spec fn packed_text(text: Seq<char>) -> Seq<u8>
    recommends
        encode_utf8(text).len() <= MAX_LEN,
{
    packed_str(encode_utf8(text))
}

/// The text of the string element at the front of `b` and the number of
/// bytes the element takes. `None` where there is no whole string element
/// or its bytes are not UTF-8.
pub open spec fn parse_text(b: Seq<u8>) -> Option<(Seq<char>, nat)> {
    match parse_str(b) {
        Some((bytes, size)) => if valid_utf8(bytes) {
            Some((decode_utf8(bytes), size))
        } else {
            None
        },
        None => None,
    }
}

/// The bytes of a header are never empty and never more than five.
pub proof fn lemma_header_len(kind: Kind, len: nat)
    ensures
        1 <= header(kind, len).len() <= 5,
        len < kind.fix_limit() ==> header(kind, len).len() == 1,
{
}

/// Reading back a header that was written gives the length that was
/// written, and the rest of the input is left untouched.
pub proof fn lemma_announced_header(kind: Kind, len: nat, rest: Seq<u8>)
    requires
        len <= MAX_LEN,
    ensures
        announced(header(kind, len) + rest, kind) == Some((len, header(kind, len).len())),
{
    let h = header(kind, len);
    let b = h + rest;
    assert(b[0] == h[0]);
    if len < kind.fix_limit() {
    } else if kind == Kind::Str && len < 0x100 {
        assert(b[1] == h[1]);
    } else if len < 0x1_0000 {
        assert(b.subrange(1, 3) =~= be16(len));
        reveal_with_fuel(be_value, 3);
    } else {
        assert(b.subrange(1, 5) =~= be32(len));
        reveal_with_fuel(be_value, 5);
    }
}

/// Reading back a string element that was written gives its bytes.
pub proof fn lemma_parse_packed_str(bytes: Seq<u8>, rest: Seq<u8>)
    requires
        bytes.len() <= MAX_LEN,
    ensures
        parse_str(packed_str(bytes) + rest) == Some((bytes, packed_str(bytes).len())),
{
    let h = header(Kind::Str, bytes.len());
    let b = packed_str(bytes) + rest;
    assert(b =~= h + (bytes + rest));
    lemma_announced_header(Kind::Str, bytes.len(), bytes + rest);
    assert(b.subrange(h.len() as int, (h.len() + bytes.len()) as int) =~= bytes);
}

/// Reading back a text that was written gives the text.
pub proof fn lemma_parse_packed_text(text: Seq<char>, rest: Seq<u8>)
    requires
        encode_utf8(text).len() <= MAX_LEN,
    ensures
        parse_text(packed_text(text) + rest) == Some((text, packed_text(text).len())),
{
    lemma_parse_packed_str(encode_utf8(text), rest);
    vstd::utf8::encode_utf8_valid_utf8(text);
    vstd::utf8::encode_utf8_decode_utf8(text);
}

/// The text that `bytes` spell in UTF-8, or `None` where they are not
/// UTF-8.
///
/// Trusted: calls `String::from_utf8`, which std documents to fail
/// exactly on input that is not UTF-8 and otherwise to give the string
/// whose bytes are the input.
#[verifier::external_body]
fn text_from_utf8(bytes: Vec<u8>) -> (r: Option<String>)
    ensures
        r is Some <==> valid_utf8(bytes@),
        r matches Some(s) ==> encode_utf8(s@) == bytes@,
{
    String::from_utf8(bytes).ok()
}

/// Appends the shortest header of family `kind` that announces `len`.
pub fn put_header(out: &mut Vec<u8>, kind: Kind, len: usize)
    requires
        len <= MAX_LEN,
    ensures
        final(out)@ == old(out)@ + header(kind, len as nat),
{
    let (base, limit, mark16, mark32): (u8, usize, u8, u8) = match kind {
        Kind::Str => (0xa0, 32, 0xda, 0xdb),
        Kind::Array => (0x90, 16, 0xdc, 0xdd),
        Kind::Assoc => (0x80, 16, 0xde, 0xdf),
    };
    let ghost before = out@;
    if len < limit {
        out.push(base + len as u8);
    } else if matches!(kind, Kind::Str) && len < 0x100 {
        out.push(STR8);
        out.push(len as u8);
    } else if len < 0x1_0000 {
        out.push(mark16);
        out.push((len / 0x100 % 0x100) as u8);
        out.push((len % 0x100) as u8);
    } else {
        out.push(mark32);
        out.push((len / 0x100_0000 % 0x100) as u8);
        out.push((len / 0x1_0000 % 0x100) as u8);
        out.push((len / 0x100 % 0x100) as u8);
        out.push((len % 0x100) as u8);
    }
    assert(out@ =~= before + header(kind, len as nat));
}

/// Appends a string element that holds `text`.
pub fn put_text(out: &mut Vec<u8>, text: &str)
    requires
        encode_utf8(text@).len() <= MAX_LEN,
    ensures
        final(out)@ == old(out)@ + packed_text(text@),
{
    let ghost before = out@;
    let bytes = text.as_bytes();
    put_header(out, Kind::Str, bytes.len());
    out.extend_from_slice(bytes);
    assert(out@ =~= before + packed_text(text@));
}

/// Reads the header of family `kind` that starts at `pos`: the length it
/// announces and the position just behind it.
pub fn take_header(b: &[u8], pos: usize, kind: Kind) -> (r: Option<(usize, usize)>)
    requires
        pos <= b@.len(),
    ensures
        match announced(b@.skip(pos as int), kind) {
            Some((len, size)) => r matches Some((l, next)) && l == len && next == pos + size
                && len <= MAX_LEN && next <= b@.len(),
            None => r is None,
        },
{
    let (base, limit, mark16, mark32): (u8, u8, u8, u8) = match kind {
        Kind::Str => (0xa0, 32, 0xda, 0xdb),
        Kind::Array => (0x90, 16, 0xdc, 0xdd),
        Kind::Assoc => (0x80, 16, 0xde, 0xdf),
    };
    let ghost rest = b@.skip(pos as int);
    let avail: usize = b.len() - pos;
    if avail == 0 {
        return None;
    }
    let first: u8 = b[pos];
    assert(rest[0] == first);
    if base <= first && first - base < limit {
        Some(((first - base) as usize, pos + 1))
    } else if matches!(kind, Kind::Str) && first == STR8 && avail >= 2 {
        assert(rest[1] == b@[pos + 1]);
        Some((b[pos + 1] as usize, pos + 2))
    } else if first == mark16 && avail >= 3 {
        proof {
            reveal_with_fuel(be_value, 3);
            assert(rest.subrange(1, 3)[0] == b@[pos + 1]);
            assert(rest.subrange(1, 3)[1] == b@[pos + 2]);
        }
        let len: usize = b[pos + 1] as usize * 0x100 + b[pos + 2] as usize;
        Some((len, pos + 3))
    } else if first == mark32 && avail >= 5 {
        proof {
            reveal_with_fuel(be_value, 5);
            assert(rest.subrange(1, 5)[0] == b@[pos + 1]);
            assert(rest.subrange(1, 5)[1] == b@[pos + 2]);
            assert(rest.subrange(1, 5)[2] == b@[pos + 3]);
            assert(rest.subrange(1, 5)[3] == b@[pos + 4]);
        }
        let len: usize = ((b[pos + 1] as usize * 0x100 + b[pos + 2] as usize) * 0x100 + b[pos
            + 3] as usize) * 0x100 + b[pos + 4] as usize;
        Some((len, pos + 5))
    } else {
        None
    }
}

/// Reads the string element that starts at `pos`: where its bytes begin
/// and where they end, which is where the next element begins.
pub fn take_str(b: &[u8], pos: usize) -> (r: Option<(usize, usize)>)
    requires
        pos <= b@.len(),
    ensures
        match parse_str(b@.skip(pos as int)) {
            Some((bytes, size)) => r matches Some((start, end)) && pos <= start <= end
                <= b@.len() && end == pos + size && b@.subrange(start as int, end as int)
                == bytes,
            None => r is None,
        },
{
    match take_header(b, pos, Kind::Str) {
        Some((len, start)) => {
            if len <= b.len() - start {
                let end: usize = start + len;
                assert(b@.skip(pos as int).subrange(start - pos, end - pos) =~= b@.subrange(
                    start as int,
                    end as int,
                ));
                Some((start, end))
            } else {
                None
            }
        },
        None => None,
    }
}

/// Reads the text of the string element that starts at `pos`, and the
/// position just behind the element.
pub fn take_text(b: &[u8], pos: usize) -> (r: Option<(String, usize)>)
    requires
        pos <= b@.len(),
    ensures
        match parse_text(b@.skip(pos as int)) {
            Some((text, size)) => r matches Some((s, next)) && s@ == text && next == pos + size
                && next <= b@.len(),
            None => r is None,
        },
{
    match take_str(b, pos) {
        Some((start, end)) => {
            let bytes = slice_to_vec(slice_subrange(b, start, end));
            match text_from_utf8(bytes) {
                Some(s) => {
                    proof {
                        vstd::utf8::encode_utf8_decode_utf8(s@);
                    }
                    Some((s, end))
                },
                None => None,
            }
        },
        None => None,
    }
}

/// Whether two texts are the same, decided on their bytes.
pub fn same_text(a: &str, b: &str) -> (r: bool)
    ensures
        r == (a@ == b@),
{
    let x = a.as_bytes();
    let y = b.as_bytes();
    if x.len() != y.len() {
        return false;
    }
    let mut i: usize = 0;
    while i < x.len()
        invariant
            i <= x@.len(),
            x@.len() == y@.len(),
            x@ == encode_utf8(a@),
            y@ == encode_utf8(b@),
            forall|j: int| 0 <= j < i ==> x@[j] == y@[j],
        decreases x@.len() - i,
    {
        if x[i] != y[i] {
            return false;
        }
        i = i + 1;
    }
    proof {
        assert(x@ =~= y@);
        vstd::utf8::encode_utf8_decode_utf8(a@);
        vstd::utf8::encode_utf8_decode_utf8(b@);
    }
    true
}

} // verus!
