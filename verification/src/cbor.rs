//! The CBOR encoding that the chain hashes, stores and sends: definite
//! lengths, shortest heads, structs as maps keyed by their field names.
use vstd::prelude::*;
use vstd::string::StringSliceAdditionalSpecFns;

verus! {

pub const MAJOR_UINT: u8 = 0;
pub const MAJOR_NINT: u8 = 1;
pub const MAJOR_BYTES: u8 = 2;
pub const MAJOR_TEXT: u8 = 3;
pub const MAJOR_ARRAY: u8 = 4;
pub const MAJOR_MAP: u8 = 5;

/// `k` big-endian bytes of `n` (the low `8 * k` bits).
pub open spec fn be_bytes(n: nat, k: nat) -> Seq<u8>
    decreases k,
{
    if k == 0 {
        seq![]
    } else {
        be_bytes(n / 256, (k - 1) as nat).push((n % 256) as u8)
    }
}

/// The value of a big-endian byte string.
pub open spec fn be_value(s: Seq<u8>) -> nat
    decreases s.len(),
{
    if s.len() == 0 {
        0
    } else {
        (be_value(s.drop_last()) * 256 + s.last()) as nat
    }
}

/// The shortest head of a data item of major type `major` and argument `n`.
pub open spec fn head(major: u8, n: u64) -> Seq<u8> {
    let m = major * 32;
    if n <= 23 {
        seq![(m + n) as u8]
    } else if n <= 0xff {
        seq![(m + 24) as u8, n as u8]
    } else if n <= 0xffff {
        seq![(m + 25) as u8] + be_bytes(n as nat, 2)
    } else if n <= 0xffff_ffff {
        seq![(m + 26) as u8] + be_bytes(n as nat, 4)
    } else {
        seq![(m + 27) as u8] + be_bytes(n as nat, 8)
    }
}

pub open spec fn enc_uint(n: u64) -> Seq<u8> {
    head(MAJOR_UINT, n)
}

/// A signed integer: non-negative values as unsigned, negative `v` with argument `-1 - v`.
pub open spec fn enc_int(v: int) -> Seq<u8> {
    if v >= 0 {
        head(MAJOR_UINT, v as u64)
    } else {
        head(MAJOR_NINT, (-1 - v) as u64)
    }
}

pub open spec fn enc_bytes(b: Seq<u8>) -> Seq<u8> {
    head(MAJOR_BYTES, b.len() as u64) + b
}

/// A text string given by its UTF-8 bytes.
pub open spec fn enc_text(t: Seq<u8>) -> Seq<u8> {
    head(MAJOR_TEXT, t.len() as u64) + t
}

pub open spec fn enc_bool(b: bool) -> Seq<u8> {
    if b {
        seq![0xf5u8]
    } else {
        seq![0xf4u8]
    }
}

pub open spec fn array_head(len: nat) -> Seq<u8> {
    head(MAJOR_ARRAY, len as u64)
}

pub open spec fn map_head(len: nat) -> Seq<u8> {
    head(MAJOR_MAP, len as u64)
}

/// The concatenation of a sequence of encodings.
pub open spec fn flatten(parts: Seq<Seq<u8>>) -> Seq<u8>
    decreases parts.len(),
{
    if parts.len() == 0 {
        seq![]
    } else {
        flatten(parts.drop_last()) + parts.last()
    }
}

/// The UTF-8 bytes of an ASCII field name.
pub open spec fn ascii(s: &str) -> Seq<u8> {
    s.spec_bytes()
}

/// A struct field: its name as text, then its value.
pub open spec fn enc_field(name: Seq<u8>, value: Seq<u8>) -> Seq<u8> {
    enc_text(name) + value
}

/// A data item whose encoding starts at `pos`: `s[pos..pos + e.len()] == e`.
pub open spec fn starts_with_at(s: Seq<u8>, pos: int, e: Seq<u8>) -> bool {
    0 <= pos && pos + e.len() <= s.len() && s.subrange(pos, pos + e.len()) == e
}

pub proof fn lemma_flatten_push(parts: Seq<Seq<u8>>, p: Seq<u8>)
    ensures
        flatten(parts.push(p)) == flatten(parts) + p,
{
    assert(parts.push(p).drop_last() =~= parts);
}

/// Appending five pieces one by one appends their concatenation.
pub proof fn lemma_append5(s: Seq<u8>, a: Seq<u8>, b: Seq<u8>, c: Seq<u8>, d: Seq<u8>, e: Seq<u8>)
    ensures
        s + a + b + c + d + e == s + (a + b + c + d + e),
{
    assert(s + a + b + c + d + e =~= s + (a + b + c + d + e));
}

/// Appends `be_bytes(n, k)`.
pub fn push_be(out: &mut Vec<u8>, n: u64, k: usize)
    requires
        k <= 8,
    ensures
        final(out)@ == old(out)@ + be_bytes(n as nat, k as nat),
    decreases k,
{
    if k > 0 {
        push_be(out, n / 256, k - 1);
        out.push((n % 256) as u8);
        proof {
            assert(old(out)@ + be_bytes(n as nat, k as nat) =~= old(out)@ + be_bytes(
                (n / 256) as nat,
                (k - 1) as nat,
            ) + seq![(n % 256) as u8]);
        }
    }
}

/// Appends `head(major, n)`.
pub fn push_head(out: &mut Vec<u8>, major: u8, n: u64)
    requires
        major < 8,
    ensures
        final(out)@ == old(out)@ + head(major, n),
{
    let m: u8 = major * 32;
    if n <= 23 {
        out.push(m + n as u8);
        assert(final(out)@ =~= old(out)@ + head(major, n));
    } else if n <= 0xff {
        out.push(m + 24);
        out.push(n as u8);
        assert(final(out)@ =~= old(out)@ + head(major, n));
    } else if n <= 0xffff {
        out.push(m + 25);
        push_be(out, n, 2);
        assert(final(out)@ =~= old(out)@ + head(major, n));
    } else if n <= 0xffff_ffff {
        out.push(m + 26);
        push_be(out, n, 4);
        assert(final(out)@ =~= old(out)@ + head(major, n));
    } else {
        out.push(m + 27);
        push_be(out, n, 8);
        assert(final(out)@ =~= old(out)@ + head(major, n));
    }
}

/// Appends the bytes of `data`.
pub fn push_all(out: &mut Vec<u8>, data: &[u8])
    ensures
        final(out)@ == old(out)@ + data@,
{
    let mut i: usize = 0;
    while i < data.len()
        invariant
            i <= data.len(),
            out@ == old(out)@ + data@.subrange(0, i as int),
        decreases data.len() - i,
    {
        out.push(data[i]);
        i = i + 1;
        assert(out@ =~= old(out)@ + data@.subrange(0, i as int));
    }
    assert(data@.subrange(0, data@.len() as int) =~= data@);
}

pub fn push_uint(out: &mut Vec<u8>, n: u64)
    ensures
        final(out)@ == old(out)@ + enc_uint(n),
{
    push_head(out, MAJOR_UINT, n);
}

pub fn push_i64(out: &mut Vec<u8>, v: i64)
    ensures
        final(out)@ == old(out)@ + enc_int(v as int),
{
    if v >= 0 {
        push_head(out, MAJOR_UINT, v as u64);
    } else {
        let a: i64 = -1 - v;
        push_head(out, MAJOR_NINT, a as u64);
    }
}

pub fn push_bytes(out: &mut Vec<u8>, data: &[u8])
    ensures
        final(out)@ == old(out)@ + enc_bytes(data@),
{
    push_head(out, MAJOR_BYTES, data.len() as u64);
    push_all(out, data);
    assert(final(out)@ =~= old(out)@ + enc_bytes(data@));
}

pub fn push_text(out: &mut Vec<u8>, text: &[u8])
    ensures
        final(out)@ == old(out)@ + enc_text(text@),
{
    push_head(out, MAJOR_TEXT, text.len() as u64);
    push_all(out, text);
    assert(final(out)@ =~= old(out)@ + enc_text(text@));
}

pub fn push_field_name(out: &mut Vec<u8>, name: &str)
    ensures
        final(out)@ == old(out)@ + enc_text(ascii(name)),
{
    push_text(out, name.as_bytes());
}

pub fn push_bool(out: &mut Vec<u8>, b: bool)
    ensures
        final(out)@ == old(out)@ + enc_bool(b),
{
    if b {
        out.push(0xf5);
    } else {
        out.push(0xf4);
    }
    assert(final(out)@ =~= old(out)@ + enc_bool(b));
}

pub fn push_array_head(out: &mut Vec<u8>, len: usize)
    ensures
        final(out)@ == old(out)@ + array_head(len as nat),
{
    push_head(out, MAJOR_ARRAY, len as u64);
}

pub fn push_map_head(out: &mut Vec<u8>, len: usize)
    ensures
        final(out)@ == old(out)@ + map_head(len as nat),
{
    push_head(out, MAJOR_MAP, len as u64);
}

/// A value with a CBOR encoding; what a hash of it is taken over.
pub trait Encodable {
    spec fn spec_cbor(&self) -> Seq<u8>;

    fn encode(&self, out: &mut Vec<u8>)
        ensures
            final(out)@ == old(out)@ + self.spec_cbor(),
    ;
}

/// A string slice is a text item.
impl<'a> Encodable for &'a str {
    open spec fn spec_cbor(&self) -> Seq<u8> {
        enc_text(ascii(*self))
    }

    fn encode(&self, out: &mut Vec<u8>) {
        push_text(out, self.as_bytes());
    }
}

} // verus!
