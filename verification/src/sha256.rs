//! SHA-256 digests of CBOR-encoded values.
use crate::cbor::{
    array_head, enc_uint, flatten, push_array_head, push_uint, starts_with_at, Encodable,
};
use crate::decode::{lemma_list_extend, lemma_list_item, lemma_starts_concat, parse_head, parse_uint};
use vstd::prelude::*;

verus! {

/// What `sha2::Sha256::digest` returns for `data`.
pub uninterp spec fn sha256_digest(data: Seq<u8>) -> [u8; 32];

/// Calls `sha2::Sha256::digest`: trusted to return the SHA-256 digest of `data`,
/// which the contract only names.
#[verifier::external_body]
fn sha256(data: &[u8]) -> (r: [u8; 32])
    ensures
        r == sha256_digest(data@),
{
    <sha2::Sha256 as sha2::Digest>::digest(data).into()
}

#[derive(Clone, Copy, Debug, Eq, Hash)]
pub struct Hash(pub [u8; 32]);

impl Default for Hash {
    /// The zero hash.
    fn default() -> (r: Hash)
        ensures
            r == zero_hash(),
    {
        Hash::zero()
    }
}

impl PartialEq for Hash {
    fn eq(&self, other: &Hash) -> (r: bool) {
        same_bytes(&self.0, &other.0)
    }
}

impl vstd::std_specs::cmp::PartialEqSpecImpl for Hash {
    open spec fn obeys_eq_spec() -> bool {
        true
    }

    open spec fn eq_spec(&self, other: &Hash) -> bool {
        *self == *other
    }
}

/// Byte-wise equality of two byte arrays of one length.
pub fn same_bytes<const N: usize>(a: &[u8; N], b: &[u8; N]) -> (r: bool)
    ensures
        r == (*a == *b),
{
    broadcast use vstd::array::group_array_axioms;
    let mut i: usize = 0;
    while i < N
        invariant
            i <= N,
            forall|j: int| 0 <= j < i ==> a[j] == b[j],
        decreases N - i,
    {
        if a[i] != b[i] {
            return false;
        }
        i = i + 1;
    }
    assert(*a =~= *b);
    true
}

/// The all-zero hash, which the first block points back to.
pub open spec fn zero_hash() -> Hash {
    Hash(vstd::array::spec_array_fill_for_copy_type::<u8, 32>(0u8))
}

/// The digest of a value's encoding.
pub open spec fn digest_of(encoding: Seq<u8>) -> Hash {
    Hash(sha256_digest(encoding))
}

/// `a <= b` in lexicographic order of equal-length byte strings.
pub open spec fn lex_le(a: Seq<u8>, b: Seq<u8>) -> bool {
    ||| forall|j: int| 0 <= j < a.len() ==> a[j] == b[j]
    ||| exists|i: int|
        0 <= i < a.len() && (forall|j: int| 0 <= j < i ==> a[j] == b[j]) && #[trigger] a[i] < b[i]
}

/// The encodings of the first `n` bytes of `a`, each as an unsigned integer.
pub open spec fn uint_parts(a: [u8; 32], n: nat) -> Seq<Seq<u8>> {
    Seq::new(n, |i: int| enc_uint(a[i] as u64))
}

/// The encoding of 32 bytes: an array of 32 unsigned integers.
pub open spec fn enc_hash(h: Hash) -> Seq<u8> {
    array_head(32) + flatten(uint_parts(h.0, 32))
}

impl Encodable for Hash {
    open spec fn spec_cbor(&self) -> Seq<u8> {
        enc_hash(*self)
    }

    fn encode(&self, out: &mut Vec<u8>) {
        push_array_head(out, 32);
        let ghost start = out@;
        let mut i: usize = 0;
        while i < 32
            invariant
                i <= 32,
                out@ == start + flatten(uint_parts(self.0, i as nat)),
            decreases 32 - i,
        {
            proof {
                crate::cbor::lemma_flatten_push(
                    uint_parts(self.0, i as nat),
                    enc_uint(self.0[i as int] as u64),
                );
                assert(uint_parts(self.0, i as nat).push(enc_uint(self.0[i as int] as u64))
                    =~= uint_parts(self.0, (i + 1) as nat));
            }
            push_uint(out, self.0[i] as u64);
            i = i + 1;
        }
    }
}

impl Hash {
    /// The SHA-256 digest of `data`'s encoding.
    pub fn digest<T: Encodable + ?Sized>(data: &T) -> (r: Hash)
        ensures
            r == digest_of(data.spec_cbor()),
    {
        let mut serialized: Vec<u8> = Vec::new();
        data.encode(&mut serialized);
        assert(serialized@ =~= data.spec_cbor());
        Hash(sha256(serialized.as_slice()))
    }

    /// `digest`, under the name the chain's types call it by.
    pub fn hash<T: Encodable + ?Sized>(data: &T) -> (r: Hash)
        ensures
            r == digest_of(data.spec_cbor()),
    {
        Hash::digest(data)
    }

    pub fn from_bytes(bytes: [u8; 32]) -> (r: Hash)
        ensures
            r.0 == bytes,
    {
        Hash(bytes)
    }

    pub fn zero() -> (r: Hash)
        ensures
            r == zero_hash(),
    {
        Hash(vstd::array::array_fill_for_copy_types::<u8, 32>(0u8))
    }

    pub fn bytes(&self) -> (r: [u8; 32])
        ensures
            r == self.0,
    {
        self.0
    }

    /// Proof of work: the hash, read as a big-endian number, is at most `target`.
    pub fn matches_target(&self, target: Hash) -> (r: bool)
        ensures
            r == lex_le(self.0@, target.0@),
    {
        let mut i: usize = 0;
        while i < 32
            invariant
                i <= 32,
                forall|j: int| 0 <= j < i ==> self.0[j] == target.0[j],
            decreases 32 - i,
        {
            if self.0[i] < target.0[i] {
                assert(self.0@[i as int] < target.0@[i as int]);
                return true;
            }
            if self.0[i] > target.0[i] {
                proof {
                    assert forall|k: int|
                        0 <= k < 32 && (forall|j: int| 0 <= j < k ==> self.0@[j] == target.0@[j])
                            implies !(#[trigger] self.0@[k] < target.0@[k]) by {
                        if k > i {
                            assert(self.0@[i as int] == target.0@[i as int]);
                        }
                    }
                }
                return false;
            }
            i = i + 1;
        }
        true
    }
}

/// Proof of work compares hashes as big-endian numbers: at the first byte where a
/// hash and a target differ, the hash meets the target exactly when its byte is the
/// smaller; a hash equal to the target meets it.
pub proof fn law_target_order_is_big_endian(a: Hash, b: Hash, i: int)
    requires
        0 <= i < 32,
        forall|j: int| 0 <= j < i ==> a.0[j] == b.0[j],
    ensures
        a.0[i] < b.0[i] ==> lex_le(a.0@, b.0@),
        a.0[i] > b.0[i] ==> !lex_le(a.0@, b.0@),
        a == b ==> lex_le(a.0@, b.0@),
{
    if a.0[i] < b.0[i] {
        assert(a.0@[i] < b.0@[i]);
    }
    if a.0[i] > b.0[i] {
        assert forall|k: int|
            0 <= k < 32 && (forall|j: int| 0 <= j < k ==> a.0@[j] == b.0@[j]) implies !(#[trigger] a.0@[k]
            < b.0@[k]) by {
            if k > i {
                assert(a.0@[i] == b.0@[i]);
            }
        }
        assert(a.0@[i] != b.0@[i]);
    }
}

/// A hash whose first byte is above the target's never meets it, whatever follows.
pub proof fn law_first_byte_above_target_fails(a: Hash, b: Hash)
    requires
        a.0[0] > b.0[0],
    ensures
        !lex_le(a.0@, b.0@),
{
    law_target_order_is_big_endian(a, b, 0);
}

/// A hash written as an array of 32 small unsigned integers.
pub fn parse_hash(data: &[u8], pos: usize) -> (r: Option<(Hash, usize)>)
    ensures
        r matches Some((h, end)) ==> starts_with_at(data@, pos as int, enc_hash(h)) && end == pos
            + enc_hash(h).len(),
        forall|h: Hash| #[trigger]
            starts_with_at(data@, pos as int, enc_hash(h)) ==> r == Some(
                (h, (pos + enc_hash(h).len()) as usize),
            ),
{
    let hd = parse_head(data, pos);
    proof {
        assert forall|h: Hash| #[trigger] starts_with_at(data@, pos as int, enc_hash(h)) implies hd
            == Some((4u8, 32u64, (pos + array_head(32).len()) as usize)) by {
            lemma_starts_concat(data@, pos as int, array_head(32), flatten(uint_parts(h.0, 32)));
        }
    }
    let mut p: usize = match hd {
        Some((major, n, end)) => {
            if major != 4 || n != 32 {
                return None;
            }
            end
        },
        None => {
            return None;
        },
    };
    let mut a = vstd::array::array_fill_for_copy_types::<u8, 32>(0u8);
    let mut i: usize = 0;
    proof {
        assert(uint_parts(a, 0) =~= Seq::<Seq<u8>>::empty());
        assert(array_head(32) + flatten(uint_parts(a, 0)) =~= array_head(32));
    }
    while i < 32
        invariant
            i <= 32,
            starts_with_at(data@, pos as int, array_head(32) + flatten(uint_parts(a, i as nat))),
            p == pos + (array_head(32) + flatten(uint_parts(a, i as nat))).len(),
            forall|h: Hash| #[trigger]
                starts_with_at(data@, pos as int, enc_hash(h)) ==> forall|k: int|
                    0 <= k < i ==> a[k] == h.0[k],
        decreases 32 - i,
    {
        let ghost before = a;
        let got = parse_uint(data, p);
        proof {
            assert forall|h: Hash| #[trigger] starts_with_at(data@, pos as int, enc_hash(h)) implies got
                == Some((h.0[i as int] as u64, (p + enc_uint(h.0[i as int] as u64).len()) as usize)) by {
                lemma_list_item(data@, pos as int, array_head(32), uint_parts(h.0, 32), i as int);
                assert(uint_parts(h.0, 32).take(i as int) =~= uint_parts(a, i as nat));
            }
        }
        match got {
            Some((v, end)) => {
                if v >= 256 {
                    return None;
                }
                a[i] = v as u8;
                proof {
                    assert(uint_parts(a, i as nat) =~= uint_parts(before, i as nat));
                    assert(uint_parts(a, (i + 1) as nat) =~= uint_parts(before, i as nat).push(
                        enc_uint(v),
                    ));
                    lemma_list_extend(data@, pos as int, array_head(32), uint_parts(before, i as nat), enc_uint(v));
                }
                p = end;
            },
            None => {
                return None;
            },
        }
        i = i + 1;
    }
    proof {
        assert forall|h: Hash| #[trigger] starts_with_at(data@, pos as int, enc_hash(h)) implies h
            == Hash(a) by {
            assert(h.0 =~= a);
        }
    }
    Some((Hash(a), p))
}

} // verus!
