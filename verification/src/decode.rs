//! Reading back what `cbor` writes. Each reader takes the bytes and a position,
//! and gives the value whose encoding starts there with the position after it;
//! only the shortest heads are accepted, so each value has one encoding.
use crate::cbor::{
    be_bytes, be_value, enc_bool, enc_bytes, enc_int, enc_text, enc_uint, flatten, head,
    lemma_flatten_push, starts_with_at,
};
use vstd::prelude::*;

verus! {

pub open spec fn pow256(k: nat) -> nat
    decreases k,
{
    if k == 0 {
        1
    } else {
        256 * pow256((k - 1) as nat)
    }
}

proof fn lemma_pow256_values()
    ensures
        pow256(1) == 0x100,
        pow256(2) == 0x1_0000,
        pow256(4) == 0x1_0000_0000,
        pow256(7) == 0x100_0000_0000_0000,
        pow256(8) == 0x1_0000_0000_0000_0000,
{
    reveal_with_fuel(pow256, 9);
}

proof fn lemma_pow256_monotone(i: nat, j: nat)
    requires
        i <= j,
    ensures
        1 <= pow256(i) <= pow256(j),
    decreases j,
{
    if j > 0 {
        if i < j {
            lemma_pow256_monotone(i, (j - 1) as nat);
        } else {
            lemma_pow256_monotone((j - 1) as nat, (j - 1) as nat);
        }
    }
}

/// The bytes of a number written in `k` bytes read back give the number.
pub proof fn lemma_be_value_of_bytes(n: nat, k: nat)
    requires
        n < pow256(k),
    ensures
        be_value(be_bytes(n, k)) == n,
        be_bytes(n, k).len() == k,
    decreases k,
{
    if k > 0 {
        let p = pow256((k - 1) as nat);
        assert(n / 256 < p) by (nonlinear_arith)
            requires
                n < 256 * p,
        ;
        lemma_be_value_of_bytes(n / 256, (k - 1) as nat);
        let s = be_bytes(n, k);
        assert(s.drop_last() =~= be_bytes(n / 256, (k - 1) as nat));
    } else {
        assert(n == 0);
    }
}

/// A number read from bytes, written back in as many bytes, gives the bytes.
pub proof fn lemma_bytes_of_be_value(s: Seq<u8>)
    ensures
        be_bytes(be_value(s), s.len()) == s,
        be_value(s) < pow256(s.len()),
    decreases s.len(),
{
    if s.len() > 0 {
        let t = s.drop_last();
        lemma_bytes_of_be_value(t);
        let v = be_value(s);
        let w = be_value(t);
        assert(v == w * 256 + s.last());
        assert(v / 256 == w);
        assert(v % 256 == s.last());
        assert(be_bytes(v, s.len()) =~= be_bytes(w, t.len()).push(s.last()));
        assert(s =~= t.push(s.last()));
        let p = pow256(t.len());
        assert(w * 256 + s.last() < 256 * p) by (nonlinear_arith)
            requires
                w < p,
                s.last() < 256,
        ;
    }
}

/// How many bytes follow the first byte of a head with argument `n`.
pub open spec fn arg_len(n: u64) -> nat {
    if n <= 23 {
        0
    } else if n <= 0xff {
        1
    } else if n <= 0xffff {
        2
    } else if n <= 0xffff_ffff {
        4
    } else {
        8
    }
}

/// The low five bits of the first byte of a head with argument `n`.
pub open spec fn info_of(n: u64) -> int {
    if n <= 23 {
        n as int
    } else if n <= 0xff {
        24
    } else if n <= 0xffff {
        25
    } else if n <= 0xffff_ffff {
        26
    } else {
        27
    }
}

/// A head is its first byte, then its argument big-endian in `arg_len` bytes.
pub proof fn lemma_head_parts(major: u8, n: u64)
    requires
        major < 8,
    ensures
        head(major, n).len() == 1 + arg_len(n),
        head(major, n)[0] == major * 32 + info_of(n),
        n > 23 ==> be_value(head(major, n).subrange(1, 1 + arg_len(n) as int)) == n,
{
    lemma_pow256_values();
    let h = head(major, n);
    if n <= 23 {
    } else if n <= 0xff {
        let t = h.subrange(1, 2);
        assert(t.drop_last().len() == 0);
        assert(be_value(t) == be_value(t.drop_last()) * 256 + t.last());
    } else if n <= 0xffff {
        lemma_be_value_of_bytes(n as nat, 2);
        assert(h.subrange(1, 3) =~= be_bytes(n as nat, 2));
    } else if n <= 0xffff_ffff {
        lemma_be_value_of_bytes(n as nat, 4);
        assert(h.subrange(1, 5) =~= be_bytes(n as nat, 4));
    } else {
        lemma_be_value_of_bytes(n as nat, 8);
        assert(h.subrange(1, 9) =~= be_bytes(n as nat, 8));
    }
}

/// `k` bytes from `start`, read big-endian.
pub fn read_be(data: &[u8], start: usize, k: usize) -> (r: u64)
    requires
        k <= 8,
        start + k <= data.len(),
    ensures
        r == be_value(data@.subrange(start as int, start + k)),
{
    let mut v: u64 = 0;
    let mut i: usize = 0;
    while i < k
        invariant
            k <= 8,
            start + k <= data.len(),
            i <= k,
            v == be_value(data@.subrange(start as int, start + i)),
        decreases k - i,
    {
        let ghost sub = data@.subrange(start as int, start + i);
        let ghost next = data@.subrange(start as int, start + i + 1);
        proof {
            lemma_bytes_of_be_value(sub);
            lemma_pow256_monotone(i as nat, 7);
            lemma_pow256_values();
            assert(next.drop_last() =~= sub);
            assert(next.last() == data@[start + i]);
        }
        v = v * 256 + data[start + i] as u64;
        i = i + 1;
    }
    v
}

/// Whether the bytes at `pos` are exactly `token`.
pub fn expect(data: &[u8], pos: usize, token: &[u8]) -> (r: bool)
    ensures
        r <==> starts_with_at(data@, pos as int, token@),
        r ==> pos + token.len() <= data.len(),
{
    if pos > data.len() || token.len() > data.len() - pos {
        return false;
    }
    let mut i: usize = 0;
    while i < token.len()
        invariant
            pos + token.len() <= data.len(),
            i <= token.len(),
            forall|j: int| 0 <= j < i ==> data@[pos + j] == token@[j],
        decreases token.len() - i,
    {
        if data[pos + i] != token[i] {
            proof {
                assert(data@.subrange(pos as int, pos + token.len())[i as int] != token@[i as int]);
            }
            return false;
        }
        i = i + 1;
    }
    assert(data@.subrange(pos as int, pos + token.len()) =~= token@);
    true
}

/// The head at `pos`: its major type, its argument, and where it ends.
pub fn parse_head(data: &[u8], pos: usize) -> (r: Option<(u8, u64, usize)>)
    ensures
        r matches Some((major, n, end)) ==> major < 8 && starts_with_at(data@, pos as int, head(major, n))
            && end == pos + head(major, n).len(),
        forall|major: u8, n: u64|
            major < 8 && #[trigger] starts_with_at(data@, pos as int, head(major, n)) ==> r == Some(
                (major, n, (pos + head(major, n).len()) as usize),
            ),
{
    if pos >= data.len() {
        return None;
    }
    let b = data[pos];
    let major = b / 32;
    let info = b % 32;
    proof {
        lemma_pow256_values();
    }
    if info < 24 {
        let n = info as u64;
        proof {
            assert(data@.subrange(pos as int, pos + 1) =~= head(major, n));
            assert forall|mj: u8, m: u64|
                mj < 8 && #[trigger] starts_with_at(data@, pos as int, head(mj, m)) implies Some(
                    (major, n, (pos + 1) as usize),
                ) == Some((mj, m, (pos + head(mj, m).len()) as usize)) by {
                lemma_head_parts(mj, m);
                assert(head(mj, m)[0] == data@[pos as int]);
            }
        }
        return Some((major, n, pos + 1));
    }
    let k: usize = if info == 24 {
        1
    } else if info == 25 {
        2
    } else if info == 26 {
        4
    } else if info == 27 {
        8
    } else {
        proof {
            assert forall|mj: u8, m: u64|
                mj < 8 && #[trigger] starts_with_at(data@, pos as int, head(mj, m)) implies false by {
                lemma_head_parts(mj, m);
                assert(head(mj, m)[0] == data@[pos as int]);
            }
        }
        return None;
    };
    if data.len() - pos - 1 < k {
        proof {
            assert forall|mj: u8, m: u64|
                mj < 8 && #[trigger] starts_with_at(data@, pos as int, head(mj, m)) implies false by {
                lemma_head_parts(mj, m);
                assert(head(mj, m)[0] == data@[pos as int]);
            }
        }
        return None;
    }
    let n = read_be(data, pos + 1, k);
    let ghost body = data@.subrange(pos + 1, pos + 1 + k);
    let least: u64 = if k == 1 {
        24
    } else if k == 2 {
        0x100
    } else if k == 4 {
        0x1_0000
    } else {
        0x1_0000_0000
    };
    proof {
        lemma_bytes_of_be_value(body);
        assert forall|mj: u8, m: u64|
            mj < 8 && #[trigger] starts_with_at(data@, pos as int, head(mj, m)) implies mj == major
                && m == n && arg_len(m) == k by {
            lemma_head_parts(mj, m);
            assert(head(mj, m)[0] == data@[pos as int]);
            assert(body =~= head(mj, m).subrange(1, 1 + arg_len(m) as int));
        }
    }
    if n < least {
        return None;
    }
    let end = pos + 1 + k;
    proof {
        let h = head(major, n);
        lemma_head_parts(major, n);
        if k == 1 {
            assert(body.drop_last().len() == 0);
            assert(be_value(body) == be_value(body.drop_last()) * 256 + body.last());
        }
        assert(arg_len(n) == k);
        assert(h.subrange(1, 1 + k) =~= body) by {
            if k == 1 {
                assert(h.subrange(1, 2) =~= seq![n as u8]);
            } else {
                lemma_bytes_of_be_value(h.subrange(1, 1 + k));
            }
        }
        assert(data@.subrange(pos as int, end as int) =~= h);
    }
    Some((major, n, end))
}

/// `a` then `b` at `pos` is `a + b` at `pos`.
pub proof fn lemma_starts_concat(data: Seq<u8>, pos: int, a: Seq<u8>, b: Seq<u8>)
    ensures
        starts_with_at(data, pos, a + b) <==> (starts_with_at(data, pos, a) && starts_with_at(
            data,
            pos + a.len(),
            b,
        )),
{
    if starts_with_at(data, pos, a + b) {
        let ab = data.subrange(pos, pos + (a + b).len());
        assert(data.subrange(pos, pos + a.len()) =~= ab.subrange(0, a.len() as int));
        assert(ab.subrange(0, a.len() as int) =~= a);
        assert(data.subrange(pos + a.len(), pos + a.len() + b.len()) =~= ab.subrange(
            a.len() as int,
            (a.len() + b.len()) as int,
        ));
        assert(ab.subrange(a.len() as int, (a.len() + b.len()) as int) =~= b);
    }
    if starts_with_at(data, pos, a) && starts_with_at(data, pos + a.len(), b) {
        assert(data.subrange(pos, pos + (a + b).len()) =~= a + b) by {
            assert forall|i: int| 0 <= i < (a + b).len() implies data.subrange(
                pos,
                pos + (a + b).len(),
            )[i] == (a + b)[i] by {
                if i < a.len() {
                    assert(data.subrange(pos, pos + a.len())[i] == a[i]);
                } else {
                    assert(data.subrange(pos + a.len(), pos + a.len() + b.len())[i - a.len()]
                        == b[i - a.len()]);
                }
            }
        }
    }
}

/// An unsigned integer.
pub fn parse_uint(data: &[u8], pos: usize) -> (r: Option<(u64, usize)>)
    ensures
        r matches Some((n, end)) ==> starts_with_at(data@, pos as int, enc_uint(n)) && end == pos
            + enc_uint(n).len(),
        forall|n: u64| #[trigger]
            starts_with_at(data@, pos as int, enc_uint(n)) ==> r == Some(
                (n, (pos + enc_uint(n).len()) as usize),
            ),
{
    let h = parse_head(data, pos);
    proof {
        assert forall|n: u64| #[trigger] starts_with_at(data@, pos as int, enc_uint(n)) implies h
            == Some((0u8, n, (pos + head(0, n).len()) as usize)) by {
            assert(starts_with_at(data@, pos as int, head(0, n)));
        }
    }
    match h {
        Some((major, n, end)) => {
            if major == 0 {
                Some((n, end))
            } else {
                None
            }
        },
        None => None,
    }
}

/// A boolean.
pub fn parse_bool(data: &[u8], pos: usize) -> (r: Option<(bool, usize)>)
    ensures
        r matches Some((b, end)) ==> starts_with_at(data@, pos as int, enc_bool(b)) && end == pos
            + enc_bool(b).len(),
        forall|b: bool| #[trigger]
            starts_with_at(data@, pos as int, enc_bool(b)) ==> r == Some(
                (b, (pos + enc_bool(b).len()) as usize),
            ),
{
    let h = parse_head(data, pos);
    proof {
        assert(enc_bool(true) =~= head(7, 21));
        assert(enc_bool(false) =~= head(7, 20));
        assert forall|b: bool| #[trigger] starts_with_at(data@, pos as int, enc_bool(b)) implies h
            == Some((7u8, if b { 21u64 } else { 20u64 }, (pos + 1) as usize)) by {
            assert(starts_with_at(data@, pos as int, head(7, if b { 21u64 } else { 20u64 })));
        }
    }
    match h {
        Some((major, n, end)) => {
            if major == 7 && n == 20 {
                Some((false, end))
            } else if major == 7 && n == 21 {
                Some((true, end))
            } else {
                None
            }
        },
        None => None,
    }
}

/// A signed integer that fits in 64 bits.
pub fn parse_int(data: &[u8], pos: usize) -> (r: Option<(i64, usize)>)
    ensures
        r matches Some((v, end)) ==> starts_with_at(data@, pos as int, enc_int(v as int)) && end
            == pos + enc_int(v as int).len(),
        forall|v: i64| #[trigger]
            starts_with_at(data@, pos as int, enc_int(v as int)) ==> r == Some(
                (v, (pos + enc_int(v as int).len()) as usize),
            ),
{
    let h = parse_head(data, pos);
    proof {
        assert forall|v: i64| #[trigger] starts_with_at(data@, pos as int, enc_int(v as int)) implies h
            == (if v >= 0 {
            Some((0u8, v as u64, (pos + head(0, v as u64).len()) as usize))
        } else {
            Some((1u8, (-1 - v) as u64, (pos + head(1, (-1 - v) as u64).len()) as usize))
        }) by {
            if v >= 0 {
                assert(starts_with_at(data@, pos as int, head(0, v as u64)));
            } else {
                assert(starts_with_at(data@, pos as int, head(1, (-1 - v) as u64)));
            }
        }
    }
    match h {
        Some((major, n, end)) => {
            if major == 0 && n <= 0x7fff_ffff_ffff_ffff {
                Some((n as i64, end))
            } else if major == 1 && n <= 0x7fff_ffff_ffff_ffff {
                let v: i64 = -1 - (n as i64);
                proof {
                    assert((-1 - v) as u64 == n);
                }
                Some((v, end))
            } else {
                None
            }
        },
        None => None,
    }
}

/// The `n` bytes after a head, copied out.
pub fn copy_out(data: &[u8], start: usize, n: usize) -> (r: Vec<u8>)
    requires
        start + n <= data.len(),
    ensures
        r@ == data@.subrange(start as int, start + n),
{
    let mut v: Vec<u8> = Vec::new();
    let mut i: usize = 0;
    while i < n
        invariant
            start + n <= data.len(),
            i <= n,
            v@ == data@.subrange(start as int, start + i),
        decreases n - i,
    {
        v.push(data[start + i]);
        i = i + 1;
        assert(v@ =~= data@.subrange(start as int, start + i));
    }
    v
}

/// A string of major type `major` (bytes or text): its bytes.
fn parse_string(data: &[u8], pos: usize, major: u8) -> (r: Option<(Vec<u8>, usize)>)
    requires
        major < 8,
    ensures
        r matches Some((b, end)) ==> starts_with_at(data@, pos as int, head(major, b@.len() as u64) + b@)
            && end == pos + (head(major, b@.len() as u64) + b@).len(),
        forall|b: Seq<u8>| #[trigger]
            starts_with_at(data@, pos as int, head(major, b.len() as u64) + b) ==> (r matches Some((v, end))
                && v@ == b && end == pos + (head(major, b.len() as u64) + b).len()),
{
    let h = parse_head(data, pos);
    proof {
        assert forall|b: Seq<u8>| #[trigger]
            starts_with_at(data@, pos as int, head(major, b.len() as u64) + b) implies h == Some(
            (major, b.len() as u64, (pos + head(major, b.len() as u64).len()) as usize),
        ) && b.len() == b.len() as u64 && starts_with_at(
            data@,
            pos + head(major, b.len() as u64).len(),
            b,
        ) by {
            assert(data@.len() == data.len());
            assert(b.len() <= usize::MAX);
            lemma_starts_concat(data@, pos as int, head(major, b.len() as u64), b);
        }
    }
    match h {
        Some((m, n, end)) => {
            if m != major || n > (data.len() - end) as u64 {
                return None;
            }
            let len = n as usize;
            let v = copy_out(data, end, len);
            proof {
                assert(v@.len() as u64 == n);
                lemma_starts_concat(data@, pos as int, head(major, n), v@);
                assert forall|b: Seq<u8>| #[trigger]
                    starts_with_at(data@, pos as int, head(major, b.len() as u64) + b) implies v@
                    == b by {
                    lemma_starts_concat(data@, pos as int, head(major, b.len() as u64), b);
                    assert(b =~= data@.subrange(end as int, end + len));
                }
            }
            Some((v, end + len))
        },
        None => None,
    }
}

/// A byte string.
pub fn parse_bytes(data: &[u8], pos: usize) -> (r: Option<(Vec<u8>, usize)>)
    ensures
        r matches Some((b, end)) ==> starts_with_at(data@, pos as int, enc_bytes(b@)) && end == pos
            + enc_bytes(b@).len(),
        forall|b: Seq<u8>| #[trigger]
            starts_with_at(data@, pos as int, enc_bytes(b)) ==> (r matches Some((v, end)) && v@ == b
                && end == pos + enc_bytes(b).len()),
{
    let r = parse_string(data, pos, 2);
    proof {
        assert forall|b: Seq<u8>| #[trigger] starts_with_at(data@, pos as int, enc_bytes(b)) implies (r matches Some((v, end)) && v@ == b
                && end == pos + enc_bytes(b).len()) by {
            assert(starts_with_at(data@, pos as int, head(2, b.len() as u64) + b));
        }
    }
    r
}

/// A text string, as its bytes.
pub fn parse_text(data: &[u8], pos: usize) -> (r: Option<(Vec<u8>, usize)>)
    ensures
        r matches Some((t, end)) ==> starts_with_at(data@, pos as int, enc_text(t@)) && end == pos
            + enc_text(t@).len(),
        forall|t: Seq<u8>| #[trigger]
            starts_with_at(data@, pos as int, enc_text(t)) ==> (r matches Some((v, end)) && v@ == t
                && end == pos + enc_text(t).len()),
{
    let r = parse_string(data, pos, 3);
    proof {
        assert forall|t: Seq<u8>| #[trigger] starts_with_at(data@, pos as int, enc_text(t)) implies (r matches Some((v, end)) && v@ == t
                && end == pos + enc_text(t).len()) by {
            assert(starts_with_at(data@, pos as int, head(3, t.len() as u64) + t));
        }
    }
    r
}

/// A byte string of exactly `N` bytes.
pub fn parse_byte_array<const N: usize>(data: &[u8], pos: usize) -> (r: Option<([u8; N], usize)>)
    ensures
        r matches Some((a, end)) ==> starts_with_at(data@, pos as int, enc_bytes(a@)) && end == pos
            + enc_bytes(a@).len(),
        forall|a: [u8; N]| #[trigger]
            starts_with_at(data@, pos as int, enc_bytes(a@)) ==> r == Some(
                (a, (pos + enc_bytes(a@).len()) as usize),
            ),
{
    let p = parse_bytes(data, pos);
    match p {
        Some((v, end)) => {
            if v.len() != N {
                return None;
            }
            let mut a = vstd::array::array_fill_for_copy_types::<u8, N>(0u8);
            let mut i: usize = 0;
            while i < N
                invariant
                    v@.len() == N,
                    i <= N,
                    forall|j: int| 0 <= j < i ==> a@[j] == v@[j],
                decreases N - i,
            {
                a[i] = v[i];
                i = i + 1;
            }
            proof {
                assert(a@ =~= v@);
                assert forall|b: [u8; N]| #[trigger]
                    starts_with_at(data@, pos as int, enc_bytes(b@)) implies b == a by {
                    assert(b@ == v@);
                    assert(b =~= a);
                }
            }
            Some((a, end))
        },
        None => None,
    }
}

/// A concatenation split around its `i`-th part.
pub proof fn lemma_flatten_split(parts: Seq<Seq<u8>>, i: int)
    requires
        0 <= i < parts.len(),
    ensures
        flatten(parts) == flatten(parts.take(i)) + parts[i] + flatten(parts.skip(i + 1)),
    decreases parts.len(),
{
    let last = parts.len() - 1;
    if i == last {
        assert(parts.drop_last() =~= parts.take(i));
        assert(parts.skip(i + 1) =~= Seq::<Seq<u8>>::empty());
        assert(flatten(parts.take(i)) + parts[i] + flatten(parts.skip(i + 1)) =~= flatten(
            parts.take(i),
        ) + parts[i]);
    } else {
        let d = parts.drop_last();
        lemma_flatten_split(d, i);
        assert(d.take(i) =~= parts.take(i));
        assert(parts.skip(i + 1).drop_last() =~= d.skip(i + 1));
        assert(parts.skip(i + 1).last() == parts.last());
        assert(flatten(parts) =~= flatten(parts.take(i)) + parts[i] + flatten(parts.skip(i + 1)));
    }
}

/// Where a list's head and parts stand at `pos`, its `i`-th part stands after the
/// head and the parts before it.
pub proof fn lemma_list_item(data: Seq<u8>, pos: int, head_bytes: Seq<u8>, parts: Seq<Seq<u8>>, i: int)
    requires
        starts_with_at(data, pos, head_bytes + flatten(parts)),
        0 <= i < parts.len(),
    ensures
        starts_with_at(data, pos + head_bytes.len() + flatten(parts.take(i)).len(), parts[i]),
{
    lemma_flatten_split(parts, i);
    let a = flatten(parts.take(i));
    let b = parts[i];
    let c = flatten(parts.skip(i + 1));
    assert(head_bytes + flatten(parts) =~= (head_bytes + a) + (b + c));
    lemma_starts_concat(data, pos, head_bytes + a, b + c);
    lemma_starts_concat(data, pos + (head_bytes + a).len(), b, c);
}

/// The parts of a list after its head, one more.
pub proof fn lemma_list_extend(data: Seq<u8>, pos: int, head_bytes: Seq<u8>, parts: Seq<Seq<u8>>, p: Seq<u8>)
    requires
        starts_with_at(data, pos, head_bytes + flatten(parts)),
        starts_with_at(data, pos + head_bytes.len() + flatten(parts).len(), p),
    ensures
        starts_with_at(data, pos, head_bytes + flatten(parts.push(p))),
        (head_bytes + flatten(parts.push(p))).len() == head_bytes.len() + flatten(parts).len() + p.len(),
{
    lemma_flatten_push(parts, p);
    lemma_starts_concat(data, pos, head_bytes + flatten(parts), p);
    assert(head_bytes + flatten(parts.push(p)) =~= (head_bytes + flatten(parts)) + p);
}

/// Four encodings one after another.
pub proof fn lemma_starts4(data: Seq<u8>, pos: int, a: Seq<u8>, b: Seq<u8>, c: Seq<u8>, d: Seq<u8>)
    ensures
        starts_with_at(data, pos, a + b + c + d) <==> {
            &&& starts_with_at(data, pos, a)
            &&& starts_with_at(data, pos + a.len(), b)
            &&& starts_with_at(data, pos + a.len() + b.len(), c)
            &&& starts_with_at(data, pos + a.len() + b.len() + c.len(), d)
        },
{
    lemma_starts_concat(data, pos, a + b + c, d);
    lemma_starts_concat(data, pos, a + b, c);
    lemma_starts_concat(data, pos, a, b);
}

/// Six encodings one after another.
pub proof fn lemma_starts6(
    data: Seq<u8>,
    pos: int,
    a: Seq<u8>,
    b: Seq<u8>,
    c: Seq<u8>,
    d: Seq<u8>,
    e: Seq<u8>,
    f: Seq<u8>,
)
    ensures
        starts_with_at(data, pos, a + b + c + d + e + f) <==> {
            &&& starts_with_at(data, pos, a)
            &&& starts_with_at(data, pos + a.len(), b)
            &&& starts_with_at(data, pos + a.len() + b.len(), c)
            &&& starts_with_at(data, pos + a.len() + b.len() + c.len(), d)
            &&& starts_with_at(data, pos + a.len() + b.len() + c.len() + d.len(), e)
            &&& starts_with_at(data, pos + a.len() + b.len() + c.len() + d.len() + e.len(), f)
        },
{
    lemma_starts_concat(data, pos, a + b + c + d + e, f);
    lemma_starts_concat(data, pos, a + b + c + d, e);
    lemma_starts4(data, pos, a, b, c, d);
}

/// Each part of a list's encoding is at least one byte long.
pub proof fn lemma_flatten_len_at_least(parts: Seq<Seq<u8>>)
    ensures
        (forall|i: int| 0 <= i < parts.len() ==> #[trigger] parts[i].len() >= 1) ==> flatten(parts).len()
            >= parts.len(),
    decreases parts.len(),
{
    if parts.len() > 0 {
        lemma_flatten_len_at_least(parts.drop_last());
    }
}

/// Whether two byte strings are equal.
pub fn bytes_equal(a: &[u8], b: &[u8]) -> (r: bool)
    ensures
        r == (a@ == b@),
{
    if a.len() != b.len() {
        return false;
    }
    let r = expect(a, 0, b);
    proof {
        if r {
            assert(a@.subrange(0, b@.len() as int) =~= a@);
        } else {
            assert(a@.subrange(0, a@.len() as int) =~= a@);
        }
    }
    r
}

/// Every length that fits in memory fits in 8 bytes.
pub proof fn lemma_pow256_monotone_8(n: nat)
    requires
        n <= usize::MAX,
    ensures
        n < pow256(8),
{
    lemma_pow256_values();
}

} // verus!
