use crate::cbor::{
    array_head, ascii, enc_field, enc_text, enc_uint, flatten, map_head, push_array_head,
    push_field_name, push_map_head, push_text, push_uint, starts_with_at, Encodable,
};
use crate::decode::{
    expect, lemma_flatten_len_at_least, lemma_list_extend, lemma_list_item, lemma_starts4,
    lemma_starts6, lemma_starts_concat, parse_head, parse_uint,
};
use crate::error::BtcError;
use crate::sha256::{digest_of, enc_hash, lex_le, parse_hash};
use crate::timestamp::{enc_timestamp, parse_timestamp, rfc3339_text, timestamp_valid, Timestamp};
use crate::types::index::{lookup, HashIndex};
use crate::types::transaction::{
    enc_transaction, field_token, lemma_flatten_map_take, lemma_outputs_total_monotone,
    lemma_outputs_total_take, outputs_total, parse_transaction, transaction_valid, tx_views, Transaction, TransactionInput, TransactionOutput, TransactionView,
};
use crate::util::{merkle_root, MerkleRoot};
use vstd::prelude::*;

verus! {

/// The unspent outputs: each keyed by its hash, with a mark (whether it is reserved).
pub type UtxoEntries = Seq<(crate::sha256::Hash, (bool, TransactionOutput))>;

#[derive(Clone, Copy, Debug)]
pub struct BlockHeader {
    pub timestamp: Timestamp,
    pub nonce: u64,
    pub prev_block_hash: crate::sha256::Hash,
    pub merkle_root: MerkleRoot,
    pub target: crate::sha256::Hash,
}

#[derive(Debug)]
pub struct Block {
    pub header: BlockHeader,
    pub transactions: Vec<Transaction>,
}

pub struct BlockView {
    pub header: BlockHeader,
    pub transactions: Seq<TransactionView>,
}

impl View for Block {
    type V = BlockView;

    open spec fn view(&self) -> BlockView {
        BlockView { header: self.header, transactions: tx_views(self.transactions@) }
    }
}

impl Clone for Block {
    fn clone(&self) -> (r: Block)
        ensures
            r@ == self@,
    {
        let transactions = self.transactions.clone();
        assert(tx_views(transactions@) =~= tx_views(self.transactions@)) by {
            assert forall|i: int| 0 <= i < transactions.len() implies #[trigger] transactions@[i]@
                == self.transactions@[i]@ by {
                assert(vstd::pervasive::cloned(self.transactions@[i], transactions@[i]));
            }
        }
        Block { header: self.header, transactions }
    }
}

/// The views of a sequence of blocks.
pub open spec fn block_views(blocks: Seq<Block>) -> Seq<BlockView> {
    blocks.map_values(|b: Block| b@)
}

pub open spec fn enc_header(h: BlockHeader) -> Seq<u8> {
    map_head(5) + enc_field(ascii("timestamp"), enc_text(rfc3339_text(h.timestamp.secs(), h.timestamp.nanos())))
        + enc_field(ascii("nonce"), enc_uint(h.nonce)) + enc_field(
        ascii("prev_block_hash"),
        enc_hash(h.prev_block_hash),
    ) + enc_field(ascii("merkle_root"), enc_hash(h.merkle_root.0)) + enc_field(
        ascii("target"),
        enc_hash(h.target),
    )
}

pub open spec fn enc_transactions(s: Seq<TransactionView>) -> Seq<u8> {
    array_head(s.len()) + flatten(s.map_values(|t: TransactionView| enc_transaction(t)))
}

pub open spec fn enc_block(b: BlockView) -> Seq<u8> {
    map_head(2) + enc_field(ascii("header"), enc_header(b.header)) + enc_field(
        ascii("transactions"),
        enc_transactions(b.transactions),
    )
}

pub open spec fn header_hash(h: BlockHeader) -> crate::sha256::Hash {
    digest_of(enc_header(h))
}

/// Whether the header's hash is at most its own target.
pub open spec fn meets_target(h: BlockHeader) -> bool {
    lex_le(header_hash(h).0@, h.target.0@)
}

pub open spec fn with_nonce(h: BlockHeader, nonce: u64) -> BlockHeader {
    BlockHeader { nonce, ..h }
}

/// The nonce `k` wrapping increments after `start`.
pub open spec fn nonce_after(start: u64, k: int) -> u64 {
    ((start + k) % 0x1_0000_0000_0000_0000) as u64
}

impl Encodable for BlockHeader {
    open spec fn spec_cbor(&self) -> Seq<u8> {
        enc_header(*self)
    }

    fn encode(&self, out: &mut Vec<u8>) {
        push_map_head(out, 5);
        push_field_name(out, "timestamp");
        let text = self.timestamp.to_rfc3339();
        push_text(out, text.as_slice());
        push_field_name(out, "nonce");
        push_uint(out, self.nonce);
        push_field_name(out, "prev_block_hash");
        self.prev_block_hash.encode(out);
        push_field_name(out, "merkle_root");
        self.merkle_root.0.encode(out);
        push_field_name(out, "target");
        self.target.encode(out);
        assert(final(out)@ =~= old(out)@ + enc_header(*self));
    }
}

pub fn encode_transactions(s: &Vec<Transaction>, out: &mut Vec<u8>)
    ensures
        final(out)@ == old(out)@ + enc_transactions(tx_views(s@)),
{
    push_array_head(out, s.len());
    let ghost start = out@;
    let ghost f = |t: TransactionView| enc_transaction(t);
    let ghost views = tx_views(s@);
    let mut i: usize = 0;
    while i < s.len()
        invariant
            i <= s.len(),
            views == tx_views(s@),
            f == (|t: TransactionView| enc_transaction(t)),
            out@ == start + flatten(views.take(i as int).map_values(f)),
        decreases s.len() - i,
    {
        proof {
            lemma_flatten_map_take(views, f, i as int);
        }
        s[i].encode(out);
        proof {
            assert(f(views[i as int]) == s@[i as int].spec_cbor());
            assert(out@ =~= start + flatten(views.take(i + 1).map_values(f)));
        }
        i = i + 1;
    }
    assert(views.take(s.len() as int) =~= views);
    assert(final(out)@ =~= old(out)@ + enc_transactions(tx_views(s@)));
}

impl Encodable for Block {
    open spec fn spec_cbor(&self) -> Seq<u8> {
        enc_block(self@)
    }

    fn encode(&self, out: &mut Vec<u8>) {
        push_map_head(out, 2);
        push_field_name(out, "header");
        self.header.encode(out);
        push_field_name(out, "transactions");
        encode_transactions(&self.transactions, out);
        assert(final(out)@ =~= old(out)@ + enc_block(self@));
    }
}

// ---- reading back ----

/// A header that reads back as itself: its time is one chrono represents.
pub open spec fn header_valid(h: BlockHeader) -> bool {
    timestamp_valid(h.timestamp.secs(), h.timestamp.nanos())
}

/// A block that reads back as itself.
pub open spec fn block_valid(b: BlockView) -> bool {
    &&& header_valid(b.header)
    &&& forall|j: int| 0 <= j < b.transactions.len() ==> transaction_valid(#[trigger] b.transactions[j])
}

pub open spec fn transaction_encs(s: Seq<TransactionView>) -> Seq<Seq<u8>> {
    s.map_values(|t: TransactionView| enc_transaction(t))
}

/// The header's fields up to its previous block's hash.
pub open spec fn enc_header_front(ts: Timestamp, nonce: u64, prev: crate::sha256::Hash) -> Seq<u8> {
    map_head(5) + enc_text(ascii("timestamp")) + enc_timestamp(ts) + enc_text(ascii("nonce"))
        + enc_uint(nonce) + enc_text(ascii("prev_block_hash")) + enc_hash(prev)
}

/// The header's last two fields.
pub open spec fn enc_header_back(merkle: crate::sha256::Hash, target: crate::sha256::Hash) -> Seq<u8> {
    enc_text(ascii("merkle_root")) + enc_hash(merkle) + enc_text(ascii("target")) + enc_hash(target)
}

proof fn lemma_header_split(data: Seq<u8>, pos: int, h: BlockHeader)
    ensures
        enc_header(h) == enc_header_front(h.timestamp, h.nonce, h.prev_block_hash) + enc_header_back(
            h.merkle_root.0,
            h.target,
        ),
        starts_with_at(data, pos, enc_header(h)) <==> (starts_with_at(
            data,
            pos,
            enc_header_front(h.timestamp, h.nonce, h.prev_block_hash),
        ) && starts_with_at(
            data,
            pos + enc_header_front(h.timestamp, h.nonce, h.prev_block_hash).len(),
            enc_header_back(h.merkle_root.0, h.target),
        )),
{
    assert(enc_header(h) =~= enc_header_front(h.timestamp, h.nonce, h.prev_block_hash)
        + enc_header_back(h.merkle_root.0, h.target));
    lemma_starts_concat(
        data,
        pos,
        enc_header_front(h.timestamp, h.nonce, h.prev_block_hash),
        enc_header_back(h.merkle_root.0, h.target),
    );
}

/// A header's time, nonce and previous hash.
fn parse_header_front(data: &[u8], pos: usize) -> (r: Option<
    ((Timestamp, u64, crate::sha256::Hash), usize),
>)
    ensures
        r matches Some((f, end)) ==> timestamp_valid(f.0.secs(), f.0.nanos()) && starts_with_at(
            data@,
            pos as int,
            enc_header_front(f.0, f.1, f.2),
        ) && end == pos + enc_header_front(f.0, f.1, f.2).len(),
        forall|ts: Timestamp, nonce: u64, prev: crate::sha256::Hash|
            timestamp_valid(ts.secs(), ts.nanos()) && #[trigger] starts_with_at(
                data@,
                pos as int,
                enc_header_front(ts, nonce, prev),
            ) ==> r == Some(((ts, nonce, prev), (pos + enc_header_front(ts, nonce, prev).len()) as usize)),
{
    let mut t1: Vec<u8> = Vec::new();
    push_map_head(&mut t1, 5);
    push_field_name(&mut t1, "timestamp");
    let t2 = field_token("nonce");
    let t3 = field_token("prev_block_hash");
    proof {
        assert(t1@ =~= map_head(5) + enc_text(ascii("timestamp")));
        assert forall|ts: Timestamp, nonce: u64, prev: crate::sha256::Hash|
            #[trigger] starts_with_at(data@, pos as int, enc_header_front(ts, nonce, prev)) implies starts_with_at(data@, pos as int, t1@) by {
            lemma_starts6(data@, pos as int, t1@, enc_timestamp(ts), t2@, enc_uint(nonce), t3@, enc_hash(prev));
        }
    }
    if !expect(data, pos, t1.as_slice()) {
        return None;
    }
    let p1 = pos + t1.len();
    let (timestamp, p2) = match parse_timestamp(data, p1) {
        Some(x) => x,
        None => {
            proof {
                assert forall|ts: Timestamp, nonce: u64, prev: crate::sha256::Hash|
                    timestamp_valid(ts.secs(), ts.nanos()) implies !#[trigger] starts_with_at(data@, pos as int, enc_header_front(ts, nonce, prev)) by {
                    lemma_starts6(data@, pos as int, t1@, enc_timestamp(ts), t2@, enc_uint(nonce), t3@, enc_hash(prev));
                }
            }
            return None;
        },
    };
    proof {
        assert forall|ts: Timestamp, nonce: u64, prev: crate::sha256::Hash|
            timestamp_valid(ts.secs(), ts.nanos()) && #[trigger] starts_with_at(data@, pos as int, enc_header_front(ts, nonce, prev)) implies ts == timestamp && starts_with_at(data@, p2 as int, t2@) by {
            lemma_starts6(data@, pos as int, t1@, enc_timestamp(ts), t2@, enc_uint(nonce), t3@, enc_hash(prev));
        }
    }
    if !expect(data, p2, t2.as_slice()) {
        return None;
    }
    let p3 = p2 + t2.len();
    let (nonce, p4) = match parse_uint(data, p3) {
        Some(x) => x,
        None => {
            proof {
                assert forall|ts: Timestamp, nonce: u64, prev: crate::sha256::Hash|
                    timestamp_valid(ts.secs(), ts.nanos()) implies !#[trigger] starts_with_at(data@, pos as int, enc_header_front(ts, nonce, prev)) by {
                    lemma_starts6(data@, pos as int, t1@, enc_timestamp(ts), t2@, enc_uint(nonce), t3@, enc_hash(prev));
                }
            }
            return None;
        },
    };
    proof {
        assert forall|ts: Timestamp, n: u64, prev: crate::sha256::Hash|
            timestamp_valid(ts.secs(), ts.nanos()) && #[trigger] starts_with_at(data@, pos as int, enc_header_front(ts, n, prev)) implies n == nonce && starts_with_at(data@, p4 as int, t3@) by {
            lemma_starts6(data@, pos as int, t1@, enc_timestamp(ts), t2@, enc_uint(n), t3@, enc_hash(prev));
        }
    }
    if !expect(data, p4, t3.as_slice()) {
        return None;
    }
    let p5 = p4 + t3.len();
    let (prev_block_hash, p6) = match parse_hash(data, p5) {
        Some(x) => x,
        None => {
            proof {
                assert forall|ts: Timestamp, nonce: u64, prev: crate::sha256::Hash|
                    timestamp_valid(ts.secs(), ts.nanos()) implies !#[trigger] starts_with_at(data@, pos as int, enc_header_front(ts, nonce, prev)) by {
                    lemma_starts6(data@, pos as int, t1@, enc_timestamp(ts), t2@, enc_uint(nonce), t3@, enc_hash(prev));
                }
            }
            return None;
        },
    };
    proof {
        lemma_starts6(data@, pos as int, t1@, enc_timestamp(timestamp), t2@, enc_uint(nonce), t3@, enc_hash(prev_block_hash));
        assert forall|ts: Timestamp, n: u64, prev: crate::sha256::Hash|
            timestamp_valid(ts.secs(), ts.nanos()) && #[trigger] starts_with_at(data@, pos as int, enc_header_front(ts, n, prev)) implies prev == prev_block_hash by {
            lemma_starts6(data@, pos as int, t1@, enc_timestamp(ts), t2@, enc_uint(n), t3@, enc_hash(prev));
        }
    }
    Some(((timestamp, nonce, prev_block_hash), p6))
}

/// A header's merkle root and target.
fn parse_header_back(data: &[u8], pos: usize) -> (r: Option<
    ((crate::sha256::Hash, crate::sha256::Hash), usize),
>)
    ensures
        r matches Some((f, end)) ==> starts_with_at(data@, pos as int, enc_header_back(f.0, f.1)) && end
            == pos + enc_header_back(f.0, f.1).len(),
        forall|merkle: crate::sha256::Hash, target: crate::sha256::Hash| #[trigger]
            starts_with_at(data@, pos as int, enc_header_back(merkle, target)) ==> r == Some(
                ((merkle, target), (pos + enc_header_back(merkle, target).len()) as usize),
            ),
{
    let t1 = field_token("merkle_root");
    let t2 = field_token("target");
    proof {
        assert forall|m: crate::sha256::Hash, t: crate::sha256::Hash| #[trigger]
            starts_with_at(data@, pos as int, enc_header_back(m, t)) implies starts_with_at(data@, pos as int, t1@) by {
            lemma_starts4(data@, pos as int, t1@, enc_hash(m), t2@, enc_hash(t));
        }
    }
    if !expect(data, pos, t1.as_slice()) {
        return None;
    }
    let p1 = pos + t1.len();
    let (merkle, p2) = match parse_hash(data, p1) {
        Some(x) => x,
        None => {
            proof {
                assert forall|m: crate::sha256::Hash, t: crate::sha256::Hash|
                    !#[trigger] starts_with_at(data@, pos as int, enc_header_back(m, t)) by {
                    lemma_starts4(data@, pos as int, t1@, enc_hash(m), t2@, enc_hash(t));
                }
            }
            return None;
        },
    };
    proof {
        assert forall|m: crate::sha256::Hash, t: crate::sha256::Hash| #[trigger]
            starts_with_at(data@, pos as int, enc_header_back(m, t)) implies m == merkle && starts_with_at(data@, p2 as int, t2@) by {
            lemma_starts4(data@, pos as int, t1@, enc_hash(m), t2@, enc_hash(t));
        }
    }
    if !expect(data, p2, t2.as_slice()) {
        return None;
    }
    let p3 = p2 + t2.len();
    let (target, p4) = match parse_hash(data, p3) {
        Some(x) => x,
        None => {
            proof {
                assert forall|m: crate::sha256::Hash, t: crate::sha256::Hash|
                    !#[trigger] starts_with_at(data@, pos as int, enc_header_back(m, t)) by {
                    lemma_starts4(data@, pos as int, t1@, enc_hash(m), t2@, enc_hash(t));
                }
            }
            return None;
        },
    };
    proof {
        lemma_starts4(data@, pos as int, t1@, enc_hash(merkle), t2@, enc_hash(target));
        assert forall|m: crate::sha256::Hash, t: crate::sha256::Hash| #[trigger]
            starts_with_at(data@, pos as int, enc_header_back(m, t)) implies t == target by {
            lemma_starts4(data@, pos as int, t1@, enc_hash(m), t2@, enc_hash(t));
        }
    }
    Some(((merkle, target), p4))
}

/// A header, where its time is one chrono represents.
pub fn parse_header(data: &[u8], pos: usize) -> (r: Option<(BlockHeader, usize)>)
    ensures
        r matches Some((h, end)) ==> header_valid(h) && starts_with_at(data@, pos as int, enc_header(h))
            && end == pos + enc_header(h).len(),
        forall|h: BlockHeader|
            header_valid(h) && #[trigger] starts_with_at(data@, pos as int, enc_header(h)) ==> r == Some(
                (h, (pos + enc_header(h).len()) as usize),
            ),
{
    let front = parse_header_front(data, pos);
    proof {
        assert forall|h: BlockHeader|
            header_valid(h) && #[trigger] starts_with_at(data@, pos as int, enc_header(h)) implies front
            == Some(((h.timestamp, h.nonce, h.prev_block_hash), (pos + enc_header_front(h.timestamp, h.nonce, h.prev_block_hash).len()) as usize)) by {
            lemma_header_split(data@, pos as int, h);
        }
    }
    let ((timestamp, nonce, prev_block_hash), p1) = match front {
        Some(x) => x,
        None => {
            return None;
        },
    };
    let back = parse_header_back(data, p1);
    proof {
        assert forall|h: BlockHeader|
            header_valid(h) && #[trigger] starts_with_at(data@, pos as int, enc_header(h)) implies back
            == Some(((h.merkle_root.0, h.target), (p1 + enc_header_back(h.merkle_root.0, h.target).len()) as usize)) by {
            lemma_header_split(data@, pos as int, h);
        }
    }
    let ((merkle, target), p2) = match back {
        Some(x) => x,
        None => {
            return None;
        },
    };
    let header = BlockHeader { timestamp, nonce, prev_block_hash, merkle_root: MerkleRoot(merkle), target };
    proof {
        lemma_header_split(data@, pos as int, header);
        assert forall|h: BlockHeader| header_valid(h) && #[trigger] starts_with_at(data@, pos as int, enc_header(h)) implies h == header by {
            lemma_header_split(data@, pos as int, h);
        }
    }
    Some((header, p2))
}

/// A list of transactions, each of which reads back as itself.
pub fn parse_transactions(data: &[u8], pos: usize) -> (r: Option<(Vec<Transaction>, usize)>)
    ensures
        r matches Some((v, end)) ==> (forall|j: int|
            0 <= j < v@.len() ==> transaction_valid(#[trigger] tx_views(v@)[j])) && starts_with_at(
            data@,
            pos as int,
            enc_transactions(tx_views(v@)),
        ) && end == pos + enc_transactions(tx_views(v@)).len(),
        forall|s: Seq<TransactionView>|
            (forall|j: int| 0 <= j < s.len() ==> transaction_valid(#[trigger] s[j])) && #[trigger] starts_with_at(
                data@,
                pos as int,
                enc_transactions(s),
            ) ==> (r matches Some((v, end)) && tx_views(v@) == s && end == pos + enc_transactions(s).len()),
{
    let hd = parse_head(data, pos);
    proof {
        assert forall|s: Seq<TransactionView>| #[trigger] starts_with_at(data@, pos as int, enc_transactions(s)) implies hd
            == Some((4u8, s.len() as u64, (pos + array_head(s.len()).len()) as usize)) && s.len() == s.len() as u64 by {
            assert(data@.len() == data.len());
            lemma_starts_concat(data@, pos as int, array_head(s.len()), flatten(transaction_encs(s)));
            assert(s.len() <= flatten(transaction_encs(s)).len()) by {
                lemma_flatten_len_at_least(transaction_encs(s));
            }
        }
    }
    let (n, mut p) = match hd {
        Some((major, n, end)) => {
            if major != 4 {
                return None;
            }
            (n, end)
        },
        None => {
            return None;
        },
    };
    let mut v: Vec<Transaction> = Vec::new();
    let mut i: u64 = 0;
    proof {
        assert(transaction_encs(tx_views(v@)) =~= Seq::<Seq<u8>>::empty());
        assert(array_head(n as nat) + flatten(transaction_encs(tx_views(v@))) =~= array_head(n as nat));
    }
    while i < n
        invariant
            i <= n,
            v@.len() == i,
            forall|j: int| 0 <= j < v@.len() ==> transaction_valid(#[trigger] tx_views(v@)[j]),
            starts_with_at(data@, pos as int, array_head(n as nat) + flatten(transaction_encs(tx_views(v@)))),
            p == pos + (array_head(n as nat) + flatten(transaction_encs(tx_views(v@)))).len(),
            forall|s: Seq<TransactionView>|
                (forall|j: int| 0 <= j < s.len() ==> transaction_valid(#[trigger] s[j])) && #[trigger] starts_with_at(
                    data@,
                    pos as int,
                    enc_transactions(s),
                ) ==> s.len() == n && tx_views(v@) == s.take(i as int),
        decreases n - i,
    {
        let got = parse_transaction(data, p);
        proof {
            assert forall|s: Seq<TransactionView>|
                (forall|j: int| 0 <= j < s.len() ==> transaction_valid(#[trigger] s[j])) && #[trigger] starts_with_at(
                    data@,
                    pos as int,
                    enc_transactions(s),
                ) implies (got matches Some((t, e)) && t@ == s[i as int] && e == p + enc_transaction(s[i as int]).len()) by {
                lemma_list_item(data@, pos as int, array_head(n as nat), transaction_encs(s), i as int);
                assert(transaction_encs(s).take(i as int) =~= transaction_encs(tx_views(v@)));
                assert(transaction_valid(s[i as int]));
            }
        }
        match got {
            Some((t, e)) => {
                proof {
                    lemma_list_extend(
                        data@,
                        pos as int,
                        array_head(n as nat),
                        transaction_encs(tx_views(v@)),
                        enc_transaction(t@),
                    );
                }
                let ghost before = tx_views(v@);
                v.push(t);
                proof {
                    assert(tx_views(v@) =~= before.push(t@));
                    assert(transaction_encs(tx_views(v@)) =~= transaction_encs(before).push(enc_transaction(t@)));
                }
                p = e;
                proof {
                    assert forall|s: Seq<TransactionView>|
                        (forall|j: int| 0 <= j < s.len() ==> transaction_valid(#[trigger] s[j])) && #[trigger] starts_with_at(
                            data@,
                            pos as int,
                            enc_transactions(s),
                        ) implies tx_views(v@) == s.take(i + 1) by {
                        assert(before == s.take(i as int));
                        assert(tx_views(v@) =~= s.take(i + 1));
                    }
                    assert forall|j: int| 0 <= j < v@.len() implies transaction_valid(#[trigger] tx_views(v@)[j]) by {
                        if j < i {
                            assert(tx_views(v@)[j] == before[j]);
                        }
                    }
                }
            },
            None => {
                return None;
            },
        }
        i = i + 1;
    }
    proof {
        assert forall|s: Seq<TransactionView>|
            (forall|j: int| 0 <= j < s.len() ==> transaction_valid(#[trigger] s[j])) && #[trigger] starts_with_at(
                data@,
                pos as int,
                enc_transactions(s),
            ) implies tx_views(v@) == s by {
            assert(s.take(n as int) =~= s);
        }
        assert(enc_transactions(tx_views(v@)) =~= array_head(n as nat) + flatten(transaction_encs(tx_views(v@))));
    }
    Some((v, p))
}

proof fn lemma_block_layout(data: Seq<u8>, pos: int, b: BlockView)
    ensures
        starts_with_at(data, pos, enc_block(b)) <==> {
            let a = map_head(2) + enc_text(ascii("header"));
            let h = enc_header(b.header);
            let c = enc_text(ascii("transactions"));
            let d = enc_transactions(b.transactions);
            &&& starts_with_at(data, pos, a)
            &&& starts_with_at(data, pos + a.len(), h)
            &&& starts_with_at(data, pos + a.len() + h.len(), c)
            &&& starts_with_at(data, pos + a.len() + h.len() + c.len(), d)
        },
        enc_block(b).len() == (map_head(2) + enc_text(ascii("header"))).len() + enc_header(b.header).len()
            + enc_text(ascii("transactions")).len() + enc_transactions(b.transactions).len(),
{
    let a = map_head(2) + enc_text(ascii("header"));
    let h = enc_header(b.header);
    let c = enc_text(ascii("transactions"));
    let d = enc_transactions(b.transactions);
    assert(enc_block(b) =~= a + h + c + d);
    lemma_starts4(data, pos, a, h, c, d);
}

/// A block, where it reads back as itself.
pub fn parse_block(data: &[u8], pos: usize) -> (r: Option<(Block, usize)>)
    ensures
        r matches Some((b, end)) ==> block_valid(b@) && starts_with_at(data@, pos as int, enc_block(b@))
            && end == pos + enc_block(b@).len(),
        forall|b: BlockView|
            block_valid(b) && #[trigger] starts_with_at(data@, pos as int, enc_block(b)) ==> (r matches Some((c, end)) && c@ == b && end == pos + enc_block(b).len()),
{
    let mut t1: Vec<u8> = Vec::new();
    push_map_head(&mut t1, 2);
    push_field_name(&mut t1, "header");
    let t2 = field_token("transactions");
    proof {
        assert forall|b: BlockView| #[trigger] starts_with_at(data@, pos as int, enc_block(b)) implies starts_with_at(data@, pos as int, t1@) by {
            lemma_block_layout(data@, pos as int, b);
        }
    }
    if !expect(data, pos, t1.as_slice()) {
        return None;
    }
    let p1 = pos + t1.len();
    let (header, p2) = match parse_header(data, p1) {
        Some(x) => x,
        None => {
            proof {
                assert forall|b: BlockView| block_valid(b) implies !#[trigger] starts_with_at(data@, pos as int, enc_block(b)) by {
                    if starts_with_at(data@, pos as int, enc_block(b)) {
                        lemma_block_layout(data@, pos as int, b);
                    }
                }
            }
            return None;
        },
    };
    proof {
        assert forall|b: BlockView| block_valid(b) && #[trigger] starts_with_at(data@, pos as int, enc_block(b)) implies b.header == header && starts_with_at(data@, p2 as int, t2@) by {
            lemma_block_layout(data@, pos as int, b);
        }
    }
    if !expect(data, p2, t2.as_slice()) {
        return None;
    }
    let p3 = p2 + t2.len();
    let (transactions, p4) = match parse_transactions(data, p3) {
        Some(x) => x,
        None => {
            proof {
                assert forall|b: BlockView| block_valid(b) implies !#[trigger] starts_with_at(data@, pos as int, enc_block(b)) by {
                    if starts_with_at(data@, pos as int, enc_block(b)) {
                        lemma_block_layout(data@, pos as int, b);
                    }
                }
            }
            return None;
        },
    };
    let block = Block { header, transactions };
    proof {
        lemma_block_layout(data@, pos as int, block@);
        assert forall|b: BlockView| block_valid(b) && #[trigger] starts_with_at(data@, pos as int, enc_block(b)) implies block@ == b by {
            lemma_block_layout(data@, pos as int, b);
        }
    }
    Some((block, p4))
}

// ---- miner fees ----

/// The transactions after the first (the coinbase).
pub open spec fn after_coinbase(txs: Seq<TransactionView>) -> Seq<TransactionView> {
    if txs.len() == 0 {
        txs
    } else {
        txs.drop_first()
    }
}

/// The sum of the values of the outputs that `inputs` spend; `None` where one is unknown.
pub open spec fn inputs_value(inputs: Seq<TransactionInput>, utxos: UtxoEntries) -> Option<int>
    decreases inputs.len(),
{
    if inputs.len() == 0 {
        Some(0)
    } else {
        match (
            inputs_value(inputs.drop_last(), utxos),
            lookup(utxos, inputs.last().prev_transaction_output_hash),
        ) {
            (Some(t), Some(entry)) => Some(t + entry.1.value),
            _ => None,
        }
    }
}

/// The sum of the values spent before the first unknown input (all of them, if none is unknown).
pub open spec fn known_inputs_value(inputs: Seq<TransactionInput>, utxos: UtxoEntries) -> int
    decreases inputs.len(),
{
    if inputs.len() == 0 {
        0
    } else {
        match inputs_value(inputs.drop_last(), utxos) {
            Some(t) => match lookup(utxos, inputs.last().prev_transaction_output_hash) {
                Some(entry) => t + entry.1.value,
                None => t,
            },
            None => known_inputs_value(inputs.drop_last(), utxos),
        }
    }
}

/// The fee a transaction pays: what it spends less what it pays out.
pub open spec fn tx_fee(tx: TransactionView, utxos: UtxoEntries) -> Result<int, BtcError> {
    match inputs_value(tx.inputs, utxos) {
        None => Err(BtcError::UnknownInput),
        Some(i) => if outputs_total(tx.outputs) > i {
            Err(BtcError::Overspend)
        } else {
            Ok(i - outputs_total(tx.outputs))
        },
    }
}

/// Whether computing a transaction's fee overflows a `u64`.
pub open spec fn tx_fee_overflows(tx: TransactionView, utxos: UtxoEntries) -> bool {
    known_inputs_value(tx.inputs, utxos) > u64::MAX || (inputs_value(tx.inputs, utxos) is Some
        && outputs_total(tx.outputs) > u64::MAX)
}

/// The sum of the fees of `txs`, or the error of the first that has none.
pub open spec fn fees(txs: Seq<TransactionView>, utxos: UtxoEntries) -> Result<int, BtcError>
    decreases txs.len(),
{
    if txs.len() == 0 {
        Ok(0)
    } else {
        match fees(txs.drop_last(), utxos) {
            Err(e) => Err(e),
            Ok(acc) => match tx_fee(txs.last(), utxos) {
                Err(e) => Err(e),
                Ok(f) => Ok(acc + f),
            },
        }
    }
}

/// Whether summing the fees of `txs` overflows a `u64` before it ends.
pub open spec fn fees_overflow(txs: Seq<TransactionView>, utxos: UtxoEntries) -> bool
    decreases txs.len(),
{
    if txs.len() == 0 {
        false
    } else {
        fees_overflow(txs.drop_last(), utxos) || match fees(txs.drop_last(), utxos) {
            Ok(acc) => tx_fee_overflows(txs.last(), utxos) || match tx_fee(txs.last(), utxos) {
                Ok(f) => acc + f > u64::MAX,
                Err(_) => false,
            },
            Err(_) => false,
        }
    }
}

proof fn lemma_inputs_value_nonneg(inputs: Seq<TransactionInput>, utxos: UtxoEntries)
    ensures
        inputs_value(inputs, utxos) matches Some(v) ==> v >= 0,
        known_inputs_value(inputs, utxos) >= 0,
        inputs_value(inputs, utxos) matches Some(v) ==> known_inputs_value(inputs, utxos) == v,
    decreases inputs.len(),
{
    if inputs.len() > 0 {
        lemma_inputs_value_nonneg(inputs.drop_last(), utxos);
    }
}

/// Any sum of a complete prefix of the inputs is at most the known sum.
proof fn lemma_known_inputs_ge(inputs: Seq<TransactionInput>, utxos: UtxoEntries, k: int)
    requires
        0 <= k <= inputs.len(),
        inputs_value(inputs.take(k), utxos) is Some,
    ensures
        known_inputs_value(inputs, utxos) >= inputs_value(inputs.take(k), utxos)->0,
    decreases inputs.len(),
{
    lemma_inputs_value_nonneg(inputs, utxos);
    if k == inputs.len() {
        assert(inputs.take(k) =~= inputs);
    } else {
        let s = inputs.drop_last();
        assert(s.take(k) =~= inputs.take(k));
        lemma_known_inputs_ge(s, utxos, k);
        lemma_inputs_value_nonneg(s, utxos);
        lemma_inputs_value_nonneg(inputs, utxos);
    }
}

proof fn lemma_inputs_value_take(inputs: Seq<TransactionInput>, utxos: UtxoEntries, i: int)
    requires
        0 <= i < inputs.len(),
    ensures
        inputs_value(inputs.take(i + 1), utxos) == match (
            inputs_value(inputs.take(i), utxos),
            lookup(utxos, inputs[i].prev_transaction_output_hash),
        ) {
            (Some(t), Some(entry)) => Some(t + entry.1.value),
            _ => None,
        },
{
    assert(inputs.take(i + 1).drop_last() =~= inputs.take(i));
}

proof fn lemma_fees_take(txs: Seq<TransactionView>, utxos: UtxoEntries, i: int)
    requires
        0 <= i < txs.len(),
    ensures
        fees(txs.take(i + 1), utxos) == match fees(txs.take(i), utxos) {
            Err(e) => Err(e),
            Ok(acc) => match tx_fee(txs[i], utxos) {
                Err(e) => Err(e),
                Ok(f) => Ok(acc + f),
            },
        },
        fees_overflow(txs.take(i + 1), utxos) == (fees_overflow(txs.take(i), utxos) || match fees(
            txs.take(i),
            utxos,
        ) {
            Ok(acc) => tx_fee_overflows(txs[i], utxos) || match tx_fee(txs[i], utxos) {
                Ok(f) => acc + f > u64::MAX,
                Err(_) => false,
            },
            Err(_) => false,
        }),
{
    assert(txs.take(i + 1).drop_last() =~= txs.take(i));
}

/// Overflow of a prefix is overflow of the whole.
proof fn lemma_fees_overflow_prefix(txs: Seq<TransactionView>, utxos: UtxoEntries, k: int)
    requires
        0 <= k <= txs.len(),
        !fees_overflow(txs, utxos),
    ensures
        !fees_overflow(txs.take(k), utxos),
    decreases txs.len(),
{
    if k == txs.len() {
        assert(txs.take(k) =~= txs);
    } else {
        let s = txs.drop_last();
        assert(s.take(k) =~= txs.take(k));
        lemma_fees_overflow_prefix(s, utxos, k);
    }
}

proof fn lemma_fees_nonneg(txs: Seq<TransactionView>, utxos: UtxoEntries)
    ensures
        fees(txs, utxos) matches Ok(v) ==> v >= 0,
    decreases txs.len(),
{
    if txs.len() > 0 {
        lemma_fees_nonneg(txs.drop_last(), utxos);
    }
}

/// The values spent by `inputs`: `None` where a partial sum overflows a `u64`,
/// `Some(None)` where an input is unknown.
pub fn inputs_value_checked(inputs: &Vec<TransactionInput>, utxos: &HashIndex<(bool, TransactionOutput)>) -> (r: Option<Option<u64>>)
    ensures
        r is None <==> known_inputs_value(inputs@, utxos@) > u64::MAX,
        r matches Some(x) ==> match x {
            Some(v) => inputs_value(inputs@, utxos@) == Some(v as int),
            None => inputs_value(inputs@, utxos@) is None,
        },
{
    let mut sum: u64 = 0;
    let mut i: usize = 0;
    assert(inputs@.take(0) =~= Seq::<TransactionInput>::empty());
    while i < inputs.len()
        invariant
            i <= inputs.len(),
            inputs_value(inputs@.take(i as int), utxos@) == Some(sum as int),
        decreases inputs.len() - i,
    {
        proof {
            lemma_inputs_value_take(inputs@, utxos@, i as int);
        }
        match utxos.get(&inputs[i].prev_transaction_output_hash) {
            Some(entry) => {
                proof {
                    lemma_known_inputs_ge(inputs@, utxos@, i + 1);
                }
                match sum.checked_add(entry.1.value) {
                    Some(v) => {
                        sum = v;
                    },
                    None => {
                        return None;
                    },
                }
            },
            None => {
                proof {
                    assert forall|k: int| i < k <= inputs.len() implies inputs_value(
                        #[trigger] inputs@.take(k),
                        utxos@,
                    ) is None by {
                        lemma_none_extends(inputs@, utxos@, i + 1, k);
                    }
                    assert(inputs@.take(inputs.len() as int) =~= inputs@);
                    lemma_known_at_unknown(inputs@, utxos@, i as int);
                }
                return Some(None);
            },
        }
        i = i + 1;
    }
    assert(inputs@.take(inputs.len() as int) =~= inputs@);
    proof {
        lemma_inputs_value_nonneg(inputs@, utxos@);
    }
    Some(Some(sum))
}

/// Where the inputs before `i` are all known and input `i` is not, the known sum is theirs.
proof fn lemma_known_at_unknown(inputs: Seq<TransactionInput>, utxos: UtxoEntries, i: int)
    requires
        0 <= i < inputs.len(),
        inputs_value(inputs.take(i), utxos) is Some,
        lookup(utxos, inputs[i].prev_transaction_output_hash) is None,
    ensures
        known_inputs_value(inputs, utxos) == inputs_value(inputs.take(i), utxos)->0,
    decreases inputs.len(),
{
    let s = inputs.drop_last();
    if i == inputs.len() - 1 {
        assert(s =~= inputs.take(i));
    } else {
        assert(s.take(i) =~= inputs.take(i));
        assert(s[i] == inputs[i]);
        lemma_known_at_unknown(s, utxos, i);
        assert(inputs.take(i + 1) =~= s.take(i + 1));
        lemma_inputs_value_take(s, utxos, i);
        lemma_none_extends(s, utxos, i + 1, s.len() as int);
        assert(s.take(s.len() as int) =~= s);
    }
}

/// The sum of the outputs' values, `None` where it overflows a `u64`.
pub fn outputs_total_checked(outputs: &Vec<TransactionOutput>) -> (r: Option<u64>)
    ensures
        r is None <==> outputs_total(outputs@) > u64::MAX,
        r matches Some(v) ==> v == outputs_total(outputs@),
{
    let mut sum: u64 = 0;
    let mut i: usize = 0;
    while i < outputs.len()
        invariant
            i <= outputs.len(),
            sum == outputs_total(outputs@.take(i as int)),
        decreases outputs.len() - i,
    {
        proof {
            lemma_outputs_total_take(outputs@, i as int);
            lemma_outputs_total_monotone(outputs@, i + 1);
        }
        match sum.checked_add(outputs[i].value) {
            Some(v) => {
                sum = v;
            },
            None => {
                return None;
            },
        }
        i = i + 1;
    }
    assert(outputs@.take(outputs.len() as int) =~= outputs@);
    Some(sum)
}

/// The fees of `transactions[from..]`: `None` where the sum overflows a `u64` first.
pub fn fees_checked(
    transactions: &Vec<Transaction>,
    from: usize,
    utxos: &HashIndex<(bool, TransactionOutput)>,
) -> (r: Option<Result<u64, BtcError>>)
    requires
        from <= transactions.len(),
    ensures
        r is None <==> fees_overflow(tx_views(transactions@).subrange(from as int, transactions.len() as int), utxos@),
        r matches Some(res) ==> match (
            res,
            fees(tx_views(transactions@).subrange(from as int, transactions.len() as int), utxos@),
        ) {
            (Ok(a), Ok(b)) => a == b,
            (Err(e1), Err(e2)) => e1 == e2,
            _ => false,
        },
{
    let ghost rest = tx_views(transactions@).subrange(from as int, transactions.len() as int);
    let n = transactions.len();
    let mut total: u64 = 0;
    let mut i: usize = from;
    assert(rest.take(0) =~= Seq::<TransactionView>::empty());
    while i < n
        invariant
            n == transactions.len(),
            from <= i <= n,
            rest == tx_views(transactions@).subrange(from as int, n as int),
            rest.len() == n - from,
            fees(rest.take(i - from), utxos@) == Ok::<int, BtcError>(total as int),
            !fees_overflow(rest.take(i - from), utxos@),
        decreases n - i,
    {
        let tx = &transactions[i];
        let ghost k = i - from;
        proof {
            assert(rest[k] == tx@);
            lemma_fees_take(rest, utxos@, k);
            lemma_fees_nonneg(rest.take(k), utxos@);
        }
        let input_total = match inputs_value_checked(&tx.inputs, utxos) {
            None => {
                proof {
                    lemma_fees_overflow_extends(rest, utxos@, k + 1, rest.len() as int);
                    assert(rest.take(rest.len() as int) =~= rest);
                }
                return None;
            },
            Some(None) => {
                proof {
                    lemma_fees_error_extends(rest, utxos@, k + 1, rest.len() as int);
                    lemma_fees_no_overflow_after_error(rest, utxos@, k + 1, rest.len() as int);
                    assert(rest.take(rest.len() as int) =~= rest);
                }
                return Some(Err(BtcError::UnknownInput));
            },
            Some(Some(v)) => v,
        };
        let output_total = match outputs_total_checked(&tx.outputs) {
            None => {
                proof {
                    lemma_fees_overflow_extends(rest, utxos@, k + 1, rest.len() as int);
                    assert(rest.take(rest.len() as int) =~= rest);
                }
                return None;
            },
            Some(v) => v,
        };
        if output_total > input_total {
            proof {
                lemma_fees_error_extends(rest, utxos@, k + 1, rest.len() as int);
                lemma_fees_no_overflow_after_error(rest, utxos@, k + 1, rest.len() as int);
                assert(rest.take(rest.len() as int) =~= rest);
            }
            return Some(Err(BtcError::Overspend));
        }
        match total.checked_add(input_total - output_total) {
            Some(t) => {
                total = t;
            },
            None => {
                proof {
                    lemma_fees_overflow_extends(rest, utxos@, k + 1, rest.len() as int);
                    assert(rest.take(rest.len() as int) =~= rest);
                }
                return None;
            },
        }
        i = i + 1;
    }
    assert(rest.take(n - from) =~= rest);
    Some(Ok(total))
}

proof fn lemma_fees_overflow_extends(txs: Seq<TransactionView>, utxos: UtxoEntries, j: int, k: int)
    requires
        0 < j <= k <= txs.len(),
        fees_overflow(txs.take(j), utxos),
    ensures
        fees_overflow(txs.take(k), utxos),
    decreases k - j,
{
    if k > j {
        lemma_fees_overflow_extends(txs, utxos, j, k - 1);
        lemma_fees_take(txs, utxos, k - 1);
    }
}

proof fn lemma_fees_no_overflow_after_error(txs: Seq<TransactionView>, utxos: UtxoEntries, j: int, k: int)
    requires
        0 < j <= k <= txs.len(),
        fees(txs.take(j), utxos) is Err,
        !fees_overflow(txs.take(j), utxos),
    ensures
        !fees_overflow(txs.take(k), utxos),
    decreases k - j,
{
    if k > j {
        lemma_fees_no_overflow_after_error(txs, utxos, j, k - 1);
        lemma_fees_error_extends(txs, utxos, j, k - 1);
        lemma_fees_take(txs, utxos, k - 1);
    }
}

proof fn lemma_none_extends(inputs: Seq<TransactionInput>, utxos: UtxoEntries, j: int, k: int)
    requires
        0 < j <= k <= inputs.len(),
        inputs_value(inputs.take(j), utxos) is None,
    ensures
        inputs_value(inputs.take(k), utxos) is None,
    decreases k - j,
{
    if k > j {
        lemma_none_extends(inputs, utxos, j, k - 1);
        lemma_inputs_value_take(inputs, utxos, k - 1);
    }
}

impl BlockHeader {
    pub fn new(
        timestamp: Timestamp,
        nonce: u64,
        prev_block_hash: crate::sha256::Hash,
        merkle_root: MerkleRoot,
        target: crate::sha256::Hash,
    ) -> (r: BlockHeader)
        ensures
            r == (BlockHeader { timestamp, nonce, prev_block_hash, merkle_root, target }),
    {
        BlockHeader { timestamp, nonce, prev_block_hash, merkle_root, target }
    }

    pub fn hash(&self) -> (r: crate::sha256::Hash)
        ensures
            r == header_hash(*self),
    {
        crate::sha256::Hash::hash(self)
    }

    /// Tries `max_rounds` nonces from the current one, counting up with wrap-around,
    /// and stops at the first whose hash meets the target.
    pub fn mine(&mut self, max_rounds: u64) -> (r: bool)
        ensures
            r ==> exists|k: int|
                0 <= k < max_rounds && *final(self) == with_nonce(
                    *old(self),
                    #[trigger] nonce_after(old(self).nonce, k),
                ) && meets_target(*final(self)) && forall|j: int|
                    0 <= j < k ==> !meets_target(
                        #[trigger] with_nonce(*old(self), nonce_after(old(self).nonce, j)),
                    ),
            !r ==> *final(self) == with_nonce(*old(self), nonce_after(old(self).nonce, max_rounds as int))
                && forall|j: int|
                0 <= j < max_rounds ==> !meets_target(
                    #[trigger] with_nonce(*old(self), nonce_after(old(self).nonce, j)),
                ),
    {
        let ghost start = *self;
        let mut round: u64 = 0;
        assert(start.nonce == nonce_after(start.nonce, 0));
        while round < max_rounds
            invariant
                start == *old(self),
                round <= max_rounds,
                *self == with_nonce(start, nonce_after(start.nonce, round as int)),
                forall|j: int|
                    0 <= j < round ==> !meets_target(
                        #[trigger] with_nonce(start, nonce_after(start.nonce, j)),
                    ),
            decreases max_rounds - round,
        {
            if self.hash().matches_target(self.target) {
                proof {
                    let k = round as int;
                    assert(meets_target(*self));
                    assert(0 <= k < max_rounds && *self == with_nonce(start, nonce_after(start.nonce, k))
                        && meets_target(*self) && forall|j: int|
                        0 <= j < k ==> !meets_target(
                            #[trigger] with_nonce(start, nonce_after(start.nonce, j)),
                        ));
                    assert(exists|k2: int|
                        0 <= k2 < max_rounds && *self == with_nonce(start, #[trigger] nonce_after(start.nonce, k2))
                            && meets_target(*self) && forall|j: int|
                            0 <= j < k2 ==> !meets_target(
                                #[trigger] with_nonce(start, nonce_after(start.nonce, j)),
                            ));
                }
                return true;
            }
            proof {
                assert(nonce_after(start.nonce, round + 1) == self.nonce.wrapping_add(1)) by {
                    let n = start.nonce as int + round;
                    assert(self.nonce == n % 0x1_0000_0000_0000_0000);
                    assert((n + 1) % 0x1_0000_0000_0000_0000 == if n % 0x1_0000_0000_0000_0000
                        == 0xffff_ffff_ffff_ffff {
                        0
                    } else {
                        n % 0x1_0000_0000_0000_0000 + 1
                    }) by (nonlinear_arith)
                        requires
                            n >= 0,
                    ;
                }
            }
            self.nonce = self.nonce.wrapping_add(1);
            round = round + 1;
        }
        false
    }
}

impl Block {
    pub fn new(header: BlockHeader, transactions: Vec<Transaction>) -> (r: Block)
        ensures
            r.header == header,
            r.transactions == transactions,
    {
        Block { header, transactions }
    }

    pub fn hash(&self) -> (r: crate::sha256::Hash)
        ensures
            r == header_hash(self.header),
    {
        self.header.hash()
    }

    pub fn mine(&mut self, max_rounds: u64) -> (r: bool)
        ensures
            final(self).transactions == old(self).transactions,
            r ==> exists|k: int|
                0 <= k < max_rounds && final(self).header == with_nonce(
                    old(self).header,
                    #[trigger] nonce_after(old(self).header.nonce, k),
                ) && meets_target(final(self).header) && forall|j: int|
                    0 <= j < k ==> !meets_target(
                        #[trigger] with_nonce(old(self).header, nonce_after(old(self).header.nonce, j)),
                    ),
            !r ==> final(self).header == with_nonce(
                old(self).header,
                nonce_after(old(self).header.nonce, max_rounds as int),
            ) && forall|j: int|
                0 <= j < max_rounds ==> !meets_target(
                    #[trigger] with_nonce(old(self).header, nonce_after(old(self).header.nonce, j)),
                ),
    {
        self.header.mine(max_rounds)
    }

    /// The header commits to the block's transactions.
    pub fn validate_merkle_root(&self) -> (r: Result<(), BtcError>)
        ensures
            r is Ok <==> self.header.merkle_root == merkle_root(self@.transactions),
            r matches Err(e) ==> e is InvalidMerkleRoot,
    {
        let expected = MerkleRoot::calculate(self.transactions.as_slice());
        if self.header.merkle_root == expected {
            Ok(())
        } else {
            Err(BtcError::InvalidMerkleRoot)
        }
    }

    /// The header's hash meets the header's target.
    pub fn validate_proof_of_work(&self) -> (r: Result<(), BtcError>)
        ensures
            r is Ok <==> meets_target(self.header),
            r matches Err(e) ==> e is InvalidProofOfWork,
    {
        if self.hash().matches_target(self.header.target) {
            Ok(())
        } else {
            Err(BtcError::InvalidProofOfWork)
        }
    }

    /// The fees of all transactions but the coinbase, against the unspent outputs `utxos`.
    pub fn calculate_miner_fees(&self, utxos: &HashIndex<(bool, TransactionOutput)>) -> (r: Result<u64, BtcError>)
        requires
            !fees_overflow(after_coinbase(self@.transactions), utxos@),
        ensures
            match (r, fees(after_coinbase(self@.transactions), utxos@)) {
                (Ok(a), Ok(b)) => a == b,
                (Err(e1), Err(e2)) => e1 == e2,
                _ => false,
            },
    {
        if self.transactions.len() == 0 {
            return Ok(0);
        }
        proof {
            assert(after_coinbase(self@.transactions) =~= tx_views(self.transactions@).subrange(
                1,
                self.transactions.len() as int,
            ));
        }
        match fees_checked(&self.transactions, 1, utxos) {
            Some(r) => r,
            None => Ok(0),
        }
    }
}

proof fn lemma_fees_error_extends(txs: Seq<TransactionView>, utxos: UtxoEntries, j: int, k: int)
    requires
        0 < j <= k <= txs.len(),
        fees(txs.take(j), utxos) is Err,
    ensures
        fees(txs.take(k), utxos) == fees(txs.take(j), utxos),
    decreases k - j,
{
    if k > j {
        lemma_fees_error_extends(txs, utxos, j, k - 1);
        lemma_fees_take(txs, utxos, k - 1);
    }
}

} // verus!
