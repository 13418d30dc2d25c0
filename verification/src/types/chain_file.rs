//! The chain as the node stores it: its blocks, its unspent outputs, its waiting
//! transactions and its target, as a map of those four fields.
use crate::cbor::{
    array_head, ascii, enc_bool, enc_text, flatten, lemma_append5, map_head, push_array_head,
    push_bool, push_field_name, push_head, push_map_head, starts_with_at, Encodable, MAJOR_MAP,
};
use crate::decode::{
    expect, lemma_flatten_len_at_least, lemma_list_extend, lemma_list_item, lemma_starts4,
    lemma_starts6, lemma_starts_concat, parse_bool, parse_head,
};
use crate::error::BtcError;
use crate::sha256::{enc_hash, parse_hash};
use crate::timestamp::{enc_timestamp, parse_timestamp, timestamp_valid, Timestamp};
use crate::types::block::{
    block_valid, block_views, enc_block, parse_block, Block, BlockView, UtxoEntries,
};
use crate::types::blockchain::{Blockchain, ChainView, MempoolEntries, MempoolEntry};
use crate::types::index::{has_key, insert_entry, keys_distinct, HashIndex};
use crate::types::transaction::{
    enc_output, enc_transaction, field_token, output_valid, parse_output, parse_transaction,
    transaction_valid, Transaction, TransactionOutput, TransactionView,
};
use crate::util::Saveable;
use vstd::prelude::*;

verus! {

/// A waiting transaction as stored: its hash, the transaction, when it arrived.
pub type PendingEntries = Seq<(crate::sha256::Hash, TransactionView, Timestamp)>;

pub open spec fn pending_views(s: MempoolEntries) -> PendingEntries {
    s.map_values(
        |e: (crate::sha256::Hash, MempoolEntry)| (e.0, e.1.transaction@, e.1.received_at),
    )
}

pub open spec fn block_encs(s: Seq<BlockView>) -> Seq<Seq<u8>> {
    s.map_values(|b: BlockView| enc_block(b))
}

pub open spec fn enc_blocks(s: Seq<BlockView>) -> Seq<u8> {
    array_head(s.len()) + flatten(block_encs(s))
}

/// An unspent output under its hash: the hash, then its mark and the output as a pair.
pub open spec fn enc_utxo_entry(e: (crate::sha256::Hash, (bool, TransactionOutput))) -> Seq<u8> {
    enc_hash(e.0) + array_head(2) + enc_bool(e.1.0) + enc_output(e.1.1)
}

pub open spec fn utxo_encs(s: UtxoEntries) -> Seq<Seq<u8>> {
    s.map_values(|e: (crate::sha256::Hash, (bool, TransactionOutput))| enc_utxo_entry(e))
}

pub open spec fn enc_utxos(s: UtxoEntries) -> Seq<u8> {
    map_head(s.len()) + flatten(utxo_encs(s))
}

/// A waiting transaction under its hash: the hash, then a map of the transaction and
/// its arrival time.
pub open spec fn enc_pending_entry(e: (crate::sha256::Hash, TransactionView, Timestamp)) -> Seq<u8> {
    enc_hash(e.0) + (map_head(2) + enc_text(ascii("transaction"))) + enc_transaction(e.1) + enc_text(
        ascii("received_at"),
    ) + enc_timestamp(e.2)
}

pub open spec fn pending_encs(s: PendingEntries) -> Seq<Seq<u8>> {
    s.map_values(|e: (crate::sha256::Hash, TransactionView, Timestamp)| enc_pending_entry(e))
}

pub open spec fn enc_pending(s: PendingEntries) -> Seq<u8> {
    map_head(s.len()) + flatten(pending_encs(s))
}

/// The blocks and the unspent outputs, with the field names before them.
pub open spec fn enc_chain_front(blocks: Seq<BlockView>, utxos: UtxoEntries) -> Seq<u8> {
    (map_head(4) + enc_text(ascii("blocks"))) + enc_blocks(blocks) + enc_text(ascii("utxos"))
        + enc_utxos(utxos)
}

/// The waiting transactions and the target, with the field names before them.
pub open spec fn enc_chain_back(pending: PendingEntries, target: crate::sha256::Hash) -> Seq<u8> {
    enc_text(ascii("mempool")) + enc_pending(pending) + enc_text(ascii("target")) + enc_hash(target)
}

/// The stored form of the chain.
pub open spec fn enc_chain(c: ChainView) -> Seq<u8> {
    enc_chain_front(block_views(c.blocks), c.utxos) + enc_chain_back(pending_views(c.mempool), c.target)
}

pub open spec fn utxos_valid(s: UtxoEntries) -> bool {
    &&& keys_distinct(s)
    &&& forall|j: int| 0 <= j < s.len() ==> output_valid(#[trigger] s[j].1.1)
}

pub open spec fn pending_valid(s: PendingEntries) -> bool {
    &&& forall|i: int, j: int| 0 <= i < j < s.len() ==> #[trigger] s[i].0 != #[trigger] s[j].0
    &&& forall|j: int|
        0 <= j < s.len() ==> transaction_valid(#[trigger] s[j].1) && timestamp_valid(
            s[j].2.secs(),
            s[j].2.nanos(),
        )
}

pub open spec fn blocks_valid(s: Seq<BlockView>) -> bool {
    forall|j: int| 0 <= j < s.len() ==> block_valid(#[trigger] s[j])
}

/// A chain that reads back as itself.
pub open spec fn chain_valid(c: ChainView) -> bool {
    &&& blocks_valid(block_views(c.blocks))
    &&& utxos_valid(c.utxos)
    &&& pending_valid(pending_views(c.mempool))
}

// ---- writing ----

fn encode_blocks(s: &Vec<Block>, out: &mut Vec<u8>)
    ensures
        final(out)@ == old(out)@ + enc_blocks(block_views(s@)),
{
    push_array_head(out, s.len());
    let ghost start = out@;
    let ghost views = block_views(s@);
    let mut i: usize = 0;
    while i < s.len()
        invariant
            i <= s.len(),
            views == block_views(s@),
            out@ == start + flatten(block_encs(views.take(i as int))),
        decreases s.len() - i,
    {
        let ghost before = out@;
        s[i].encode(out);
        proof {
            assert(block_encs(views.take(i + 1)) =~= block_encs(views.take(i as int)).push(
                enc_block(views[i as int]),
            ));
            crate::cbor::lemma_flatten_push(block_encs(views.take(i as int)), enc_block(views[i as int]));
            assert(out@ =~= start + flatten(block_encs(views.take(i + 1))));
        }
        i = i + 1;
    }
    assert(views.take(s.len() as int) =~= views);
    assert(final(out)@ =~= old(out)@ + enc_blocks(views));
}

fn encode_utxos(s: &HashIndex<(bool, TransactionOutput)>, out: &mut Vec<u8>)
    ensures
        final(out)@ == old(out)@ + enc_utxos(s@),
{
    let n = s.len();
    push_head(out, MAJOR_MAP, n as u64);
    let ghost start = out@;
    let mut i: usize = 0;
    while i < n
        invariant
            n == s@.len(),
            i <= n,
            out@ == start + flatten(utxo_encs(s@.take(i as int))),
        decreases n - i,
    {
        let e = s.entry(i);
        let ghost before = out@;
        e.0.encode(out);
        push_array_head(out, 2);
        push_bool(out, e.1.0);
        e.1.1.encode(out);
        proof {
            assert(out@ =~= before + enc_utxo_entry(s@[i as int]));
            assert(utxo_encs(s@.take(i + 1)) =~= utxo_encs(s@.take(i as int)).push(
                enc_utxo_entry(s@[i as int]),
            ));
            crate::cbor::lemma_flatten_push(utxo_encs(s@.take(i as int)), enc_utxo_entry(s@[i as int]));
            assert(out@ =~= start + flatten(utxo_encs(s@.take(i + 1))));
        }
        i = i + 1;
    }
    assert(s@.take(n as int) =~= s@);
    assert(final(out)@ =~= old(out)@ + enc_utxos(s@));
}

fn encode_pending(s: &HashIndex<MempoolEntry>, out: &mut Vec<u8>)
    ensures
        final(out)@ == old(out)@ + enc_pending(pending_views(s@)),
{
    let n = s.len();
    push_head(out, MAJOR_MAP, n as u64);
    let ghost start = out@;
    let ghost views = pending_views(s@);
    let mut i: usize = 0;
    while i < n
        invariant
            n == s@.len(),
            views == pending_views(s@),
            i <= n,
            out@ == start + flatten(pending_encs(views.take(i as int))),
        decreases n - i,
    {
        let e = s.entry(i);
        let ghost before = out@;
        e.0.encode(out);
        push_map_head(out, 2);
        push_field_name(out, "transaction");
        e.1.transaction.encode(out);
        push_field_name(out, "received_at");
        let text = e.1.received_at.to_rfc3339();
        crate::cbor::push_text(out, text.as_slice());
        proof {
            assert(out@ =~= before + enc_pending_entry(views[i as int]));
            assert(pending_encs(views.take(i + 1)) =~= pending_encs(views.take(i as int)).push(
                enc_pending_entry(views[i as int]),
            ));
            crate::cbor::lemma_flatten_push(pending_encs(views.take(i as int)), enc_pending_entry(views[i as int]));
            assert(out@ =~= start + flatten(pending_encs(views.take(i + 1))));
        }
        i = i + 1;
    }
    assert(views.take(n as int) =~= views);
    assert(final(out)@ =~= old(out)@ + enc_pending(views));
}

fn encode_chain_front(blocks: &Vec<Block>, utxos: &HashIndex<(bool, TransactionOutput)>, out: &mut Vec<u8>)
    ensures
        final(out)@ == old(out)@ + enc_chain_front(block_views(blocks@), utxos@),
{
    push_map_head(out, 4);
    push_field_name(out, "blocks");
    encode_blocks(blocks, out);
    push_field_name(out, "utxos");
    encode_utxos(utxos, out);
    proof {
        lemma_append5(
            old(out)@,
            map_head(4),
            enc_text(ascii("blocks")),
            enc_blocks(block_views(blocks@)),
            enc_text(ascii("utxos")),
            enc_utxos(utxos@),
        );
    }
}

fn encode_chain_back(mempool: &HashIndex<MempoolEntry>, target: &crate::sha256::Hash, out: &mut Vec<u8>)
    ensures
        final(out)@ == old(out)@ + enc_chain_back(pending_views(mempool@), *target),
{
    push_field_name(out, "mempool");
    encode_pending(mempool, out);
    push_field_name(out, "target");
    target.encode(out);
    proof {
        assert(final(out)@ =~= old(out)@ + enc_chain_back(pending_views(mempool@), *target));
    }
}

fn encode_chain(c: &Blockchain, out: &mut Vec<u8>)
    ensures
        final(out)@ == old(out)@ + enc_chain(c@),
{
    let ghost start = out@;
    encode_chain_front(c.blocks(), c.utxos(), out);
    let ghost mid = out@;
    let target = c.target();
    encode_chain_back(c.mempool(), &target, out);
    proof {
        let f = enc_chain_front(block_views(c@.blocks), c@.utxos);
        let b = enc_chain_back(pending_views(c@.mempool), c@.target);
        assert(out@ == start + f + b);
        assert(start + f + b =~= start + (f + b));
    }
}

// ---- reading ----

#[verifier::rlimit(100)]
fn parse_blocks(data: &[u8], pos: usize) -> (r: Option<(Vec<Block>, usize)>)
    ensures
        r matches Some((v, end)) ==> blocks_valid(block_views(v@)) && starts_with_at(
            data@,
            pos as int,
            enc_blocks(block_views(v@)),
        ) && end == pos + enc_blocks(block_views(v@)).len(),
        forall|s: Seq<BlockView>|
            blocks_valid(s) && #[trigger] starts_with_at(data@, pos as int, enc_blocks(s)) ==> (r matches Some((v, end))
                && block_views(v@) == s && end == pos + enc_blocks(s).len()),
{
    let hd = parse_head(data, pos);
    proof {
        assert forall|s: Seq<BlockView>| #[trigger] starts_with_at(data@, pos as int, enc_blocks(s)) implies hd
            == Some((4u8, s.len() as u64, (pos + array_head(s.len()).len()) as usize)) && s.len() == s.len() as u64 by {
            assert(data@.len() == data.len());
            lemma_starts_concat(data@, pos as int, array_head(s.len()), flatten(block_encs(s)));
            lemma_flatten_len_at_least(block_encs(s));
        }
    }
    let (n, mut p) = match hd {
        Some((major, n, end)) => {
            if major != 4 {
                return None;
            }
            (n, end)
        },
        None => {
            return None;
        },
    };
    let mut v: Vec<Block> = Vec::new();
    let mut i: u64 = 0;
    proof {
        assert(block_encs(block_views(v@)) =~= Seq::<Seq<u8>>::empty());
        assert(array_head(n as nat) + flatten(block_encs(block_views(v@))) =~= array_head(n as nat));
    }
    while i < n
        invariant
            i <= n,
            v@.len() == i,
            blocks_valid(block_views(v@)),
            starts_with_at(data@, pos as int, array_head(n as nat) + flatten(block_encs(block_views(v@)))),
            p == pos + (array_head(n as nat) + flatten(block_encs(block_views(v@)))).len(),
            forall|s: Seq<BlockView>|
                blocks_valid(s) && #[trigger] starts_with_at(data@, pos as int, enc_blocks(s)) ==> s.len()
                    == n && block_views(v@) == s.take(i as int),
        decreases n - i,
    {
        let got = parse_block(data, p);
        proof {
            assert forall|s: Seq<BlockView>|
                blocks_valid(s) && #[trigger] starts_with_at(data@, pos as int, enc_blocks(s)) implies (got matches Some((b, e))
                && b@ == s[i as int] && e == p + enc_block(s[i as int]).len()) by {
                lemma_list_item(data@, pos as int, array_head(n as nat), block_encs(s), i as int);
                assert(block_encs(s).take(i as int) =~= block_encs(block_views(v@)));
                assert(block_valid(s[i as int]));
            }
        }
        match got {
            Some((b, e)) => {
                proof {
                    lemma_list_extend(data@, pos as int, array_head(n as nat), block_encs(block_views(v@)), enc_block(b@));
                }
                let ghost before = block_views(v@);
                v.push(b);
                proof {
                    assert(block_views(v@) =~= before.push(b@));
                    assert(block_encs(block_views(v@)) =~= block_encs(before).push(enc_block(b@)));
                }
                p = e;
                proof {
                    assert forall|s: Seq<BlockView>|
                        blocks_valid(s) && #[trigger] starts_with_at(data@, pos as int, enc_blocks(s)) implies block_views(v@)
                        == s.take(i + 1) by {
                        assert(before == s.take(i as int));
                        assert(block_views(v@) =~= s.take(i + 1));
                    }
                    assert forall|j: int| 0 <= j < v@.len() implies block_valid(#[trigger] block_views(v@)[j]) by {
                        if j < i {
                            assert(block_views(v@)[j] == before[j]);
                        }
                    }
                }
            },
            None => {
                return None;
            },
        }
        i = i + 1;
    }
    proof {
        assert forall|s: Seq<BlockView>|
            blocks_valid(s) && #[trigger] starts_with_at(data@, pos as int, enc_blocks(s)) implies block_views(v@) == s by {
            assert(s.take(n as int) =~= s);
        }
        assert(enc_blocks(block_views(v@)) =~= array_head(n as nat) + flatten(block_encs(block_views(v@))));
    }
    Some((v, p))
}

fn parse_utxo_entry(data: &[u8], pos: usize) -> (r: Option<((crate::sha256::Hash, (bool, TransactionOutput)), usize)>)
    ensures
        r matches Some((e, end)) ==> output_valid(e.1.1) && starts_with_at(data@, pos as int, enc_utxo_entry(e))
            && end == pos + enc_utxo_entry(e).len(),
        forall|e: (crate::sha256::Hash, (bool, TransactionOutput))|
            output_valid(e.1.1) && #[trigger] starts_with_at(data@, pos as int, enc_utxo_entry(e)) ==> r
                == Some((e, (pos + enc_utxo_entry(e).len()) as usize)),
{
    let mut pair: Vec<u8> = Vec::new();
    push_array_head(&mut pair, 2);
    let (key, p1) = match parse_hash(data, pos) {
        Some(x) => x,
        None => {
            proof {
                assert forall|e: (crate::sha256::Hash, (bool, TransactionOutput))| !#[trigger] starts_with_at(data@, pos as int, enc_utxo_entry(e)) by {
                    lemma_starts4(data@, pos as int, enc_hash(e.0), pair@, enc_bool(e.1.0), enc_output(e.1.1));
                }
            }
            return None;
        },
    };
    proof {
        assert forall|e: (crate::sha256::Hash, (bool, TransactionOutput))| #[trigger] starts_with_at(data@, pos as int, enc_utxo_entry(e)) implies e.0 == key && starts_with_at(data@, p1 as int, pair@) by {
            lemma_starts4(data@, pos as int, enc_hash(e.0), pair@, enc_bool(e.1.0), enc_output(e.1.1));
        }
    }
    if !expect(data, p1, pair.as_slice()) {
        return None;
    }
    let p2 = p1 + pair.len();
    let (mark, p3) = match parse_bool(data, p2) {
        Some(x) => x,
        None => {
            proof {
                assert forall|e: (crate::sha256::Hash, (bool, TransactionOutput))| !#[trigger] starts_with_at(data@, pos as int, enc_utxo_entry(e)) by {
                    lemma_starts4(data@, pos as int, enc_hash(e.0), pair@, enc_bool(e.1.0), enc_output(e.1.1));
                }
            }
            return None;
        },
    };
    proof {
        assert forall|e: (crate::sha256::Hash, (bool, TransactionOutput))| #[trigger] starts_with_at(data@, pos as int, enc_utxo_entry(e)) implies e.1.0 == mark by {
            lemma_starts4(data@, pos as int, enc_hash(e.0), pair@, enc_bool(e.1.0), enc_output(e.1.1));
        }
    }
    let (o, p4) = match parse_output(data, p3) {
        Some(x) => x,
        None => {
            proof {
                assert forall|e: (crate::sha256::Hash, (bool, TransactionOutput))| output_valid(e.1.1) implies !#[trigger] starts_with_at(data@, pos as int, enc_utxo_entry(e)) by {
                    lemma_starts4(data@, pos as int, enc_hash(e.0), pair@, enc_bool(e.1.0), enc_output(e.1.1));
                }
            }
            return None;
        },
    };
    let entry = (key, (mark, o));
    proof {
        lemma_starts4(data@, pos as int, enc_hash(key), pair@, enc_bool(mark), enc_output(o));
        assert forall|e: (crate::sha256::Hash, (bool, TransactionOutput))| output_valid(e.1.1) && #[trigger] starts_with_at(data@, pos as int, enc_utxo_entry(e)) implies e == entry by {
            lemma_starts4(data@, pos as int, enc_hash(e.0), pair@, enc_bool(e.1.0), enc_output(e.1.1));
        }
    }
    Some((entry, p4))
}

fn parse_utxos(data: &[u8], pos: usize) -> (r: Option<(HashIndex<(bool, TransactionOutput)>, usize)>)
    ensures
        r matches Some((v, end)) ==> utxos_valid(v@) && starts_with_at(data@, pos as int, enc_utxos(v@))
            && end == pos + enc_utxos(v@).len(),
        forall|s: UtxoEntries|
            utxos_valid(s) && #[trigger] starts_with_at(data@, pos as int, enc_utxos(s)) ==> (r matches Some((v, end))
                && v@ == s && end == pos + enc_utxos(s).len()),
{
    let hd = parse_head(data, pos);
    proof {
        assert forall|s: UtxoEntries| #[trigger] starts_with_at(data@, pos as int, enc_utxos(s)) implies hd
            == Some((5u8, s.len() as u64, (pos + map_head(s.len()).len()) as usize)) && s.len() == s.len() as u64 by {
            assert(data@.len() == data.len());
            lemma_starts_concat(data@, pos as int, map_head(s.len()), flatten(utxo_encs(s)));
            lemma_flatten_len_at_least(utxo_encs(s));
        }
    }
    let (n, mut p) = match hd {
        Some((major, n, end)) => {
            if major != 5 {
                return None;
            }
            (n, end)
        },
        None => {
            return None;
        },
    };
    let mut v: HashIndex<(bool, TransactionOutput)> = HashIndex::new();
    let mut i: u64 = 0;
    proof {
        assert(utxo_encs(v@) =~= Seq::<Seq<u8>>::empty());
        assert(map_head(n as nat) + flatten(utxo_encs(v@)) =~= map_head(n as nat));
    }
    while i < n
        invariant
            i <= n,
            v@.len() == i,
            utxos_valid(v@),
            starts_with_at(data@, pos as int, map_head(n as nat) + flatten(utxo_encs(v@))),
            p == pos + (map_head(n as nat) + flatten(utxo_encs(v@))).len(),
            forall|s: UtxoEntries|
                utxos_valid(s) && #[trigger] starts_with_at(data@, pos as int, enc_utxos(s)) ==> s.len()
                    == n && v@ == s.take(i as int),
        decreases n - i,
    {
        let got = parse_utxo_entry(data, p);
        proof {
            assert forall|s: UtxoEntries|
                utxos_valid(s) && #[trigger] starts_with_at(data@, pos as int, enc_utxos(s)) implies got
                == Some((s[i as int], (p + enc_utxo_entry(s[i as int]).len()) as usize)) && !has_key(v@, s[i as int].0) by {
                lemma_list_item(data@, pos as int, map_head(n as nat), utxo_encs(s), i as int);
                assert(utxo_encs(s).take(i as int) =~= utxo_encs(v@));
                assert(output_valid(s[i as int].1.1));
                if has_key(v@, s[i as int].0) {
                    let j = choose|j: int| 0 <= j < v@.len() && #[trigger] v@[j].0 == s[i as int].0;
                    assert(v@[j] == s[j]);
                }
            }
        }
        match got {
            Some((e, end)) => {
                if v.contains_key(&e.0) {
                    return None;
                }
                proof {
                    lemma_list_extend(data@, pos as int, map_head(n as nat), utxo_encs(v@), enc_utxo_entry(e));
                    assert(utxo_encs(v@.push(e)) =~= utxo_encs(v@).push(enc_utxo_entry(e)));
                }
                let ghost before = v@;
                v.insert(e.0, e.1);
                proof {
                    assert(v@ == before.push(e));
                }
                p = end;
                proof {
                    assert forall|s: UtxoEntries|
                        utxos_valid(s) && #[trigger] starts_with_at(data@, pos as int, enc_utxos(s)) implies v@
                        == s.take(i + 1) by {
                        assert(before == s.take(i as int));
                        assert(v@ =~= s.take(i + 1));
                    }
                }
            },
            None => {
                return None;
            },
        }
        i = i + 1;
    }
    proof {
        assert forall|s: UtxoEntries|
            utxos_valid(s) && #[trigger] starts_with_at(data@, pos as int, enc_utxos(s)) implies v@ == s by {
            assert(s.take(n as int) =~= s);
        }
        assert(enc_utxos(v@) =~= map_head(n as nat) + flatten(utxo_encs(v@)));
    }
    Some((v, p))
}

proof fn lemma_pending_layout(data: Seq<u8>, pos: int, e: (crate::sha256::Hash, TransactionView, Timestamp))
    ensures
        starts_with_at(data, pos, enc_pending_entry(e)) <==> {
            let a = enc_hash(e.0);
            let b = map_head(2) + enc_text(ascii("transaction"));
            let c = enc_transaction(e.1);
            let d = enc_text(ascii("received_at"));
            let f = enc_timestamp(e.2);
            &&& starts_with_at(data, pos, a)
            &&& starts_with_at(data, pos + a.len(), b)
            &&& starts_with_at(data, pos + a.len() + b.len(), c)
            &&& starts_with_at(data, pos + a.len() + b.len() + c.len(), d)
            &&& starts_with_at(data, pos + a.len() + b.len() + c.len() + d.len(), f)
        },
        enc_pending_entry(e).len() == enc_hash(e.0).len() + (map_head(2) + enc_text(ascii("transaction"))).len()
            + enc_transaction(e.1).len() + enc_text(ascii("received_at")).len() + enc_timestamp(e.2).len(),
{
    let a = enc_hash(e.0);
    let b = map_head(2) + enc_text(ascii("transaction"));
    let c = enc_transaction(e.1);
    let d = enc_text(ascii("received_at"));
    let f = enc_timestamp(e.2);
    lemma_starts_concat(data, pos, a + b + c + d, f);
    lemma_starts4(data, pos, a, b, c, d);
}

fn parse_pending_entry(data: &[u8], pos: usize) -> (r: Option<((crate::sha256::Hash, Transaction, Timestamp), usize)>)
    ensures
        r matches Some((e, end)) ==> transaction_valid(e.1@) && timestamp_valid(e.2.secs(), e.2.nanos())
            && starts_with_at(data@, pos as int, enc_pending_entry((e.0, e.1@, e.2))) && end == pos
            + enc_pending_entry((e.0, e.1@, e.2)).len(),
        forall|e: (crate::sha256::Hash, TransactionView, Timestamp)|
            transaction_valid(e.1) && timestamp_valid(e.2.secs(), e.2.nanos()) && #[trigger] starts_with_at(
                data@,
                pos as int,
                enc_pending_entry(e),
            ) ==> (r matches Some((x, end)) && x.0 == e.0 && x.1@ == e.1 && x.2 == e.2 && end == pos
                + enc_pending_entry(e).len()),
{
    let mut t1: Vec<u8> = Vec::new();
    push_map_head(&mut t1, 2);
    push_field_name(&mut t1, "transaction");
    let t2 = field_token("received_at");
    let (key, p1) = match parse_hash(data, pos) {
        Some(x) => x,
        None => {
            proof {
                assert forall|e: (crate::sha256::Hash, TransactionView, Timestamp)| !#[trigger] starts_with_at(data@, pos as int, enc_pending_entry(e)) by {
                    lemma_pending_layout(data@, pos as int, e);
                }
            }
            return None;
        },
    };
    proof {
        assert forall|e: (crate::sha256::Hash, TransactionView, Timestamp)| #[trigger] starts_with_at(data@, pos as int, enc_pending_entry(e)) implies e.0 == key && starts_with_at(data@, p1 as int, t1@) by {
            lemma_pending_layout(data@, pos as int, e);
        }
    }
    if !expect(data, p1, t1.as_slice()) {
        return None;
    }
    let p2 = p1 + t1.len();
    let (tx, p3) = match parse_transaction(data, p2) {
        Some(x) => x,
        None => {
            proof {
                assert forall|e: (crate::sha256::Hash, TransactionView, Timestamp)| transaction_valid(e.1) implies !#[trigger] starts_with_at(data@, pos as int, enc_pending_entry(e)) by {
                    lemma_pending_layout(data@, pos as int, e);
                }
            }
            return None;
        },
    };
    proof {
        assert forall|e: (crate::sha256::Hash, TransactionView, Timestamp)| transaction_valid(e.1) && #[trigger] starts_with_at(data@, pos as int, enc_pending_entry(e)) implies e.1 == tx@ && starts_with_at(data@, p3 as int, t2@) by {
            lemma_pending_layout(data@, pos as int, e);
        }
    }
    if !expect(data, p3, t2.as_slice()) {
        return None;
    }
    let p4 = p3 + t2.len();
    let (at, p5) = match parse_timestamp(data, p4) {
        Some(x) => x,
        None => {
            proof {
                assert forall|e: (crate::sha256::Hash, TransactionView, Timestamp)| transaction_valid(e.1) && timestamp_valid(e.2.secs(), e.2.nanos()) implies !#[trigger] starts_with_at(data@, pos as int, enc_pending_entry(e)) by {
                    lemma_pending_layout(data@, pos as int, e);
                }
            }
            return None;
        },
    };
    proof {
        lemma_pending_layout(data@, pos as int, (key, tx@, at));
        assert forall|e: (crate::sha256::Hash, TransactionView, Timestamp)| transaction_valid(e.1) && timestamp_valid(e.2.secs(), e.2.nanos()) && #[trigger] starts_with_at(data@, pos as int, enc_pending_entry(e)) implies e.2 == at && p5 == pos + enc_pending_entry(e).len() by {
            lemma_pending_layout(data@, pos as int, e);
        }
    }
    Some(((key, tx, at), p5))
}

proof fn lemma_pending_push(before: MempoolEntries, key: crate::sha256::Hash, entry: MempoolEntry)
    requires
        pending_valid(pending_views(before)),
        !has_key(before, key),
        transaction_valid(entry.transaction@),
        timestamp_valid(entry.received_at.secs(), entry.received_at.nanos()),
    ensures
        insert_entry(before, key, entry) == before.push((key, entry)),
        pending_views(before.push((key, entry))) == pending_views(before).push(
            (key, entry.transaction@, entry.received_at),
        ),
        pending_valid(pending_views(before.push((key, entry)))),
{
    let after = pending_views(before.push((key, entry)));
    let bv = pending_views(before);
    assert(after =~= bv.push((key, entry.transaction@, entry.received_at)));
    assert forall|a: int, b: int| 0 <= a < b < after.len() implies #[trigger] after[a].0 != #[trigger] after[b].0 by {
        assert(after[a] == bv[a]);
        if b == before.len() {
            assert(before[a].0 == bv[a].0);
        } else {
            assert(after[b] == bv[b]);
        }
    }
    assert forall|j: int| 0 <= j < after.len() implies transaction_valid(#[trigger] after[j].1) && timestamp_valid(after[j].2.secs(), after[j].2.nanos()) by {
        if j < before.len() {
            assert(after[j] == bv[j]);
        }
    }
}

proof fn lemma_pending_next(data: Seq<u8>, pos: int, n: u64, v: MempoolEntries, s: PendingEntries, p: int)
    requires
        pending_valid(s),
        starts_with_at(data, pos, enc_pending(s)),
        s.len() == n,
        v.len() < n,
        pending_views(v) == s.take(v.len() as int),
        p == pos + (map_head(n as nat) + flatten(pending_encs(pending_views(v)))).len(),
    ensures
        starts_with_at(data, p, enc_pending_entry(s[v.len() as int])),
        transaction_valid(s[v.len() as int].1),
        timestamp_valid(s[v.len() as int].2.secs(), s[v.len() as int].2.nanos()),
        !has_key(v, s[v.len() as int].0),
{
    lemma_pending_item_at(data, pos, n, v, s, p);
    lemma_pending_key_new(v, s);
}

proof fn lemma_pending_item_at(data: Seq<u8>, pos: int, n: u64, v: MempoolEntries, s: PendingEntries, p: int)
    requires
        starts_with_at(data, pos, enc_pending(s)),
        s.len() == n,
        v.len() < n,
        pending_views(v) == s.take(v.len() as int),
        p == pos + (map_head(n as nat) + flatten(pending_encs(pending_views(v)))).len(),
    ensures
        starts_with_at(data, p, enc_pending_entry(s[v.len() as int])),
{
    let i = v.len() as int;
    lemma_list_item(data, pos, map_head(n as nat), pending_encs(s), i);
    assert(pending_encs(s).take(i) =~= pending_encs(pending_views(v)));
}

proof fn lemma_pending_key_new(v: MempoolEntries, s: PendingEntries)
    requires
        pending_valid(s),
        v.len() < s.len(),
        pending_views(v) == s.take(v.len() as int),
    ensures
        !has_key(v, s[v.len() as int].0),
        transaction_valid(s[v.len() as int].1),
        timestamp_valid(s[v.len() as int].2.secs(), s[v.len() as int].2.nanos()),
{
    let i = v.len() as int;
    if has_key(v, s[i].0) {
        let j = choose|j: int| 0 <= j < v.len() && #[trigger] v[j].0 == s[i].0;
        assert(pending_views(v)[j] == s[j]);
        assert(s[j].0 != s[i].0);
    }
}

#[verifier::rlimit(100)]
fn parse_pending(data: &[u8], pos: usize) -> (r: Option<(HashIndex<MempoolEntry>, usize)>)
    ensures
        r matches Some((v, end)) ==> pending_valid(pending_views(v@)) && starts_with_at(
            data@,
            pos as int,
            enc_pending(pending_views(v@)),
        ) && end == pos + enc_pending(pending_views(v@)).len(),
        forall|s: PendingEntries|
            pending_valid(s) && #[trigger] starts_with_at(data@, pos as int, enc_pending(s)) ==> (r matches Some((v, end))
                && pending_views(v@) == s && end == pos + enc_pending(s).len()),
{
    let hd = parse_head(data, pos);
    proof {
        assert forall|s: PendingEntries| #[trigger] starts_with_at(data@, pos as int, enc_pending(s)) implies hd
            == Some((5u8, s.len() as u64, (pos + map_head(s.len()).len()) as usize)) && s.len() == s.len() as u64 by {
            assert(data@.len() == data.len());
            lemma_starts_concat(data@, pos as int, map_head(s.len()), flatten(pending_encs(s)));
            lemma_flatten_len_at_least(pending_encs(s));
        }
    }
    let (n, mut p) = match hd {
        Some((major, n, end)) => {
            if major != 5 {
                return None;
            }
            (n, end)
        },
        None => {
            return None;
        },
    };
    let mut v: HashIndex<MempoolEntry> = HashIndex::new();
    let mut i: u64 = 0;
    proof {
        assert(pending_encs(pending_views(v@)) =~= Seq::<Seq<u8>>::empty());
        assert(map_head(n as nat) + flatten(pending_encs(pending_views(v@))) =~= map_head(n as nat));
    }
    while i < n
        invariant
            i <= n,
            v@.len() == i,
            pending_valid(pending_views(v@)),
            starts_with_at(data@, pos as int, map_head(n as nat) + flatten(pending_encs(pending_views(v@)))),
            p == pos + (map_head(n as nat) + flatten(pending_encs(pending_views(v@)))).len(),
            forall|s: PendingEntries|
                pending_valid(s) && #[trigger] starts_with_at(data@, pos as int, enc_pending(s)) ==> s.len()
                    == n && pending_views(v@) == s.take(i as int),
        decreases n - i,
    {
        let got = parse_pending_entry(data, p);
        proof {
            assert forall|s: PendingEntries|
                pending_valid(s) && #[trigger] starts_with_at(data@, pos as int, enc_pending(s)) implies (got matches Some((x, e))
                && x.0 == s[i as int].0 && x.1@ == s[i as int].1 && x.2 == s[i as int].2 && e == p
                + enc_pending_entry(s[i as int]).len()) && !has_key(v@, s[i as int].0) by {
                lemma_pending_next(data@, pos as int, n, v@, s, p as int);
            }
        }
        match got {
            Some((x, e)) => {
                let (key, tx, at) = x;
                if v.contains_key(&key) {
                    return None;
                }
                let ghost xv = (key, tx@, at);
                proof {
                    lemma_list_extend(data@, pos as int, map_head(n as nat), pending_encs(pending_views(v@)), enc_pending_entry(xv));
                }
                let ghost before = v@;
                let ghost before_views = pending_views(v@);
                let entry = MempoolEntry { transaction: tx, received_at: at };
                proof {
                    lemma_pending_push(before, key, entry);
                }
                v.insert(key, entry);
                proof {
                    assert(pending_encs(pending_views(v@)) =~= pending_encs(before_views).push(enc_pending_entry(xv)));
                }
                p = e;
                proof {
                    assert forall|s: PendingEntries|
                        pending_valid(s) && #[trigger] starts_with_at(data@, pos as int, enc_pending(s)) implies pending_views(v@)
                        == s.take(i + 1) by {
                        assert(before_views == s.take(i as int));
                        assert(pending_views(v@) =~= s.take(i + 1));
                    }
                }
            },
            None => {
                return None;
            },
        }
        i = i + 1;
    }
    proof {
        assert forall|s: PendingEntries|
            pending_valid(s) && #[trigger] starts_with_at(data@, pos as int, enc_pending(s)) implies pending_views(v@) == s by {
            assert(s.take(n as int) =~= s);
        }
        assert(enc_pending(pending_views(v@)) =~= map_head(n as nat) + flatten(pending_encs(pending_views(v@))));
    }
    Some((v, p))
}

fn parse_chain_front(data: &[u8], pos: usize) -> (r: Option<(Vec<Block>, HashIndex<(bool, TransactionOutput)>, usize)>)
    ensures
        r matches Some((b, u, end)) ==> blocks_valid(block_views(b@)) && utxos_valid(u@) && starts_with_at(
            data@,
            pos as int,
            enc_chain_front(block_views(b@), u@),
        ) && end == pos + enc_chain_front(block_views(b@), u@).len(),
        forall|bv: Seq<BlockView>, u: UtxoEntries|
            blocks_valid(bv) && utxos_valid(u) && #[trigger] starts_with_at(
                data@,
                pos as int,
                enc_chain_front(bv, u),
            ) ==> (r matches Some((b, x, end)) && block_views(b@) == bv && x@ == u && end == pos
                + enc_chain_front(bv, u).len()),
{
    let mut t1: Vec<u8> = Vec::new();
    push_map_head(&mut t1, 4);
    push_field_name(&mut t1, "blocks");
    let t2 = field_token("utxos");
    proof {
        assert forall|bv: Seq<BlockView>, u: UtxoEntries| #[trigger] starts_with_at(data@, pos as int, enc_chain_front(bv, u)) implies starts_with_at(data@, pos as int, t1@) by {
            lemma_starts4(data@, pos as int, t1@, enc_blocks(bv), t2@, enc_utxos(u));
        }
    }
    if !expect(data, pos, t1.as_slice()) {
        return None;
    }
    let p1 = pos + t1.len();
    let (blocks, p2) = match parse_blocks(data, p1) {
        Some(x) => x,
        None => {
            proof {
                assert forall|bv: Seq<BlockView>, u: UtxoEntries| blocks_valid(bv) implies !#[trigger] starts_with_at(data@, pos as int, enc_chain_front(bv, u)) by {
                    lemma_starts4(data@, pos as int, t1@, enc_blocks(bv), t2@, enc_utxos(u));
                }
            }
            return None;
        },
    };
    proof {
        assert forall|bv: Seq<BlockView>, u: UtxoEntries| blocks_valid(bv) && #[trigger] starts_with_at(data@, pos as int, enc_chain_front(bv, u)) implies bv == block_views(blocks@) && starts_with_at(data@, p2 as int, t2@) by {
            lemma_starts4(data@, pos as int, t1@, enc_blocks(bv), t2@, enc_utxos(u));
        }
    }
    if !expect(data, p2, t2.as_slice()) {
        return None;
    }
    let p3 = p2 + t2.len();
    let (utxos, p4) = match parse_utxos(data, p3) {
        Some(x) => x,
        None => {
            proof {
                assert forall|bv: Seq<BlockView>, u: UtxoEntries| blocks_valid(bv) && utxos_valid(u) implies !#[trigger] starts_with_at(data@, pos as int, enc_chain_front(bv, u)) by {
                    lemma_starts4(data@, pos as int, t1@, enc_blocks(bv), t2@, enc_utxos(u));
                }
            }
            return None;
        },
    };
    proof {
        lemma_starts4(data@, pos as int, t1@, enc_blocks(block_views(blocks@)), t2@, enc_utxos(utxos@));
        assert forall|bv: Seq<BlockView>, u: UtxoEntries| blocks_valid(bv) && utxos_valid(u) && #[trigger] starts_with_at(data@, pos as int, enc_chain_front(bv, u)) implies u == utxos@ by {
            lemma_starts4(data@, pos as int, t1@, enc_blocks(bv), t2@, enc_utxos(u));
        }
    }
    Some((blocks, utxos, p4))
}

fn parse_chain_back(data: &[u8], pos: usize) -> (r: Option<(HashIndex<MempoolEntry>, crate::sha256::Hash, usize)>)
    ensures
        r matches Some((m, t, end)) ==> pending_valid(pending_views(m@)) && starts_with_at(
            data@,
            pos as int,
            enc_chain_back(pending_views(m@), t),
        ) && end == pos + enc_chain_back(pending_views(m@), t).len(),
        forall|pv: PendingEntries, t: crate::sha256::Hash|
            pending_valid(pv) && #[trigger] starts_with_at(data@, pos as int, enc_chain_back(pv, t)) ==> (r matches Some((m, x, end))
                && pending_views(m@) == pv && x == t && end == pos + enc_chain_back(pv, t).len()),
{
    let t1 = field_token("mempool");
    let t2 = field_token("target");
    proof {
        assert forall|pv: PendingEntries, t: crate::sha256::Hash| #[trigger] starts_with_at(data@, pos as int, enc_chain_back(pv, t)) implies starts_with_at(data@, pos as int, t1@) by {
            lemma_starts4(data@, pos as int, t1@, enc_pending(pv), t2@, enc_hash(t));
        }
    }
    if !expect(data, pos, t1.as_slice()) {
        return None;
    }
    let p1 = pos + t1.len();
    let (mempool, p2) = match parse_pending(data, p1) {
        Some(x) => x,
        None => {
            proof {
                assert forall|pv: PendingEntries, t: crate::sha256::Hash| pending_valid(pv) implies !#[trigger] starts_with_at(data@, pos as int, enc_chain_back(pv, t)) by {
                    lemma_starts4(data@, pos as int, t1@, enc_pending(pv), t2@, enc_hash(t));
                }
            }
            return None;
        },
    };
    proof {
        assert forall|pv: PendingEntries, t: crate::sha256::Hash| pending_valid(pv) && #[trigger] starts_with_at(data@, pos as int, enc_chain_back(pv, t)) implies pv == pending_views(mempool@) && starts_with_at(data@, p2 as int, t2@) by {
            lemma_starts4(data@, pos as int, t1@, enc_pending(pv), t2@, enc_hash(t));
        }
    }
    if !expect(data, p2, t2.as_slice()) {
        return None;
    }
    let p3 = p2 + t2.len();
    let (target, p4) = match parse_hash(data, p3) {
        Some(x) => x,
        None => {
            proof {
                assert forall|pv: PendingEntries, t: crate::sha256::Hash| pending_valid(pv) implies !#[trigger] starts_with_at(data@, pos as int, enc_chain_back(pv, t)) by {
                    lemma_starts4(data@, pos as int, t1@, enc_pending(pv), t2@, enc_hash(t));
                }
            }
            return None;
        },
    };
    proof {
        lemma_starts4(data@, pos as int, t1@, enc_pending(pending_views(mempool@)), t2@, enc_hash(target));
        assert forall|pv: PendingEntries, t: crate::sha256::Hash| pending_valid(pv) && #[trigger] starts_with_at(data@, pos as int, enc_chain_back(pv, t)) implies t == target by {
            lemma_starts4(data@, pos as int, t1@, enc_pending(pv), t2@, enc_hash(t));
        }
    }
    Some((mempool, target, p4))
}

/// The chain as stored, where it reads back as itself.
pub fn parse_chain(data: &[u8], pos: usize) -> (r: Option<(Blockchain, usize)>)
    ensures
        r matches Some((c, end)) ==> chain_valid(c@) && starts_with_at(data@, pos as int, enc_chain(c@))
            && end == pos + enc_chain(c@).len(),
        forall|c: ChainView|
            chain_valid(c) && #[trigger] starts_with_at(data@, pos as int, enc_chain(c)) ==> (r matches Some((x, end))
                && block_views(x@.blocks) == block_views(c.blocks) && x@.utxos == c.utxos && pending_views(
                x@.mempool,
            ) == pending_views(c.mempool) && x@.target == c.target && end == pos + enc_chain(c).len()),
{
    proof {
        assert forall|c: ChainView| #[trigger] starts_with_at(data@, pos as int, enc_chain(c)) implies starts_with_at(data@, pos as int, enc_chain_front(block_views(c.blocks), c.utxos)) && starts_with_at(data@, pos + enc_chain_front(block_views(c.blocks), c.utxos).len(), enc_chain_back(pending_views(c.mempool), c.target)) by {
            lemma_starts_concat(data@, pos as int, enc_chain_front(block_views(c.blocks), c.utxos), enc_chain_back(pending_views(c.mempool), c.target));
        }
    }
    let (blocks, utxos, p1) = match parse_chain_front(data, pos) {
        Some(x) => x,
        None => {
            return None;
        },
    };
    let (mempool, target, p2) = match parse_chain_back(data, p1) {
        Some(x) => x,
        None => {
            return None;
        },
    };
    let chain = Blockchain::from_parts(blocks, utxos, mempool, target);
    proof {
        lemma_starts_concat(data@, pos as int, enc_chain_front(block_views(chain@.blocks), chain@.utxos), enc_chain_back(pending_views(chain@.mempool), chain@.target));
    }
    Some((chain, p2))
}

impl Saveable for Blockchain {
    open spec fn stored_in(&self, data: Seq<u8>) -> bool {
        starts_with_at(data, 0, self.saved_bytes())
    }

    open spec fn saved_bytes(&self) -> Seq<u8> {
        enc_chain(self@)
    }

    open spec fn reloadable(&self) -> bool {
        chain_valid(self@)
    }

    fn load(data: &[u8]) -> (r: Result<Blockchain, BtcError>)
        ensures
            forall|c: ChainView|
                chain_valid(c) && #[trigger] starts_with_at(data@, 0, enc_chain(c)) ==> (r matches Ok(x)
                    && block_views(x@.blocks) == block_views(c.blocks) && x@.utxos == c.utxos
                    && pending_views(x@.mempool) == pending_views(c.mempool) && x@.target == c.target),
    {
        match parse_chain(data, 0) {
            Some((c, _)) => Ok(c),
            None => Err(BtcError::Serialization),
        }
    }

    fn save(&self, out: &mut Vec<u8>) -> (r: Result<(), BtcError>) {
        encode_chain(self, out);
        Ok(())
    }
}

} // verus!
