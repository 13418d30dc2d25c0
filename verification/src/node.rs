//! What a node answers to each message, and how each changes its chain.
use crate::crypto::PublicKey;
use crate::error::BtcError;
use crate::network::Message;
use crate::timestamp::Timestamp;
use crate::types::block::UtxoEntries;
use crate::types::blockchain::{
    add_block_overflows, add_block_result, mempool_add_overflows, mempool_add_result,
    replay_mempool, replay_utxos, template_overflows, template_result, tip, Blockchain,
    ChainView,
};
use crate::types::transaction::TransactionOutput;
use vstd::prelude::*;

verus! {

/// Why a node refuses a message.
#[derive(Debug)]
pub enum NodeError {
    /// The message is one that only a node sends.
    ResponseOnly,
    /// The chain refused the block or transaction.
    Chain(BtcError),
}

/// The outputs paid to `key`, each with its mark, in the order of the table.
pub open spec fn owned_utxos(utxos: UtxoEntries, key: PublicKey) -> Seq<(TransactionOutput, bool)>
    decreases utxos.len(),
{
    if utxos.len() == 0 {
        seq![]
    } else {
        let rest = owned_utxos(utxos.drop_last(), key);
        let e = utxos.last();
        if e.1.1.pubkey == key {
            rest.push((e.1.1, e.1.0))
        } else {
            rest
        }
    }
}

/// The answer to `FetchUTXOs(key)` holds exactly the unspent outputs paid to `key`:
/// every output in it is paid to `key` and is an entry of the table (with its mark),
/// and every entry of the table paid to `key` is in it.
pub proof fn law_owned_utxos_are_those_of_key(utxos: UtxoEntries, key: PublicKey)
    ensures
        forall|i: int| 0 <= i < owned_utxos(utxos, key).len() ==> (#[trigger] owned_utxos(utxos, key)[i]).0.pubkey == key,
        forall|i: int|
            0 <= i < owned_utxos(utxos, key).len() ==> exists|j: int|
                0 <= j < utxos.len() && (#[trigger] utxos[j]).1.1 == (#[trigger] owned_utxos(utxos, key)[i]).0
                    && utxos[j].1.0 == owned_utxos(utxos, key)[i].1,
        forall|j: int|
            0 <= j < utxos.len() && (#[trigger] utxos[j]).1.1.pubkey == key ==> owned_utxos(utxos, key).contains(
                (utxos[j].1.1, utxos[j].1.0),
            ),
        owned_utxos(utxos, key).len() <= utxos.len(),
    decreases utxos.len(),
{
    if utxos.len() > 0 {
        let prev = utxos.drop_last();
        let rest = owned_utxos(prev, key);
        law_owned_utxos_are_those_of_key(prev, key);
        let o = owned_utxos(utxos, key);
        let e = utxos.last();
        assert forall|i: int| 0 <= i < o.len() implies exists|j: int|
            0 <= j < utxos.len() && (#[trigger] utxos[j]).1.1 == (#[trigger] o[i]).0 && utxos[j].1.0 == o[i].1 by {
            if i < rest.len() {
                assert(o[i] == rest[i]);
                let j = choose|j: int| 0 <= j < prev.len() && (#[trigger] prev[j]).1.1 == rest[i].0 && prev[j].1.0 == rest[i].1;
                assert(utxos[j] == prev[j]);
            } else {
                assert(utxos[utxos.len() - 1] == e);
            }
        }
        assert forall|j: int| 0 <= j < utxos.len() && (#[trigger] utxos[j]).1.1.pubkey == key implies o.contains(
            (utxos[j].1.1, utxos[j].1.0),
        ) by {
            if j < prev.len() {
                assert(utxos[j] == prev[j]);
                let x = (prev[j].1.1, prev[j].1.0);
                assert(rest.contains(x));
                let k = choose|k: int| 0 <= k < rest.len() && rest[k] == x;
                assert(o[k] == rest[k]);
            } else {
                assert(o[o.len() - 1] == (e.1.1, e.1.0));
            }
        }
    }
}

/// The chain after its unspent outputs are rebuilt from its blocks.
pub open spec fn rebuilt(c: ChainView) -> ChainView {
    ChainView { utxos: replay_utxos(c.blocks), mempool: replay_mempool(c.mempool, c.blocks), ..c }
}

/// The height difference a node reports: its height and the asked one, each cast to `i32`.
pub open spec fn height_difference(height: nat, asked: u32) -> int {
    ((height as u64) as i32) - (asked as i32)
}

/// Whether handling `m` overflows an integer.
pub open spec fn handle_overflows(c: ChainView, m: Message) -> bool {
    match m {
        Message::NewBlock(b) => add_block_overflows(c, b),
        Message::SubmitTemplate(b) => add_block_overflows(c, b),
        Message::NewTransaction(t) => mempool_add_overflows(c, t@),
        Message::SubmitTransaction(t) => mempool_add_overflows(c, t@),
        Message::FetchTemplate(_) => template_overflows(c),
        Message::AskDifference(h) => !(i32::MIN <= height_difference(c.blocks.len(), h) <= i32::MAX),
        _ => false,
    }
}

fn owned_utxos_of(chain: &Blockchain, key: &PublicKey) -> (r: Vec<(TransactionOutput, bool)>)
    ensures
        r@ == owned_utxos(chain@.utxos, *key),
{
    let utxos = chain.utxos();
    let n = utxos.len();
    let mut out: Vec<(TransactionOutput, bool)> = Vec::new();
    let mut i: usize = 0;
    assert(utxos@.take(0) =~= UtxoEntries::empty());
    while i < n
        invariant
            n == utxos@.len(),
            utxos@ == chain@.utxos,
            i <= n,
            out@ == owned_utxos(utxos@.take(i as int), *key),
        decreases n - i,
    {
        let entry = utxos.entry(i);
        proof {
            assert(utxos@.take(i + 1).drop_last() =~= utxos@.take(i as int));
        }
        if entry.1.1.pubkey == *key {
            out.push((entry.1.1, entry.1.0));
        }
        i = i + 1;
    }
    assert(utxos@.take(n as int) =~= utxos@);
    out
}

fn copy_strings(v: &Vec<String>) -> (r: Vec<String>)
    ensures
        r@.map_values(|s: String| s@) == v@.map_values(|s: String| s@),
{
    let mut out: Vec<String> = Vec::new();
    let mut i: usize = 0;
    while i < v.len()
        invariant
            i <= v.len(),
            out@.map_values(|s: String| s@) =~= v@.take(i as int).map_values(|s: String| s@),
        decreases v.len() - i,
    {
        let copy = v[i].clone();
        let ghost before = out@;
        out.push(copy);
        proof {
            assert(out@ == before.push(copy));
            assert(out@.map_values(|s: String| s@) =~= before.map_values(|s: String| s@).push(copy@));
            assert(v@.take(i + 1).map_values(|s: String| s@) =~= v@.take(i as int).map_values(
                |s: String| s@,
            ).push(v@[i as int]@));
        }
        i = i + 1;
    }
    assert(v@.take(v.len() as int) =~= v@);
    out
}

/// Whether `handle_message(chain, _, message)` would overflow an integer on the way:
/// callers test this first.
pub fn message_overflows(chain: &Blockchain, message: &Message) -> (r: bool)
    ensures
        r == handle_overflows(chain@, *message),
{
    match message {
        Message::NewBlock(b) => chain.add_block_overflows(b),
        Message::SubmitTemplate(b) => chain.add_block_overflows(b),
        Message::NewTransaction(t) => chain.add_to_mempool_overflows(t),
        Message::SubmitTransaction(t) => chain.add_to_mempool_overflows(t),
        Message::FetchTemplate(_) => chain.template_overflows(),
        Message::AskDifference(h) => (chain.block_height() as i32).checked_sub(*h as i32).is_none(),
        _ => false,
    }
}

/// Handles one message against the chain and the known peers: answers queries, adds
/// blocks and transactions, refuses the messages that only a node sends.
pub fn handle_message(chain: &mut Blockchain, nodes: &Vec<String>, message: Message) -> (r: Result<Option<Message>, NodeError>)
    requires
        !handle_overflows(old(chain)@, message),
    ensures
        match message {
            Message::UTXOs(_) => r matches Err(NodeError::ResponseOnly) && final(chain)@ == old(chain)@,
            Message::Template(_) => r matches Err(NodeError::ResponseOnly) && final(chain)@ == old(chain)@,
            Message::Difference(_) => r matches Err(NodeError::ResponseOnly) && final(chain)@ == old(chain)@,
            Message::TemplateValidity(_) => r matches Err(NodeError::ResponseOnly) && final(chain)@ == old(chain)@,
            Message::NodeList(_) => r matches Err(NodeError::ResponseOnly) && final(chain)@ == old(chain)@,
            Message::FetchBlock(h) => final(chain)@ == old(chain)@ && if h < old(chain)@.blocks.len() {
                r matches Ok(Some(Message::NewBlock(b))) && b@ == old(chain)@.blocks[h as int]@
            } else {
                r matches Ok(None)
            },
            Message::DiscoverNodes => r matches Ok(Some(Message::NodeList(v)))
                && v@.map_values(|s: String| s@) == nodes@.map_values(|s: String| s@)
                && final(chain)@ == old(chain)@,
            Message::AskDifference(h) => r matches Ok(Some(Message::Difference(d)))
                && d == height_difference(old(chain)@.blocks.len(), h) && final(chain)@ == old(chain)@,
            Message::FetchUTXOs(key) => r matches Ok(Some(Message::UTXOs(v)))
                && v@ == owned_utxos(old(chain)@.utxos, key) && final(chain)@ == old(chain)@,
            Message::NewBlock(b) => match add_block_result(old(chain)@, b) {
                Ok(c) => r matches Ok(None) && final(chain)@ == c,
                Err(e) => r matches Err(NodeError::Chain(e2)) && e2 == e && final(chain)@ == old(chain)@,
            },
            Message::NewTransaction(t) => exists|now: Timestamp|
                match #[trigger] mempool_add_result(old(chain)@, t, now) {
                    Ok(c) => r matches Ok(None) && final(chain)@ == c,
                    Err(e) => r matches Err(NodeError::Chain(e2)) && e2 == e && final(chain)@ == old(chain)@,
                },
            Message::SubmitTransaction(t) => exists|now: Timestamp|
                match #[trigger] mempool_add_result(old(chain)@, t, now) {
                    Ok(c) => r matches Ok(None) && final(chain)@ == c,
                    Err(e) => r matches Err(NodeError::Chain(e2)) && e2 == e && final(chain)@ == old(chain)@,
                },
            Message::ValidateTemplate(b) => r matches Ok(Some(Message::TemplateValidity(v)))
                && v == (b.header.prev_block_hash == tip(old(chain)@.blocks)) && final(chain)@ == old(chain)@,
            Message::SubmitTemplate(b) => match add_block_result(old(chain)@, b) {
                Ok(c) => r matches Ok(None) && final(chain)@ == rebuilt(c),
                Err(e) => r matches Err(NodeError::Chain(e2)) && e2 == e && final(chain)@ == old(chain)@,
            },
            Message::FetchTemplate(pubkey) => final(chain)@ == old(chain)@ && exists|now: Timestamp, unique_id: [u8; 16]|
                match #[trigger] template_result(old(chain)@, pubkey, now, unique_id) {
                    Ok(v) => r matches Ok(Some(Message::Template(b))) && b@ == v,
                    Err(e) => r matches Err(NodeError::Chain(e2)) && e2 == e,
                },
        },
{
    match message {
        Message::UTXOs(_) | Message::Template(_) | Message::Difference(_) | Message::TemplateValidity(_)
        | Message::NodeList(_) => Err(NodeError::ResponseOnly),
        Message::FetchBlock(height) => {
            if height < chain.blocks().len() {
                Ok(Some(Message::NewBlock(chain.blocks()[height].clone())))
            } else {
                Ok(None)
            }
        },
        Message::DiscoverNodes => Ok(Some(Message::NodeList(copy_strings(nodes)))),
        Message::AskDifference(height) => {
            let difference = match (chain.block_height() as i32).checked_sub(height as i32) {
                Some(d) => d,
                None => 0,
            };
            Ok(Some(Message::Difference(difference)))
        },
        Message::FetchUTXOs(key) => Ok(Some(Message::UTXOs(owned_utxos_of(chain, &key)))),
        Message::NewBlock(block) => match chain.add_block(block) {
            Ok(()) => Ok(None),
            Err(e) => Err(NodeError::Chain(e)),
        },
        Message::NewTransaction(tx) | Message::SubmitTransaction(tx) => match chain.add_to_mempool(tx) {
            Ok(()) => Ok(None),
            Err(e) => Err(NodeError::Chain(e)),
        },
        Message::ValidateTemplate(block_template) => {
            let current_tip = match chain.blocks().len() {
                0 => crate::sha256::Hash::zero(),
                n => chain.blocks()[n - 1].hash(),
            };
            Ok(Some(Message::TemplateValidity(block_template.header.prev_block_hash == current_tip)))
        },
        Message::SubmitTemplate(block) => match chain.add_block(block) {
            Ok(()) => {
                chain.rebuild_utxos();
                Ok(None)
            },
            Err(e) => Err(NodeError::Chain(e)),
        },
        Message::FetchTemplate(pubkey) => match chain.create_template(pubkey) {
            Ok(block) => Ok(Some(Message::Template(block))),
            Err(e) => Err(NodeError::Chain(e)),
        },
    }
}

} // verus!
