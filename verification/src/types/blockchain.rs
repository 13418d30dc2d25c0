use crate::crypto::{ecdsa_verifies, PublicKey};
use crate::error::BtcError;
use crate::timestamp::{seconds_between, Timestamp};
use crate::types::block::{
    after_coinbase, fees, fees_overflow, header_hash, meets_target, Block, BlockHeader, BlockView,
    UtxoEntries,
};
use crate::types::index::{
    has_key, index_of, insert_entry, keys_distinct, lemma_remove_distinct, lookup, remove_entry,
    select_entries, HashIndex,
};
use crate::types::transaction::{
    output_hash, outputs_total, transaction_hash, tx_views, Transaction, TransactionInput,
    TransactionOutput, TransactionView,
};
use crate::util::merkle_root;
use crate::{spec_initial_reward_sats, spec_min_target};
use vstd::prelude::*;

verus! {

/// A transaction waiting to be mined, with the time it arrived.
#[derive(Debug)]
pub struct MempoolEntry {
    pub transaction: Transaction,
    pub received_at: Timestamp,
}

impl Clone for MempoolEntry {
    fn clone(&self) -> (r: MempoolEntry)
        ensures
            r.transaction@ == self.transaction@,
            r.received_at == self.received_at,
    {
        MempoolEntry { transaction: self.transaction.clone(), received_at: self.received_at }
    }
}

/// The blocks, the unspent outputs they leave, the transactions waiting, and the target.
pub struct Blockchain {
    blocks: Vec<Block>,
    utxos: HashIndex<(bool, TransactionOutput)>,
    mempool: HashIndex<MempoolEntry>,
    target: crate::sha256::Hash,
}

pub type MempoolEntries = Seq<(crate::sha256::Hash, MempoolEntry)>;

pub struct ChainView {
    pub blocks: Seq<Block>,
    pub utxos: UtxoEntries,
    pub mempool: MempoolEntries,
    pub target: crate::sha256::Hash,
}

impl View for Blockchain {
    type V = ChainView;

    closed spec fn view(&self) -> ChainView {
        ChainView {
            blocks: self.blocks@,
            utxos: self.utxos@,
            mempool: self.mempool@,
            target: self.target,
        }
    }
}

/// Two tables of waiting transactions with the same keys, transactions and times.
pub open spec fn same_mempool(a: MempoolEntries, b: MempoolEntries) -> bool {
    &&& a.len() == b.len()
    &&& forall|i: int|
        0 <= i < a.len() ==> #[trigger] a[i].0 == b[i].0 && a[i].1.transaction@ == b[i].1.transaction@
            && a[i].1.received_at == b[i].1.received_at
}

fn clone_mempool(m: &HashIndex<MempoolEntry>) -> (r: HashIndex<MempoolEntry>)
    ensures
        same_mempool(r@, m@),
{
    let n = m.len();
    let mut out: HashIndex<MempoolEntry> = HashIndex::new();
    let mut i: usize = 0;
    while i < n
        invariant
            n == m@.len(),
            keys_distinct(m@),
            i <= n,
            out@.len() == i,
            forall|j: int| 0 <= j < i ==> #[trigger] out@[j].0 == m@[j].0 && out@[j].1.transaction@
                == m@[j].1.transaction@ && out@[j].1.received_at == m@[j].1.received_at,
        decreases n - i,
    {
        let e = m.entry(i);
        let entry = e.1.clone();
        proof {
            if has_key(out@, e.0) {
                let j = choose|j: int| 0 <= j < out@.len() && #[trigger] out@[j].0 == e.0;
                assert(m@[j].0 == m@[i as int].0);
            }
        }
        let ghost before = out@;
        out.insert(e.0, entry);
        proof {
            assert(out@ == before.push((e.0, entry)));
        }
        i = i + 1;
    }
    out
}

impl Clone for Blockchain {
    fn clone(&self) -> (r: Blockchain)
        ensures
            crate::types::block::block_views(r@.blocks) == crate::types::block::block_views(self@.blocks),
            r@.utxos == self@.utxos,
            same_mempool(r@.mempool, self@.mempool),
            r@.target == self@.target,
    {
        let blocks = self.blocks.clone();
        assert(crate::types::block::block_views(blocks@) =~= crate::types::block::block_views(self.blocks@)) by {
            assert forall|i: int| 0 <= i < blocks.len() implies #[trigger] blocks@[i]@ == self.blocks@[i]@ by {
                assert(vstd::pervasive::cloned(self.blocks@[i], blocks@[i]));
            }
        }
        Blockchain {
            blocks,
            utxos: self.utxos.clone(),
            mempool: clone_mempool(&self.mempool),
            target: self.target,
        }
    }
}

impl Default for Blockchain {
    fn default() -> (r: Blockchain)
        ensures
            r@.blocks == Seq::<Block>::empty(),
            r@.utxos == UtxoEntries::empty(),
            r@.mempool == MempoolEntries::empty(),
            r@.target == spec_min_target(),
    {
        Blockchain::new()
    }
}

/// The hash a new block must point back to.
pub open spec fn tip(blocks: Seq<Block>) -> crate::sha256::Hash {
    if blocks.len() == 0 {
        crate::sha256::zero_hash()
    } else {
        header_hash(blocks.last().header)
    }
}

/// The reward at a height: halved every `HALVING_INTERVAL` blocks (the halving count taken
/// modulo 2^32), nothing once it has been halved 64 times.
pub open spec fn block_reward(height: int) -> int {
    let halvings = (height / (crate::HALVING_INTERVAL as int)) % 0x1_0000_0000;
    if halvings >= 64 {
        0
    } else {
        (spec_initial_reward_sats() >> (halvings as u64)) as int
    }
}

// ---- checking a transaction against the unspent outputs ----

/// Checks `inputs` in order: none spent twice (counting `spent`), each spending a known
/// output, each signed by the key of that output. Gives the value spent and the hashes spent.
pub open spec fn check_inputs(inputs: Seq<TransactionInput>, utxos: UtxoEntries, spent: Seq<crate::sha256::Hash>) -> Result<(int, Seq<crate::sha256::Hash>), BtcError>
    decreases inputs.len(),
{
    if inputs.len() == 0 {
        Ok((0, spent))
    } else {
        match check_inputs(inputs.drop_last(), utxos, spent) {
            Err(e) => Err(e),
            Ok((total, sp)) => {
                let input = inputs.last();
                let h = input.prev_transaction_output_hash;
                if sp.contains(h) {
                    Err(BtcError::DuplicateSpend)
                } else {
                    match lookup(utxos, h) {
                        None => Err(BtcError::UnknownInput),
                        Some(entry) => if !ecdsa_verifies(entry.1.pubkey.bytes()@, h.0@, input.signature.0@) {
                            Err(BtcError::InvalidSignature)
                        } else {
                            Ok((total + entry.1.value, sp.push(h)))
                        },
                    }
                }
            },
        }
    }
}

/// Whether the running sum of `check_inputs` overflows a `u64`.
pub open spec fn check_inputs_overflow(inputs: Seq<TransactionInput>, utxos: UtxoEntries, spent: Seq<crate::sha256::Hash>) -> bool
    decreases inputs.len(),
{
    if inputs.len() == 0 {
        false
    } else {
        check_inputs_overflow(inputs.drop_last(), utxos, spent) || match check_inputs(
            inputs.drop_last(),
            utxos,
            spent,
        ) {
            Ok((total, sp)) => {
                let input = inputs.last();
                let h = input.prev_transaction_output_hash;
                !sp.contains(h) && match lookup(utxos, h) {
                    Some(entry) => ecdsa_verifies(entry.1.pubkey.bytes()@, h.0@, input.signature.0@)
                        && total + entry.1.value > u64::MAX,
                    None => false,
                }
            },
            Err(_) => false,
        }
    }
}

/// A transaction that is not a coinbase: it pays something, spends something, every input
/// passes `check_inputs`, and it pays out no more than it spends. Gives the hashes spent.
pub open spec fn regular_check(tx: TransactionView, utxos: UtxoEntries, spent: Seq<crate::sha256::Hash>) -> Result<Seq<crate::sha256::Hash>, BtcError> {
    if tx.outputs.len() == 0 {
        Err(BtcError::EmptyTransaction)
    } else if tx.inputs.len() == 0 {
        Err(BtcError::InvalidCoinbase)
    } else {
        match check_inputs(tx.inputs, utxos, spent) {
            Err(e) => Err(e),
            Ok((total, sp)) => if outputs_total(tx.outputs) > total {
                Err(BtcError::Overspend)
            } else {
                Ok(sp)
            },
        }
    }
}

pub open spec fn regular_overflow(tx: TransactionView, utxos: UtxoEntries, spent: Seq<crate::sha256::Hash>) -> bool {
    tx.outputs.len() != 0 && tx.inputs.len() != 0 && (check_inputs_overflow(tx.inputs, utxos, spent)
        || (check_inputs(tx.inputs, utxos, spent) is Ok && outputs_total(tx.outputs) > u64::MAX))
}

/// `regular_check` of each transaction in turn, the spent hashes carried along.
pub open spec fn check_regulars(txs: Seq<TransactionView>, utxos: UtxoEntries, spent: Seq<crate::sha256::Hash>) -> Result<Seq<crate::sha256::Hash>, BtcError>
    decreases txs.len(),
{
    if txs.len() == 0 {
        Ok(spent)
    } else {
        match check_regulars(txs.drop_last(), utxos, spent) {
            Err(e) => Err(e),
            Ok(sp) => regular_check(txs.last(), utxos, sp),
        }
    }
}

pub open spec fn regulars_overflow(txs: Seq<TransactionView>, utxos: UtxoEntries, spent: Seq<crate::sha256::Hash>) -> bool
    decreases txs.len(),
{
    if txs.len() == 0 {
        false
    } else {
        regulars_overflow(txs.drop_last(), utxos, spent) || match check_regulars(
            txs.drop_last(),
            utxos,
            spent,
        ) {
            Ok(sp) => regular_overflow(txs.last(), utxos, sp),
            Err(_) => false,
        }
    }
}

/// The checks of a block's transactions: a coinbase first, paying at most the reward plus the
/// fees of the others, and every other transaction regular, none spending what another spends.
pub open spec fn block_txs_check(c: ChainView, txs: Seq<TransactionView>) -> Result<(), BtcError> {
    if txs.len() == 0 || txs[0].inputs.len() != 0 {
        Err(BtcError::InvalidCoinbase)
    } else {
        match fees(after_coinbase(txs), c.utxos) {
            Err(e) => Err(e),
            Ok(f) => if outputs_total(txs[0].outputs) > block_reward(c.blocks.len() as int) + f {
                Err(BtcError::InvalidCoinbase)
            } else {
                match check_regulars(after_coinbase(txs), c.utxos, seq![]) {
                    Err(e) => Err(e),
                    Ok(_) => Ok(()),
                }
            },
        }
    }
}

/// Whether checking a block's transactions overflows a `u64`.
pub open spec fn block_txs_overflow(c: ChainView, txs: Seq<TransactionView>) -> bool {
    txs.len() != 0 && txs[0].inputs.len() == 0 && (fees_overflow(after_coinbase(txs), c.utxos)
        || match fees(after_coinbase(txs), c.utxos) {
        Ok(f) => block_reward(c.blocks.len() as int) + f > u64::MAX || outputs_total(txs[0].outputs)
            > u64::MAX || (outputs_total(txs[0].outputs) <= block_reward(c.blocks.len() as int) + f
            && regulars_overflow(after_coinbase(txs), c.utxos, seq![])),
        Err(_) => false,
    })
}

// ---- applying a block ----

pub open spec fn spend_inputs(utxos: UtxoEntries, inputs: Seq<TransactionInput>) -> UtxoEntries
    decreases inputs.len(),
{
    if inputs.len() == 0 {
        utxos
    } else {
        remove_entry(spend_inputs(utxos, inputs.drop_last()), inputs.last().prev_transaction_output_hash)
    }
}

pub open spec fn add_outputs(utxos: UtxoEntries, outputs: Seq<TransactionOutput>) -> UtxoEntries
    decreases outputs.len(),
{
    if outputs.len() == 0 {
        utxos
    } else {
        insert_entry(add_outputs(utxos, outputs.drop_last()), output_hash(outputs.last()), (false, outputs.last()))
    }
}

/// The unspent outputs after the transactions: each one's inputs removed, then its outputs added.
pub open spec fn apply_utxos(utxos: UtxoEntries, txs: Seq<TransactionView>) -> UtxoEntries
    decreases txs.len(),
{
    if txs.len() == 0 {
        utxos
    } else {
        add_outputs(spend_inputs(apply_utxos(utxos, txs.drop_last()), txs.last().inputs), txs.last().outputs)
    }
}

/// The waiting transactions after the transactions are mined: each removed.
pub open spec fn apply_mempool(mempool: MempoolEntries, txs: Seq<TransactionView>) -> MempoolEntries
    decreases txs.len(),
{
    if txs.len() == 0 {
        mempool
    } else {
        remove_entry(apply_mempool(mempool, txs.drop_last()), transaction_hash(txs.last()))
    }
}

/// The target after the chain has grown to `len` blocks.
pub open spec fn adjusted_target(len: int, target: crate::sha256::Hash) -> crate::sha256::Hash {
    if len < crate::DIFFICULTY_UPDATE_INTERVAL || len % (crate::DIFFICULTY_UPDATE_INTERVAL as int) != 0 {
        target
    } else {
        spec_min_target()
    }
}

/// The chain with `block` appended and applied.
pub open spec fn appended(c: ChainView, block: Block) -> ChainView {
    ChainView {
        blocks: c.blocks.push(block),
        utxos: apply_utxos(c.utxos, block@.transactions),
        mempool: apply_mempool(c.mempool, block@.transactions),
        target: adjusted_target(c.blocks.len() + 1int, c.target),
    }
}

/// What `add_block` makes of the chain, or why it refuses the block.
pub open spec fn add_block_result(c: ChainView, block: Block) -> Result<ChainView, BtcError> {
    if block.header.merkle_root != merkle_root(block@.transactions) {
        Err(BtcError::InvalidMerkleRoot)
    } else if !meets_target(block.header) {
        Err(BtcError::InvalidProofOfWork)
    } else if block.header.prev_block_hash != tip(c.blocks) {
        Err(BtcError::InvalidPreviousHash)
    } else {
        match block_txs_check(c, block@.transactions) {
            Err(e) => Err(e),
            Ok(_) => Ok(appended(c, block)),
        }
    }
}

/// Whether `add_block` would overflow a `u64`.
pub open spec fn add_block_overflows(c: ChainView, block: Block) -> bool {
    block.header.merkle_root == merkle_root(block@.transactions) && meets_target(block.header)
        && block.header.prev_block_hash == tip(c.blocks) && block_txs_overflow(c, block@.transactions)
}

/// The unspent outputs that replaying `blocks` from none leaves.
pub open spec fn replay_utxos(blocks: Seq<Block>) -> UtxoEntries
    decreases blocks.len(),
{
    if blocks.len() == 0 {
        UtxoEntries::empty()
    } else {
        apply_utxos(replay_utxos(blocks.drop_last()), blocks.last()@.transactions)
    }
}

pub open spec fn replay_mempool(mempool: MempoolEntries, blocks: Seq<Block>) -> MempoolEntries
    decreases blocks.len(),
{
    if blocks.len() == 0 {
        mempool
    } else {
        apply_mempool(replay_mempool(mempool, blocks.drop_last()), blocks.last()@.transactions)
    }
}

/// What `add_to_mempool_at` makes of the chain, or why it refuses the transaction.
pub open spec fn mempool_add_result(c: ChainView, tx: Transaction, now: Timestamp) -> Result<ChainView, BtcError> {
    let h = transaction_hash(tx@);
    if tx@.outputs.len() == 0 {
        Err(BtcError::EmptyTransaction)
    } else if has_key(c.mempool, h) {
        Ok(c)
    } else {
        match regular_check(tx@, c.utxos, seq![]) {
            Err(e) => Err(e),
            Ok(_) => Ok(
                ChainView {
                    mempool: insert_entry(c.mempool, h, MempoolEntry { transaction: tx, received_at: now }),
                    ..c
                },
            ),
        }
    }
}

pub open spec fn mempool_add_overflows(c: ChainView, tx: TransactionView) -> bool {
    tx.outputs.len() != 0 && !has_key(c.mempool, transaction_hash(tx)) && regular_overflow(tx, c.utxos, seq![])
}

/// Whether an entry is at most `MAX_MEMPOOL_TRANSACTION_AGE` seconds old at `now`.
pub open spec fn is_fresh(entry: MempoolEntry, now: Timestamp) -> bool {
    seconds_between(now.secs(), now.nanos(), entry.received_at.secs(), entry.received_at.nanos())
        <= crate::MAX_MEMPOOL_TRANSACTION_AGE
}

/// The entries still fresh at `now`, in order.
pub open spec fn fresh_entries(mempool: MempoolEntries, now: Timestamp) -> MempoolEntries {
    select_entries(mempool, Seq::new(mempool.len(), |k: int| is_fresh(mempool[k].1, now)))
}

/// The first waiting transactions, up to `BLOCK_TRANSACTION_CAP`.
pub open spec fn template_candidates(mempool: MempoolEntries) -> Seq<TransactionView> {
    let count = if mempool.len() < crate::BLOCK_TRANSACTION_CAP {
        mempool.len()
    } else {
        crate::BLOCK_TRANSACTION_CAP as nat
    };
    mempool.take(count as int).map_values(|e: (crate::sha256::Hash, MempoolEntry)| e.1.transaction@)
}

pub open spec fn coinbase_view(value: u64, unique_id: [u8; 16], pubkey: PublicKey) -> TransactionView {
    TransactionView {
        inputs: Seq::empty(),
        outputs: seq![TransactionOutput { value, unique_id, pubkey }],
    }
}

/// The block `create_template_with` builds, or why it cannot.
pub open spec fn template_result(c: ChainView, pubkey: PublicKey, now: Timestamp, unique_id: [u8; 16]) -> Result<BlockView, BtcError> {
    let candidates = template_candidates(c.mempool);
    match fees(candidates, c.utxos) {
        Err(e) => Err(e),
        Ok(f) => {
            let txs = seq![coinbase_view((block_reward(c.blocks.len() as int) + f) as u64, unique_id, pubkey)]
                + candidates;
            Ok(
                BlockView {
                    header: BlockHeader {
                        timestamp: now,
                        nonce: 0,
                        prev_block_hash: tip(c.blocks),
                        merkle_root: merkle_root(txs),
                        target: c.target,
                    },
                    transactions: txs,
                },
            )
        },
    }
}

pub open spec fn template_overflows(c: ChainView) -> bool {
    let candidates = template_candidates(c.mempool);
    fees_overflow(candidates, c.utxos) || match fees(candidates, c.utxos) {
        Ok(f) => block_reward(c.blocks.len() as int) + f > u64::MAX,
        Err(_) => false,
    }
}

// ---- lemmas about the folds ----

proof fn lemma_check_inputs_take(inputs: Seq<TransactionInput>, utxos: UtxoEntries, spent: Seq<crate::sha256::Hash>, i: int)
    requires
        0 <= i < inputs.len(),
    ensures
        check_inputs(inputs.take(i + 1), utxos, spent) == match check_inputs(inputs.take(i), utxos, spent) {
            Err(e) => Err(e),
            Ok((total, sp)) => {
                let input = inputs[i];
                let h = input.prev_transaction_output_hash;
                if sp.contains(h) {
                    Err(BtcError::DuplicateSpend)
                } else {
                    match lookup(utxos, h) {
                        None => Err(BtcError::UnknownInput),
                        Some(entry) => if !ecdsa_verifies(entry.1.pubkey.bytes()@, h.0@, input.signature.0@) {
                            Err(BtcError::InvalidSignature)
                        } else {
                            Ok((total + entry.1.value, sp.push(h)))
                        },
                    }
                }
            },
        },
        check_inputs_overflow(inputs.take(i + 1), utxos, spent) == (check_inputs_overflow(inputs.take(i), utxos, spent) || match check_inputs(
            inputs.take(i),
            utxos,
            spent,
        ) {
            Ok((total, sp)) => {
                let input = inputs[i];
                let h = input.prev_transaction_output_hash;
                !sp.contains(h) && match lookup(utxos, h) {
                    Some(entry) => ecdsa_verifies(entry.1.pubkey.bytes()@, h.0@, input.signature.0@)
                        && total + entry.1.value > u64::MAX,
                    None => false,
                }
            },
            Err(_) => false,
        }),
{
    assert(inputs.take(i + 1).drop_last() =~= inputs.take(i));
}

proof fn lemma_check_inputs_overflow_prefix(inputs: Seq<TransactionInput>, utxos: UtxoEntries, spent: Seq<crate::sha256::Hash>, k: int)
    requires
        0 <= k <= inputs.len(),
        !check_inputs_overflow(inputs, utxos, spent),
    ensures
        !check_inputs_overflow(inputs.take(k), utxos, spent),
    decreases inputs.len(),
{
    if k == inputs.len() {
        assert(inputs.take(k) =~= inputs);
    } else {
        let s = inputs.drop_last();
        assert(s.take(k) =~= inputs.take(k));
        lemma_check_inputs_overflow_prefix(s, utxos, spent, k);
    }
}

proof fn lemma_check_inputs_error_extends(inputs: Seq<TransactionInput>, utxos: UtxoEntries, spent: Seq<crate::sha256::Hash>, j: int, k: int)
    requires
        0 < j <= k <= inputs.len(),
        check_inputs(inputs.take(j), utxos, spent) is Err,
    ensures
        check_inputs(inputs.take(k), utxos, spent) == check_inputs(inputs.take(j), utxos, spent),
    decreases k - j,
{
    if k > j {
        lemma_check_inputs_error_extends(inputs, utxos, spent, j, k - 1);
        lemma_check_inputs_take(inputs, utxos, spent, k - 1);
    }
}

proof fn lemma_check_inputs_overflow_extends(inputs: Seq<TransactionInput>, utxos: UtxoEntries, spent: Seq<crate::sha256::Hash>, j: int, k: int)
    requires
        0 < j <= k <= inputs.len(),
        check_inputs_overflow(inputs.take(j), utxos, spent),
    ensures
        check_inputs_overflow(inputs.take(k), utxos, spent),
    decreases k - j,
{
    if k > j {
        lemma_check_inputs_overflow_extends(inputs, utxos, spent, j, k - 1);
        lemma_check_inputs_take(inputs, utxos, spent, k - 1);
    }
}

proof fn lemma_check_inputs_no_overflow_after_error(inputs: Seq<TransactionInput>, utxos: UtxoEntries, spent: Seq<crate::sha256::Hash>, j: int, k: int)
    requires
        0 < j <= k <= inputs.len(),
        check_inputs(inputs.take(j), utxos, spent) is Err,
        !check_inputs_overflow(inputs.take(j), utxos, spent),
    ensures
        !check_inputs_overflow(inputs.take(k), utxos, spent),
    decreases k - j,
{
    if k > j {
        lemma_check_inputs_no_overflow_after_error(inputs, utxos, spent, j, k - 1);
        lemma_check_inputs_error_extends(inputs, utxos, spent, j, k - 1);
        lemma_check_inputs_take(inputs, utxos, spent, k - 1);
    }
}

proof fn lemma_regulars_overflow_extends(txs: Seq<TransactionView>, utxos: UtxoEntries, spent: Seq<crate::sha256::Hash>, j: int, k: int)
    requires
        0 < j <= k <= txs.len(),
        regulars_overflow(txs.take(j), utxos, spent),
    ensures
        regulars_overflow(txs.take(k), utxos, spent),
    decreases k - j,
{
    if k > j {
        lemma_regulars_overflow_extends(txs, utxos, spent, j, k - 1);
        lemma_check_regulars_take(txs, utxos, spent, k - 1);
    }
}

proof fn lemma_regulars_no_overflow_after_error(txs: Seq<TransactionView>, utxos: UtxoEntries, spent: Seq<crate::sha256::Hash>, j: int, k: int)
    requires
        0 < j <= k <= txs.len(),
        check_regulars(txs.take(j), utxos, spent) is Err,
        !regulars_overflow(txs.take(j), utxos, spent),
    ensures
        !regulars_overflow(txs.take(k), utxos, spent),
    decreases k - j,
{
    if k > j {
        lemma_regulars_no_overflow_after_error(txs, utxos, spent, j, k - 1);
        lemma_check_regulars_error_extends(txs, utxos, spent, j, k - 1);
        lemma_check_regulars_take(txs, utxos, spent, k - 1);
    }
}

proof fn lemma_check_regulars_take(txs: Seq<TransactionView>, utxos: UtxoEntries, spent: Seq<crate::sha256::Hash>, i: int)
    requires
        0 <= i < txs.len(),
    ensures
        check_regulars(txs.take(i + 1), utxos, spent) == match check_regulars(txs.take(i), utxos, spent) {
            Err(e) => Err(e),
            Ok(sp) => regular_check(txs[i], utxos, sp),
        },
        regulars_overflow(txs.take(i + 1), utxos, spent) == (regulars_overflow(txs.take(i), utxos, spent) || match check_regulars(
            txs.take(i),
            utxos,
            spent,
        ) {
            Ok(sp) => regular_overflow(txs[i], utxos, sp),
            Err(_) => false,
        }),
{
    assert(txs.take(i + 1).drop_last() =~= txs.take(i));
}

proof fn lemma_regulars_overflow_prefix(txs: Seq<TransactionView>, utxos: UtxoEntries, spent: Seq<crate::sha256::Hash>, k: int)
    requires
        0 <= k <= txs.len(),
        !regulars_overflow(txs, utxos, spent),
    ensures
        !regulars_overflow(txs.take(k), utxos, spent),
    decreases txs.len(),
{
    if k == txs.len() {
        assert(txs.take(k) =~= txs);
    } else {
        let s = txs.drop_last();
        assert(s.take(k) =~= txs.take(k));
        lemma_regulars_overflow_prefix(s, utxos, spent, k);
    }
}

proof fn lemma_check_regulars_error_extends(txs: Seq<TransactionView>, utxos: UtxoEntries, spent: Seq<crate::sha256::Hash>, j: int, k: int)
    requires
        0 < j <= k <= txs.len(),
        check_regulars(txs.take(j), utxos, spent) is Err,
    ensures
        check_regulars(txs.take(k), utxos, spent) == check_regulars(txs.take(j), utxos, spent),
    decreases k - j,
{
    if k > j {
        lemma_check_regulars_error_extends(txs, utxos, spent, j, k - 1);
        lemma_check_regulars_take(txs, utxos, spent, k - 1);
    }
}

proof fn lemma_check_inputs_total_nonneg(inputs: Seq<TransactionInput>, utxos: UtxoEntries, spent: Seq<crate::sha256::Hash>)
    ensures
        check_inputs(inputs, utxos, spent) matches Ok((t, _)) ==> t >= 0,
    decreases inputs.len(),
{
    if inputs.len() > 0 {
        lemma_check_inputs_total_nonneg(inputs.drop_last(), utxos, spent);
    }
}

/// Whether `h` is among `spent`.
fn contains_hash(spent: &Vec<crate::sha256::Hash>, h: &crate::sha256::Hash) -> (r: bool)
    ensures
        r == spent@.contains(*h),
{
    let mut i: usize = 0;
    while i < spent.len()
        invariant
            i <= spent.len(),
            forall|j: int| 0 <= j < i ==> spent@[j] != *h,
        decreases spent.len() - i,
    {
        if spent[i] == *h {
            assert(spent@[i as int] == *h);
            return true;
        }
        i = i + 1;
    }
    false
}

proof fn lemma_apply_take(utxos: UtxoEntries, mempool: MempoolEntries, txs: Seq<TransactionView>, i: int)
    requires
        0 <= i < txs.len(),
    ensures
        apply_utxos(utxos, txs.take(i + 1)) == add_outputs(
            spend_inputs(apply_utxos(utxos, txs.take(i)), txs[i].inputs),
            txs[i].outputs,
        ),
        apply_mempool(mempool, txs.take(i + 1)) == remove_entry(
            apply_mempool(mempool, txs.take(i)),
            transaction_hash(txs[i]),
        ),
{
    assert(txs.take(i + 1).drop_last() =~= txs.take(i));
}

proof fn lemma_spend_take(utxos: UtxoEntries, inputs: Seq<TransactionInput>, j: int)
    requires
        0 <= j < inputs.len(),
    ensures
        spend_inputs(utxos, inputs.take(j + 1)) == remove_entry(
            spend_inputs(utxos, inputs.take(j)),
            inputs[j].prev_transaction_output_hash,
        ),
{
    assert(inputs.take(j + 1).drop_last() =~= inputs.take(j));
}

proof fn lemma_add_take(utxos: UtxoEntries, outputs: Seq<TransactionOutput>, j: int)
    requires
        0 <= j < outputs.len(),
    ensures
        add_outputs(utxos, outputs.take(j + 1)) == insert_entry(
            add_outputs(utxos, outputs.take(j)),
            output_hash(outputs[j]),
            (false, outputs[j]),
        ),
{
    assert(outputs.take(j + 1).drop_last() =~= outputs.take(j));
}

/// Applies a block: for each transaction in turn, drops it from the waiting transactions,
/// removes the outputs it spends and adds the outputs it pays.
fn apply_block_to(
    utxos: &mut HashIndex<(bool, TransactionOutput)>,
    mempool: &mut HashIndex<MempoolEntry>,
    block: &Block,
)
    ensures
        final(utxos)@ == apply_utxos(old(utxos)@, block@.transactions),
        final(mempool)@ == apply_mempool(old(mempool)@, block@.transactions),
{
    let ghost u0 = utxos@;
    let ghost m0 = mempool@;
    let ghost txs = block@.transactions;
    let n = block.transactions.len();
    let mut i: usize = 0;
    assert(txs.take(0) =~= Seq::<TransactionView>::empty());
    while i < n
        invariant
            n == block.transactions.len(),
            txs == block@.transactions,
            i <= n,
            utxos@ == apply_utxos(u0, txs.take(i as int)),
            mempool@ == apply_mempool(m0, txs.take(i as int)),
        decreases n - i,
    {
        let tx = &block.transactions[i];
        proof {
            lemma_apply_take(u0, m0, txs, i as int);
            assert(txs[i as int] == tx@);
        }
        let h = tx.hash();
        mempool.remove(&h);
        let ghost before = utxos@;
        let mut j: usize = 0;
        assert(tx.inputs@.take(0) =~= Seq::<TransactionInput>::empty());
        while j < tx.inputs.len()
            invariant
                j <= tx.inputs.len(),
                utxos@ == spend_inputs(before, tx.inputs@.take(j as int)),
            decreases tx.inputs.len() - j,
        {
            proof {
                lemma_spend_take(before, tx.inputs@, j as int);
            }
            utxos.remove(&tx.inputs[j].prev_transaction_output_hash);
            j = j + 1;
        }
        assert(tx.inputs@.take(tx.inputs.len() as int) =~= tx.inputs@);
        let ghost spent = utxos@;
        let mut k: usize = 0;
        assert(tx.outputs@.take(0) =~= Seq::<TransactionOutput>::empty());
        while k < tx.outputs.len()
            invariant
                k <= tx.outputs.len(),
                utxos@ == add_outputs(spent, tx.outputs@.take(k as int)),
            decreases tx.outputs.len() - k,
        {
            proof {
                lemma_add_take(spent, tx.outputs@, k as int);
            }
            let output = tx.outputs[k];
            utxos.insert(output.hash(), (false, output));
            k = k + 1;
        }
        assert(tx.outputs@.take(tx.outputs.len() as int) =~= tx.outputs@);
        i = i + 1;
    }
    assert(txs.take(n as int) =~= txs);
}

impl Blockchain {
    /// An empty chain at the easiest target.
    pub fn new() -> (r: Blockchain)
        ensures
            r@.blocks == Seq::<Block>::empty(),
            r@.utxos == UtxoEntries::empty(),
            r@.mempool == MempoolEntries::empty(),
            r@.target == spec_min_target(),
    {
        Blockchain {
            blocks: Vec::new(),
            utxos: HashIndex::new(),
            mempool: HashIndex::new(),
            target: crate::min_target(),
        }
    }

    /// A chain made of its parts as they are.
    pub(crate) fn from_parts(
        blocks: Vec<Block>,
        utxos: HashIndex<(bool, TransactionOutput)>,
        mempool: HashIndex<MempoolEntry>,
        target: crate::sha256::Hash,
    ) -> (r: Blockchain)
        ensures
            r@ == (ChainView { blocks: blocks@, utxos: utxos@, mempool: mempool@, target }),
    {
        Blockchain { blocks, utxos, mempool, target }
    }

    pub fn blocks(&self) -> (r: &Vec<Block>)
        ensures
            r@ == self@.blocks,
    {
        &self.blocks
    }

    pub fn block_height(&self) -> (r: u64)
        ensures
            r == self@.blocks.len(),
    {
        self.blocks.len() as u64
    }

    pub fn target(&self) -> (r: crate::sha256::Hash)
        ensures
            r == self@.target,
    {
        self.target
    }

    pub fn utxos(&self) -> (r: &HashIndex<(bool, TransactionOutput)>)
        ensures
            r@ == self@.utxos,
    {
        &self.utxos
    }

    pub fn mempool(&self) -> (r: &HashIndex<MempoolEntry>)
        ensures
            r@ == self@.mempool,
    {
        &self.mempool
    }

    /// The reward that the next block's coinbase may claim.
    pub fn calculate_block_reward(&self) -> (r: u64)
        ensures
            r == block_reward(self@.blocks.len() as int),
    {
        let halvings: u64 = self.block_height() / crate::HALVING_INTERVAL;
        let shift: u32 = halvings as u32;
        proof {
            assert(shift as int == halvings as int % 0x1_0000_0000) by (bit_vector)
                requires
                    shift == halvings as u32,
            ;
        }
        if shift >= 64 {
            0
        } else {
            let x = crate::initial_reward_sats();
            let reward = x >> shift;
            proof {
                let s64 = shift as u64;
                assert(x >> shift == x >> s64) by (bit_vector)
                    requires
                        s64 == shift as u64,
                        shift < 64,
                ;
            }
            reward
        }
    }

    /// The hash of the last block, or the zero hash.
    fn tip_hash(&self) -> (r: crate::sha256::Hash)
        ensures
            r == tip(self@.blocks),
    {
        if self.blocks.len() == 0 {
            crate::sha256::Hash::zero()
        } else {
            self.blocks[self.blocks.len() - 1].hash()
        }
    }

    /// Resets the target to the easiest one at every `DIFFICULTY_UPDATE_INTERVAL` blocks.
    pub fn try_adjust_target(&mut self)
        ensures
            final(self)@ == (ChainView {
                target: adjusted_target(old(self)@.blocks.len() as int, old(self)@.target),
                ..old(self)@
            }),
    {
        if self.blocks.len() < crate::DIFFICULTY_UPDATE_INTERVAL as usize || self.blocks.len()
            % crate::DIFFICULTY_UPDATE_INTERVAL as usize != 0 {
            return;
        }
        self.target = crate::min_target();
    }

    /// Checks a block's transactions against the chain; `None` where a sum overflows.
    fn validate_block_transactions(&self, block: &Block) -> (r: Option<Result<(), BtcError>>)
        ensures
            r is None <==> block_txs_overflow(self@, block@.transactions),
            r matches Some(res) ==> res == block_txs_check(self@, block@.transactions),
    {
        let ghost txs = block@.transactions;
        let ghost rest = after_coinbase(txs);
        let n = block.transactions.len();
        if n == 0 || block.transactions[0].inputs.len() != 0 {
            return Some(Err(BtcError::InvalidCoinbase));
        }
        proof {
            assert(rest =~= tx_views(block.transactions@).subrange(1, n as int));
        }
        let fees = match crate::types::block::fees_checked(&block.transactions, 1, &self.utxos) {
            None => {
                return None;
            },
            Some(Err(e)) => {
                return Some(Err(e));
            },
            Some(Ok(f)) => f,
        };
        let reward = match self.calculate_block_reward().checked_add(fees) {
            None => {
                return None;
            },
            Some(v) => v,
        };
        let coinbase_total = match crate::types::block::outputs_total_checked(&block.transactions[0].outputs) {
            None => {
                return None;
            },
            Some(v) => v,
        };
        if coinbase_total > reward {
            return Some(Err(BtcError::InvalidCoinbase));
        }
        let mut spent: Vec<crate::sha256::Hash> = Vec::new();
        let mut i: usize = 1;
        assert(rest.take(0) =~= Seq::<TransactionView>::empty());
        while i < n
            invariant
                n == block.transactions.len(),
                1 <= i <= n,
                txs == block@.transactions,
                rest == after_coinbase(txs),
                rest.len() == n - 1,
                block_txs_check(self@, txs) == match check_regulars(rest, self@.utxos, seq![]) {
                    Err(e) => Err(e),
                    Ok(_) => Ok(()),
                },
                block_txs_overflow(self@, txs) == regulars_overflow(rest, self@.utxos, seq![]),
                !regulars_overflow(rest.take(i - 1), self@.utxos, seq![]),
                check_regulars(rest.take(i - 1), self@.utxos, seq![]) == Ok::<Seq<crate::sha256::Hash>, BtcError>(spent@),
            decreases n - i,
        {
            proof {
                lemma_check_regulars_take(rest, self@.utxos, seq![], i - 1);
                assert(rest[i - 1] == block.transactions@[i as int]@);
                assert(rest.take(rest.len() as int) =~= rest);
            }
            match self.validate_regular_transaction(&block.transactions[i], &mut spent) {
                None => {
                    proof {
                        lemma_regulars_overflow_extends(rest, self@.utxos, seq![], i as int, rest.len() as int);
                    }
                    return None;
                },
                Some(Ok(())) => {},
                Some(Err(e)) => {
                    proof {
                        lemma_check_regulars_error_extends(rest, self@.utxos, seq![], i as int, rest.len() as int);
                        lemma_regulars_no_overflow_after_error(rest, self@.utxos, seq![], i as int, rest.len() as int);
                    }
                    return Some(Err(e));
                },
            }
            i = i + 1;
        }
        assert(rest.take(n - 1) =~= rest);
        Some(Ok(()))
    }

    /// Checks `block` against the chain as `add_block` does; `None` where a sum overflows.
    fn check_block(&self, block: &Block) -> (r: Option<Result<(), BtcError>>)
        ensures
            r is None <==> add_block_overflows(self@, *block),
            r matches Some(res) ==> match add_block_result(self@, *block) {
                Ok(_) => res is Ok,
                Err(e) => res == Err::<(), BtcError>(e),
            },
    {
        match block.validate_merkle_root() {
            Ok(()) => {},
            Err(e) => {
                return Some(Err(e));
            },
        }
        match block.validate_proof_of_work() {
            Ok(()) => {},
            Err(e) => {
                return Some(Err(e));
            },
        }
        let expected_prev = self.tip_hash();
        if !(block.header.prev_block_hash == expected_prev) {
            return Some(Err(BtcError::InvalidPreviousHash));
        }
        self.validate_block_transactions(block)
    }

    /// Whether `add_block(block)` would overflow a `u64` on the way: callers test
    /// this before they call `add_block`.
    pub fn add_block_overflows(&self, block: &Block) -> (r: bool)
        ensures
            r == add_block_overflows(self@, *block),
    {
        self.check_block(block).is_none()
    }

    /// Appends `block` if it is valid: it commits to its transactions, meets its target,
    /// points at the tip, and its transactions pass `block_txs_check`. Otherwise the chain
    /// is left as it was.
    pub fn add_block(&mut self, block: Block) -> (r: Result<(), BtcError>)
        requires
            !add_block_overflows(old(self)@, block),
        ensures
            match add_block_result(old(self)@, block) {
                Ok(c) => r is Ok && final(self)@ == c,
                Err(e) => r == Err::<(), BtcError>(e) && final(self)@ == old(self)@,
            },
    {
        match self.check_block(&block) {
            Some(Ok(())) => {},
            Some(Err(e)) => {
                return Err(e);
            },
            None => {
                return Ok(());
            },
        }
        apply_block_to(&mut self.utxos, &mut self.mempool, &block);
        self.blocks.push(block);
        self.try_adjust_target();
        Ok(())
    }

    /// Rebuilds the unspent outputs by replaying every block from an empty set.
    pub fn rebuild_utxos(&mut self)
        ensures
            final(self)@ == (ChainView {
                utxos: replay_utxos(old(self)@.blocks),
                mempool: replay_mempool(old(self)@.mempool, old(self)@.blocks),
                ..old(self)@
            }),
    {
        let ghost m0 = self.mempool@;
        let ghost blocks = self.blocks@;
        self.utxos.clear();
        let n = self.blocks.len();
        let mut i: usize = 0;
        assert(blocks.take(0) =~= Seq::<Block>::empty());
        while i < n
            invariant
                n == self.blocks.len(),
                blocks == self.blocks@,
                i <= n,
                self.utxos@ == replay_utxos(blocks.take(i as int)),
                self.mempool@ == replay_mempool(m0, blocks.take(i as int)),
                self.target == old(self).target,
            decreases n - i,
        {
            proof {
                assert(blocks.take(i + 1).drop_last() =~= blocks.take(i as int));
            }
            apply_block_to(&mut self.utxos, &mut self.mempool, &self.blocks[i]);
            i = i + 1;
        }
        assert(blocks.take(n as int) =~= blocks);
    }

    /// Whether `add_to_mempool(transaction)` would overflow a `u64` on the way.
    pub fn add_to_mempool_overflows(&self, transaction: &Transaction) -> (r: bool)
        ensures
            r == mempool_add_overflows(self@, transaction@),
    {
        if transaction.outputs.len() == 0 {
            return false;
        }
        let hash = transaction.hash();
        if self.mempool.contains_key(&hash) {
            return false;
        }
        let mut spent: Vec<crate::sha256::Hash> = Vec::new();
        self.validate_regular_transaction(transaction, &mut spent).is_none()
    }

    /// Adds a transaction that passes the checks of a regular transaction to the waiting
    /// ones, received at `now`; one already waiting is left as it is.
    pub fn add_to_mempool_at(&mut self, transaction: Transaction, now: Timestamp) -> (r: Result<(), BtcError>)
        requires
            !mempool_add_overflows(old(self)@, transaction@),
        ensures
            match mempool_add_result(old(self)@, transaction, now) {
                Ok(c) => r is Ok && final(self)@ == c,
                Err(e) => r == Err::<(), BtcError>(e) && final(self)@ == old(self)@,
            },
    {
        match transaction.validate_basic() {
            Ok(()) => {},
            Err(e) => {
                return Err(e);
            },
        }
        let hash = transaction.hash();
        if self.mempool.contains_key(&hash) {
            return Ok(());
        }
        let mut spent: Vec<crate::sha256::Hash> = Vec::new();
        match self.validate_regular_transaction(&transaction, &mut spent) {
            Some(Ok(())) => {},
            Some(Err(e)) => {
                return Err(e);
            },
            None => {
                return Ok(());
            },
        }
        self.mempool.insert(hash, MempoolEntry { transaction, received_at: now });
        Ok(())
    }

    /// `add_to_mempool_at` the current time.
    pub fn add_to_mempool(&mut self, transaction: Transaction) -> (r: Result<(), BtcError>)
        requires
            !mempool_add_overflows(old(self)@, transaction@),
        ensures
            exists|now: Timestamp|
                match #[trigger] mempool_add_result(old(self)@, transaction, now) {
                    Ok(c) => r is Ok && final(self)@ == c,
                    Err(e) => r == Err::<(), BtcError>(e) && final(self)@ == old(self)@,
                },
    {
        let now = Timestamp::now();
        self.add_to_mempool_at(transaction, now)
    }

    /// Drops the waiting transactions received more than `MAX_MEMPOOL_TRANSACTION_AGE`
    /// seconds before `now`.
    pub fn cleanup_mempool_at(&mut self, now: Timestamp)
        ensures
            final(self)@ == (ChainView { mempool: fresh_entries(old(self)@.mempool, now), ..old(self)@ }),
    {
        let n = self.mempool.len();
        let mut keep: Vec<bool> = Vec::new();
        let mut i: usize = 0;
        while i < n
            invariant
                n == self.mempool@.len(),
                i <= n,
                keep@ =~= Seq::new(i as nat, |k: int| is_fresh(self.mempool@[k].1, now)),
            decreases n - i,
        {
            let entry = self.mempool.entry(i);
            let age = now.seconds_since(&entry.1.received_at);
            keep.push(age <= crate::MAX_MEMPOOL_TRANSACTION_AGE);
            i = i + 1;
        }
        self.mempool.retain_flags(&keep);
    }

    /// `cleanup_mempool_at` the current time.
    pub fn cleanup_mempool(&mut self)
        ensures
            exists|now: Timestamp|
                final(self)@ == (ChainView { mempool: #[trigger] fresh_entries(old(self)@.mempool, now), ..old(self)@ }),
    {
        let now = Timestamp::now();
        self.cleanup_mempool_at(now);
    }

    /// Whether `create_template` would overflow a `u64` on the way.
    pub fn template_overflows(&self) -> (r: bool)
        ensures
            r == template_overflows(self@),
    {
        let candidates = self.template_candidates();
        match crate::types::block::fees_checked(&candidates, 0, &self.utxos) {
            None => true,
            Some(Err(_)) => false,
            Some(Ok(fees)) => self.calculate_block_reward().checked_add(fees).is_none(),
        }
    }

    /// Copies of the first waiting transactions, up to `BLOCK_TRANSACTION_CAP`.
    fn template_candidates(&self) -> (r: Vec<Transaction>)
        ensures
            tx_views(r@) == template_candidates(self@.mempool),
            tx_views(r@).subrange(0, r@.len() as int) == template_candidates(self@.mempool),
    {
        let count = if self.mempool.len() < crate::BLOCK_TRANSACTION_CAP {
            self.mempool.len()
        } else {
            crate::BLOCK_TRANSACTION_CAP
        };
        let mut candidates: Vec<Transaction> = Vec::new();
        let mut i: usize = 0;
        while i < count
            invariant
                i <= count,
                count <= self.mempool@.len(),
                count == if self.mempool@.len() < crate::BLOCK_TRANSACTION_CAP {
                    self.mempool@.len()
                } else {
                    crate::BLOCK_TRANSACTION_CAP as nat
                },
                tx_views(candidates@) =~= self.mempool@.take(i as int).map_values(
                    |e: (crate::sha256::Hash, MempoolEntry)| e.1.transaction@,
                ),
            decreases count - i,
        {
            let entry = self.mempool.entry(i);
            let copy = entry.1.transaction.clone();
            let ghost before = candidates@;
            candidates.push(copy);
            proof {
                assert(candidates@ == before.push(copy));
                assert(tx_views(candidates@) =~= tx_views(before).push(copy@));
                assert(self.mempool@.take(i + 1).map_values(
                    |e: (crate::sha256::Hash, MempoolEntry)| e.1.transaction@,
                ) =~= self.mempool@.take(i as int).map_values(
                    |e: (crate::sha256::Hash, MempoolEntry)| e.1.transaction@,
                ).push(entry.1.transaction@));
            }
            i = i + 1;
        }
        assert(tx_views(candidates@).subrange(0, candidates@.len() as int) =~= tx_views(candidates@));
        candidates
    }

    /// A block to mine on top of the chain, at `now`: a coinbase paying the reward and the
    /// fees to `pubkey` with id `unique_id`, then the first waiting transactions.
    pub fn create_template_with(&self, pubkey: PublicKey, now: Timestamp, unique_id: [u8; 16]) -> (r: Result<Block, BtcError>)
        requires
            !template_overflows(self@),
        ensures
            match template_result(self@, pubkey, now, unique_id) {
                Ok(v) => r matches Ok(b) && b@ == v,
                Err(e) => r matches Err(e2) && e2 == e,
            },
    {
        let mut candidates = self.template_candidates();
        let fees = match crate::types::block::fees_checked(&candidates, 0, &self.utxos) {
            Some(Ok(f)) => f,
            Some(Err(e)) => {
                return Err(e);
            },
            None => 0,
        };
        let reward = match self.calculate_block_reward().checked_add(fees) {
            Some(v) => v,
            None => 0,
        };
        let ghost cands = tx_views(candidates@);
        let coinbase = Transaction::coinbase(TransactionOutput { value: reward, unique_id, pubkey });
        candidates.insert(0, coinbase);
        assert(tx_views(candidates@) =~= seq![coinbase_view(reward, unique_id, pubkey)] + cands);
        let merkle = crate::util::MerkleRoot::calculate(candidates.as_slice());
        let header = BlockHeader::new(now, 0, self.tip_hash(), merkle, self.target);
        Ok(Block::new(header, candidates))
    }

    /// `create_template_with` the current time and a fresh random id.
    pub fn create_template(&self, pubkey: PublicKey) -> (r: Result<Block, BtcError>)
        requires
            !template_overflows(self@),
        ensures
            exists|now: Timestamp, unique_id: [u8; 16]|
                unique_id[6] / 16 == 4 && unique_id[8] / 64 == 2 && match #[trigger] template_result(
                    self@,
                    pubkey,
                    now,
                    unique_id,
                ) {
                    Ok(v) => r matches Ok(b) && b@ == v,
                    Err(e) => r matches Err(e2) && e2 == e,
                },
    {
        let now = Timestamp::now();
        let unique_id = crate::types::transaction::new_unique_id();
        self.create_template_with(pubkey, now, unique_id)
    }

    /// Checks a transaction that is not a coinbase; `spent` carries the hashes that
    /// transactions of the same block spent before it. `None` where a sum overflows.
    fn validate_regular_transaction(&self, transaction: &Transaction, spent_in_context: &mut Vec<crate::sha256::Hash>) -> (r: Option<Result<(), BtcError>>)
        ensures
            r is None <==> regular_overflow(transaction@, self@.utxos, old(spent_in_context)@),
            r matches Some(res) ==> match regular_check(transaction@, self@.utxos, old(spent_in_context)@) {
                Ok(sp) => res is Ok && final(spent_in_context)@ == sp,
                Err(e) => res == Err::<(), BtcError>(e),
            },
    {
        let ghost spent0 = spent_in_context@;
        let ghost utxos = self.utxos@;
        if transaction.outputs.len() == 0 {
            return Some(Err(BtcError::EmptyTransaction));
        }
        if transaction.inputs.len() == 0 {
            return Some(Err(BtcError::InvalidCoinbase));
        }
        let ghost inputs = transaction.inputs@;
        let mut input_total: u64 = 0;
        let mut i: usize = 0;
        assert(inputs.take(0) =~= Seq::<TransactionInput>::empty());
        while i < transaction.inputs.len()
            invariant
                i <= transaction.inputs.len(),
                inputs == transaction.inputs@,
                utxos == self.utxos@,
                spent0 == old(spent_in_context)@,
                transaction.outputs.len() > 0,
                transaction.inputs.len() > 0,
                !check_inputs_overflow(inputs.take(i as int), utxos, spent0),
                check_inputs(inputs.take(i as int), utxos, spent0) == Ok::<(int, Seq<crate::sha256::Hash>), BtcError>((input_total as int, spent_in_context@)),
            decreases transaction.inputs.len() - i,
        {
            let input = &transaction.inputs[i];
            let h = input.prev_transaction_output_hash;
            proof {
                lemma_check_inputs_take(inputs, utxos, spent0, i as int);
                assert(inputs.take(inputs.len() as int) =~= inputs);
            }
            if contains_hash(spent_in_context, &h) {
                proof {
                    lemma_check_inputs_error_extends(inputs, utxos, spent0, i + 1, inputs.len() as int);
                    lemma_check_inputs_no_overflow_after_error(inputs, utxos, spent0, i + 1, inputs.len() as int);
                }
                return Some(Err(BtcError::DuplicateSpend));
            }
            spent_in_context.push(h);
            match self.utxos.get(&h) {
                None => {
                    proof {
                        lemma_check_inputs_error_extends(inputs, utxos, spent0, i + 1, inputs.len() as int);
                        lemma_check_inputs_no_overflow_after_error(inputs, utxos, spent0, i + 1, inputs.len() as int);
                    }
                    return Some(Err(BtcError::UnknownInput));
                },
                Some(entry) => {
                    if !entry.1.pubkey.verify_hash(h, &input.signature) {
                        proof {
                            lemma_check_inputs_error_extends(inputs, utxos, spent0, i + 1, inputs.len() as int);
                            lemma_check_inputs_no_overflow_after_error(inputs, utxos, spent0, i + 1, inputs.len() as int);
                        }
                        return Some(Err(BtcError::InvalidSignature));
                    }
                    match input_total.checked_add(entry.1.value) {
                        Some(t) => {
                            input_total = t;
                        },
                        None => {
                            proof {
                                lemma_check_inputs_overflow_extends(inputs, utxos, spent0, i + 1, inputs.len() as int);
                            }
                            return None;
                        },
                    }
                },
            }
            i = i + 1;
        }
        assert(inputs.take(inputs.len() as int) =~= inputs);
        match crate::types::block::outputs_total_checked(&transaction.outputs) {
            None => None,
            Some(output_total) => {
                if output_total > input_total {
                    Some(Err(BtcError::Overspend))
                } else {
                    Some(Ok(()))
                }
            },
        }
    }
}

// ---- laws ----

/// The hashes that the inputs spend, in order.
pub open spec fn spent_hashes(inputs: Seq<TransactionInput>) -> Seq<crate::sha256::Hash> {
    inputs.map_values(|i: TransactionInput| i.prev_transaction_output_hash)
}

/// The hashes that the transactions spend, in order.
pub open spec fn all_spent_hashes(txs: Seq<TransactionView>) -> Seq<crate::sha256::Hash>
    decreases txs.len(),
{
    if txs.len() == 0 {
        seq![]
    } else {
        all_spent_hashes(txs.drop_last()) + spent_hashes(txs.last().inputs)
    }
}

proof fn lemma_check_inputs_spends(inputs: Seq<TransactionInput>, utxos: UtxoEntries, spent: Seq<crate::sha256::Hash>)
    requires
        check_inputs(inputs, utxos, spent) is Ok,
        spent.no_duplicates(),
    ensures
        check_inputs(inputs, utxos, spent)->Ok_0.1 == spent + spent_hashes(inputs),
        check_inputs(inputs, utxos, spent)->Ok_0.1.no_duplicates(),
    decreases inputs.len(),
{
    if inputs.len() > 0 {
        lemma_check_inputs_spends(inputs.drop_last(), utxos, spent);
        assert(spent_hashes(inputs) =~= spent_hashes(inputs.drop_last()).push(
            inputs.last().prev_transaction_output_hash,
        ));
        let sp = check_inputs(inputs.drop_last(), utxos, spent)->Ok_0.1;
        let h = inputs.last().prev_transaction_output_hash;
        assert(!sp.contains(h));
        assert forall|i: int, j: int| 0 <= i < sp.push(h).len() && 0 <= j < sp.push(h).len() && i != j implies sp.push(h)[i] != sp.push(h)[j] by {
            if i == sp.len() {
                assert(sp[j] == sp.push(h)[j]);
            } else if j == sp.len() {
                assert(sp[i] == sp.push(h)[i]);
            }
        }
        assert(spent + spent_hashes(inputs) =~= (spent + spent_hashes(inputs.drop_last())).push(h));
    } else {
        assert(spent + spent_hashes(inputs) =~= spent);
    }
}

proof fn lemma_check_regulars_spends(txs: Seq<TransactionView>, utxos: UtxoEntries, spent: Seq<crate::sha256::Hash>)
    requires
        check_regulars(txs, utxos, spent) is Ok,
        spent.no_duplicates(),
    ensures
        check_regulars(txs, utxos, spent)->Ok_0 == spent + all_spent_hashes(txs),
        check_regulars(txs, utxos, spent)->Ok_0.no_duplicates(),
    decreases txs.len(),
{
    if txs.len() > 0 {
        lemma_check_regulars_spends(txs.drop_last(), utxos, spent);
        let sp = check_regulars(txs.drop_last(), utxos, spent)->Ok_0;
        lemma_check_inputs_spends(txs.last().inputs, utxos, sp);
        assert(spent + all_spent_hashes(txs) =~= spent + all_spent_hashes(txs.drop_last())
            + spent_hashes(txs.last().inputs));
    } else {
        assert(spent + all_spent_hashes(txs) =~= spent);
    }
}

/// A block whose transactions spend one output twice, in one transaction or in two, is
/// refused, and `add_block` leaves the chain as it was.
pub proof fn law_double_spend_refused(c: ChainView, block: Block)
    requires
        !all_spent_hashes(after_coinbase(block@.transactions)).no_duplicates(),
    ensures
        add_block_result(c, block) is Err,
{
    if add_block_result(c, block) is Ok {
        let txs = block@.transactions;
        assert(block_txs_check(c, txs) is Ok);
        assert(Seq::<crate::sha256::Hash>::empty().no_duplicates());
        lemma_check_regulars_spends(after_coinbase(txs), c.utxos, seq![]);
        assert(seq![] + all_spent_hashes(after_coinbase(txs)) =~= all_spent_hashes(after_coinbase(txs)));
    }
}

/// The reward halves every `HALVING_INTERVAL` blocks, until it has been halved 63 times.
pub proof fn law_reward_halves(height: int)
    requires
        0 <= height,
        height / (crate::HALVING_INTERVAL as int) < 63,
    ensures
        block_reward(height + crate::HALVING_INTERVAL) == block_reward(height) / 2,
{
    let k = height / 210;
    assert((height + 210) / 210 == k + 1);
    let r = spec_initial_reward_sats();
    let ku = k as u64;
    assert(ku < 63);
    assert((r >> ((ku + 1) as u64)) == (r >> ku) / 2) by (bit_vector)
        requires
            ku < 63,
    ;
}

/// From the 64th halving on (while the halving count fits in 32 bits), there is no reward.
pub proof fn law_reward_runs_out(height: int)
    requires
        64 * (crate::HALVING_INTERVAL as int) <= height < 0x1_0000_0000 * (crate::HALVING_INTERVAL as int),
    ensures
        block_reward(height) == 0,
{
}

/// A block that is accepted becomes the tip: the chain grows by one block and the next
/// block must point back to this one's hash.
pub proof fn law_accepted_block_is_tip(c: ChainView, block: Block)
    requires
        add_block_result(c, block) is Ok,
    ensures
        add_block_result(c, block)->Ok_0.blocks.len() == c.blocks.len() + 1,
        tip(add_block_result(c, block)->Ok_0.blocks) == header_hash(block.header),
        block.header.prev_block_hash == tip(c.blocks),
{
}

/// The target is the easiest one and stays so as the chain grows.
pub proof fn law_target_stays_easiest(len: int, target: crate::sha256::Hash)
    requires
        target == spec_min_target(),
    ensures
        adjusted_target(len, target) == spec_min_target(),
{
}

proof fn lemma_fees_nonneg(txs: Seq<TransactionView>, utxos: UtxoEntries)
    requires
        fees(txs, utxos) is Ok,
    ensures
        fees(txs, utxos)->Ok_0 >= 0,
    decreases txs.len(),
{
    if txs.len() > 0 {
        lemma_fees_nonneg(txs.drop_last(), utxos);
    }
}

/// A template the node builds, once mined, is accepted: where its waiting
/// transactions pass the checks together and the reward and fees fit in a `u64`,
/// the block with the template's transactions and the template's header at any nonce
/// that meets the target is a block `add_block` takes.
pub proof fn law_mined_template_is_accepted(
    c: ChainView,
    pubkey: PublicKey,
    now: Timestamp,
    unique_id: [u8; 16],
    nonce: u64,
    block: Block,
)
    requires
        !template_overflows(c),
        template_result(c, pubkey, now, unique_id) is Ok,
        check_regulars(template_candidates(c.mempool), c.utxos, seq![]) is Ok,
        block@.transactions == template_result(c, pubkey, now, unique_id)->Ok_0.transactions,
        block.header == crate::types::block::with_nonce(
            template_result(c, pubkey, now, unique_id)->Ok_0.header,
            nonce,
        ),
        meets_target(block.header),
    ensures
        add_block_result(c, block) is Ok,
{
    let candidates = template_candidates(c.mempool);
    let f = fees(candidates, c.utxos)->Ok_0;
    let value = (block_reward(c.blocks.len() as int) + f) as u64;
    let cb = coinbase_view(value, unique_id, pubkey);
    let txs = seq![cb] + candidates;
    lemma_fees_nonneg(candidates, c.utxos);
    assert(block_reward(c.blocks.len() as int) >= 0);
    assert(block@.transactions == txs);
    assert(after_coinbase(txs) =~= candidates);
    assert(txs[0] == cb);
    assert(outputs_total(cb.outputs) == value) by {
        reveal_with_fuel(outputs_total, 2);
    }
}

/// The unspent outputs are what replaying the blocks leaves: true of a new chain, and
/// kept by every block that is accepted (so rebuilding them changes nothing).
pub proof fn law_utxos_follow_blocks(c: ChainView, block: Block)
    requires
        c.utxos == replay_utxos(c.blocks),
        add_block_result(c, block) is Ok,
    ensures
        add_block_result(c, block)->Ok_0.utxos == replay_utxos(add_block_result(c, block)->Ok_0.blocks),
{
    assert(c.blocks.push(block).drop_last() =~= c.blocks);
}

/// A chain as the public operations keep it: each block points back to the one before
/// (the first to the zero hash), has the Merkle root of its transactions and meets its
/// own target, and the chain's target is the easiest one.
pub open spec fn chain_well_formed(c: ChainView) -> bool {
    &&& forall|i: int|
        0 <= i < c.blocks.len() ==> (#[trigger] c.blocks[i]).header.prev_block_hash == tip(
            c.blocks.take(i),
        )
    &&& forall|i: int|
        0 <= i < c.blocks.len() ==> (#[trigger] c.blocks[i]).header.merkle_root == merkle_root(
            c.blocks[i]@.transactions,
        ) && meets_target(c.blocks[i].header)
    &&& c.target == spec_min_target()
}

/// A new chain is well formed.
pub proof fn law_new_chain_well_formed(c: ChainView)
    requires
        c.blocks == Seq::<Block>::empty(),
        c.target == spec_min_target(),
    ensures
        chain_well_formed(c),
        mempool_apart(c),
{
}

/// An accepted block keeps the chain well formed: it points back to the old tip, it
/// has its Merkle root and meets its target, and the target stays the easiest.
pub proof fn law_add_block_keeps_chain_well_formed(c: ChainView, block: Block)
    requires
        chain_well_formed(c),
        add_block_result(c, block) is Ok,
    ensures
        chain_well_formed(add_block_result(c, block)->Ok_0),
{
    let d = add_block_result(c, block)->Ok_0;
    let n = c.blocks.len() as int;
    assert(d.blocks == c.blocks.push(block));
    assert forall|i: int| 0 <= i < d.blocks.len() implies (#[trigger] d.blocks[i]).header.prev_block_hash
        == tip(d.blocks.take(i)) by {
        if i < n {
            assert(d.blocks.take(i) =~= c.blocks.take(i));
            assert(d.blocks[i] == c.blocks[i]);
        } else {
            assert(d.blocks.take(i) =~= c.blocks);
        }
    }
    assert forall|i: int| 0 <= i < d.blocks.len() implies (#[trigger] d.blocks[i]).header.merkle_root
        == merkle_root(d.blocks[i]@.transactions) && meets_target(d.blocks[i].header) by {
        if i < n {
            assert(d.blocks[i] == c.blocks[i]);
        }
    }
}

/// Taking a transaction into the mempool, cleaning the mempool, rebuilding the
/// unspent outputs and adjusting the target all keep the chain well formed.
pub proof fn law_other_operations_keep_chain_well_formed(c: ChainView, tx: Transaction, now: Timestamp)
    requires
        chain_well_formed(c),
    ensures
        mempool_add_result(c, tx, now) matches Ok(d) ==> chain_well_formed(d),
        chain_well_formed(ChainView { mempool: fresh_entries(c.mempool, now), ..c }),
        chain_well_formed(rebuilt_chain(c)),
        chain_well_formed(ChainView { target: adjusted_target(c.blocks.len() as int, c.target), ..c }),
{
    if mempool_add_result(c, tx, now) is Ok {
        law_mempool_add_keeps_blocks(c, tx, now);
        lemma_same_blocks_well_formed(c, mempool_add_result(c, tx, now)->Ok_0);
    }
    lemma_same_blocks_well_formed(c, ChainView { mempool: fresh_entries(c.mempool, now), ..c });
    lemma_same_blocks_well_formed(c, rebuilt_chain(c));
    lemma_same_blocks_well_formed(c, ChainView { target: adjusted_target(c.blocks.len() as int, c.target), ..c });
}

proof fn lemma_same_blocks_well_formed(c: ChainView, d: ChainView)
    requires
        chain_well_formed(c),
        d.blocks == c.blocks,
        d.target == c.target,
    ensures
        chain_well_formed(d),
{
}

/// Taking a transaction into the mempool leaves the blocks and the target as they are.
pub proof fn law_mempool_add_keeps_blocks(c: ChainView, tx: Transaction, now: Timestamp)
    requires
        mempool_add_result(c, tx, now) is Ok,
    ensures
        mempool_add_result(c, tx, now)->Ok_0.blocks == c.blocks,
        mempool_add_result(c, tx, now)->Ok_0.target == c.target,
        mempool_add_result(c, tx, now)->Ok_0.utxos == c.utxos,
{
}

/// Rebuilding is idempotent: on a mempool with one entry per hash (as every mempool
/// has), a second rebuild changes nothing. It keeps the blocks and the target, and on a
/// chain whose unspent outputs follow its blocks it keeps them too; the mempool it keeps
/// where no waiting transaction has the hash of a mined one (it drops those).
pub proof fn law_rebuild_is_idempotent(c: ChainView)
    requires
        keys_distinct(c.mempool),
    ensures
        rebuilt_chain(rebuilt_chain(c)) == rebuilt_chain(c),
        rebuilt_chain(c).blocks == c.blocks,
        rebuilt_chain(c).target == c.target,
        c.utxos == replay_utxos(c.blocks) ==> rebuilt_chain(c).utxos == c.utxos,
        (forall|i: int, j: int|
            0 <= i < c.blocks.len() && 0 <= j < c.blocks[i]@.transactions.len() ==> !has_key(
                c.mempool,
                transaction_hash(#[trigger] c.blocks[i]@.transactions[j]),
            )) ==> rebuilt_chain(c).mempool == c.mempool,
{
    lemma_replay_mempool_removes(c.mempool, c.blocks);
    lemma_replay_mempool_keeps(replay_mempool(c.mempool, c.blocks), c.blocks);
    if forall|i: int, j: int|
        0 <= i < c.blocks.len() && 0 <= j < c.blocks[i]@.transactions.len() ==> !has_key(
            c.mempool,
            transaction_hash(#[trigger] c.blocks[i]@.transactions[j]),
        ) {
        lemma_replay_mempool_keeps(c.mempool, c.blocks);
    }
}

/// The chain after `rebuild_utxos`.
pub open spec fn rebuilt_chain(c: ChainView) -> ChainView {
    ChainView { utxos: replay_utxos(c.blocks), mempool: replay_mempool(c.mempool, c.blocks), ..c }
}

proof fn lemma_remove_absent<T>(s: Seq<(crate::sha256::Hash, T)>, k: crate::sha256::Hash)
    requires
        !has_key(s, k),
    ensures
        remove_entry(s, k) == s,
{
}

proof fn lemma_remove_keeps_absent<T>(s: Seq<(crate::sha256::Hash, T)>, k: crate::sha256::Hash, k2: crate::sha256::Hash)
    requires
        !has_key(s, k2),
    ensures
        !has_key(remove_entry(s, k), k2),
{
    if has_key(s, k) {
        let idx = index_of(s, k);
        let t = s.remove(idx);
        if has_key(t, k2) {
            let j = choose|j: int| 0 <= j < t.len() && #[trigger] t[j].0 == k2;
            let j2 = if j < idx { j } else { j + 1 };
            assert(t[j] == s[j2]);
        }
    }
}

proof fn lemma_apply_mempool_keeps_absent(m: MempoolEntries, txs: Seq<TransactionView>, k: crate::sha256::Hash)
    requires
        !has_key(m, k),
    ensures
        !has_key(apply_mempool(m, txs), k),
    decreases txs.len(),
{
    if txs.len() > 0 {
        lemma_apply_mempool_keeps_absent(m, txs.drop_last(), k);
        lemma_remove_keeps_absent(apply_mempool(m, txs.drop_last()), transaction_hash(txs.last()), k);
    }
}

proof fn lemma_apply_mempool_removes(m: MempoolEntries, txs: Seq<TransactionView>)
    requires
        keys_distinct(m),
    ensures
        keys_distinct(apply_mempool(m, txs)),
        forall|j: int| 0 <= j < txs.len() ==> !has_key(apply_mempool(m, txs), transaction_hash(#[trigger] txs[j])),
    decreases txs.len(),
{
    if txs.len() > 0 {
        let prev = txs.drop_last();
        let r = apply_mempool(m, prev);
        let k = transaction_hash(txs.last());
        lemma_apply_mempool_removes(m, prev);
        lemma_remove_distinct(r, k);
        assert forall|j: int| 0 <= j < txs.len() implies !has_key(apply_mempool(m, txs), transaction_hash(#[trigger] txs[j])) by {
            if j < txs.len() - 1 {
                assert(txs[j] == prev[j]);
                lemma_remove_keeps_absent(r, k, transaction_hash(txs[j]));
            }
        }
    }
}

proof fn lemma_apply_mempool_noop(m: MempoolEntries, txs: Seq<TransactionView>)
    requires
        forall|j: int| 0 <= j < txs.len() ==> !has_key(m, transaction_hash(#[trigger] txs[j])),
    ensures
        apply_mempool(m, txs) == m,
    decreases txs.len(),
{
    if txs.len() > 0 {
        let prev = txs.drop_last();
        assert forall|j: int| 0 <= j < prev.len() implies !has_key(m, transaction_hash(#[trigger] prev[j])) by {
            assert(prev[j] == txs[j]);
        }
        lemma_apply_mempool_noop(m, prev);
        assert(!has_key(m, transaction_hash(txs[txs.len() - 1])));
        lemma_remove_absent(m, transaction_hash(txs.last()));
    }
}

/// After replaying the blocks, no waiting transaction has the hash of a mined one.
proof fn lemma_replay_mempool_removes(m: MempoolEntries, blocks: Seq<Block>)
    requires
        keys_distinct(m),
    ensures
        keys_distinct(replay_mempool(m, blocks)),
        forall|i: int, j: int|
            0 <= i < blocks.len() && 0 <= j < blocks[i]@.transactions.len() ==> !has_key(
                replay_mempool(m, blocks),
                transaction_hash(#[trigger] blocks[i]@.transactions[j]),
            ),
    decreases blocks.len(),
{
    if blocks.len() > 0 {
        let prev = blocks.drop_last();
        let r = replay_mempool(m, prev);
        let txs = blocks.last()@.transactions;
        lemma_replay_mempool_removes(m, prev);
        lemma_apply_mempool_removes(r, txs);
        assert forall|i: int, j: int|
            0 <= i < blocks.len() && 0 <= j < blocks[i]@.transactions.len() implies !has_key(
                replay_mempool(m, blocks),
                transaction_hash(#[trigger] blocks[i]@.transactions[j]),
            ) by {
            if i < blocks.len() - 1 {
                assert(blocks[i] == prev[i]);
                lemma_apply_mempool_keeps_absent(r, txs, transaction_hash(blocks[i]@.transactions[j]));
            } else {
                assert(txs[j] == blocks[i]@.transactions[j]);
            }
        }
    }
}

/// Replaying blocks none of whose transactions waits in the mempool leaves it as it is.
proof fn lemma_replay_mempool_keeps(m: MempoolEntries, blocks: Seq<Block>)
    requires
        forall|i: int, j: int|
            0 <= i < blocks.len() && 0 <= j < blocks[i]@.transactions.len() ==> !has_key(
                m,
                transaction_hash(#[trigger] blocks[i]@.transactions[j]),
            ),
    ensures
        replay_mempool(m, blocks) == m,
    decreases blocks.len(),
{
    if blocks.len() > 0 {
        let prev = blocks.drop_last();
        let txs = blocks.last()@.transactions;
        assert forall|i: int, j: int|
            0 <= i < prev.len() && 0 <= j < prev[i]@.transactions.len() implies !has_key(
                m,
                transaction_hash(#[trigger] prev[i]@.transactions[j]),
            ) by {
            assert(prev[i] == blocks[i]);
        }
        lemma_replay_mempool_keeps(m, prev);
        assert forall|j: int| 0 <= j < txs.len() implies !has_key(m, transaction_hash(#[trigger] txs[j])) by {
            assert(txs[j] == blocks[blocks.len() - 1]@.transactions[j]);
        }
        lemma_apply_mempool_noop(m, txs);
    }
}

/// No waiting transaction has the hash of a mined one.
pub open spec fn mempool_apart(c: ChainView) -> bool {
    forall|i: int, j: int|
        0 <= i < c.blocks.len() && 0 <= j < c.blocks[i]@.transactions.len() ==> !has_key(
            c.mempool,
            transaction_hash(#[trigger] c.blocks[i]@.transactions[j]),
        )
}

/// Whether `h` is the hash of a transaction in one of the blocks.
pub open spec fn mined_hash(blocks: Seq<Block>, h: crate::sha256::Hash) -> bool {
    exists|i: int, j: int|
        0 <= i < blocks.len() && 0 <= j < blocks[i]@.transactions.len() && transaction_hash(
            #[trigger] blocks[i]@.transactions[j],
        ) == h
}

/// The operations keep the mempool apart from the mined transactions: an accepted
/// block drops its transactions from the mempool, cleaning and rebuilding only drop
/// entries, adjusting the target leaves the mempool alone, and a transaction taken
/// into the mempool keeps it apart unless it has the hash of a mined one.
pub proof fn law_operations_keep_mempool_apart(c: ChainView, block: Block, tx: Transaction, now: Timestamp)
    requires
        keys_distinct(c.mempool),
        mempool_apart(c),
    ensures
        add_block_result(c, block) matches Ok(d) ==> mempool_apart(d),
        mempool_add_result(c, tx, now) matches Ok(d) ==> (!mined_hash(c.blocks, transaction_hash(tx@))
            ==> mempool_apart(d)),
        mempool_apart(ChainView { mempool: fresh_entries(c.mempool, now), ..c }),
        mempool_apart(rebuilt_chain(c)),
        mempool_apart(ChainView { target: adjusted_target(c.blocks.len() as int, c.target), ..c }),
{
    if add_block_result(c, block) is Ok {
        let d = add_block_result(c, block)->Ok_0;
        let txs = block@.transactions;
        let n = c.blocks.len() as int;
        assert(d.blocks == c.blocks.push(block));
        lemma_apply_mempool_removes(c.mempool, txs);
        assert forall|i: int, j: int|
            0 <= i < d.blocks.len() && 0 <= j < d.blocks[i]@.transactions.len() implies !has_key(
                d.mempool,
                transaction_hash(#[trigger] d.blocks[i]@.transactions[j]),
            ) by {
            if i < n {
                assert(d.blocks[i] == c.blocks[i]);
                lemma_apply_mempool_keeps_absent(c.mempool, txs, transaction_hash(c.blocks[i]@.transactions[j]));
            } else {
                assert(txs[j] == d.blocks[i]@.transactions[j]);
            }
        }
    }
    let h = transaction_hash(tx@);
    if mempool_add_result(c, tx, now) is Ok && !mined_hash(c.blocks, h) {
        let d = mempool_add_result(c, tx, now)->Ok_0;
        if !has_key(c.mempool, h) {
            let e = MempoolEntry { transaction: tx, received_at: now };
            assert(d.mempool == insert_entry(c.mempool, h, e));
            assert forall|i: int, j: int|
                0 <= i < d.blocks.len() && 0 <= j < d.blocks[i]@.transactions.len() implies !has_key(
                    d.mempool,
                    transaction_hash(#[trigger] d.blocks[i]@.transactions[j]),
                ) by {
                let k = transaction_hash(c.blocks[i]@.transactions[j]);
                assert(k != h);
                lemma_insert_keeps_absent(c.mempool, h, e, k);
            }
        }
    }
    let fresh = fresh_entries(c.mempool, now);
    assert forall|i: int, j: int|
        0 <= i < c.blocks.len() && 0 <= j < c.blocks[i]@.transactions.len() implies !has_key(
            fresh,
            transaction_hash(#[trigger] c.blocks[i]@.transactions[j]),
        ) by {
        lemma_select_keeps_absent(
            c.mempool,
            Seq::new(c.mempool.len(), |k: int| is_fresh(c.mempool[k].1, now)),
            transaction_hash(c.blocks[i]@.transactions[j]),
        );
    }
    lemma_replay_mempool_removes(c.mempool, c.blocks);
}

/// On a chain whose unspent outputs follow its blocks and whose mempool is apart from
/// the mined transactions (both kept by every operation), rebuilding changes nothing.
pub proof fn law_rebuild_changes_nothing(c: ChainView)
    requires
        keys_distinct(c.mempool),
        mempool_apart(c),
        c.utxos == replay_utxos(c.blocks),
    ensures
        rebuilt_chain(c) == c,
{
    lemma_replay_mempool_keeps(c.mempool, c.blocks);
}

proof fn lemma_insert_keeps_absent<T>(s: Seq<(crate::sha256::Hash, T)>, h: crate::sha256::Hash, v: T, k: crate::sha256::Hash)
    requires
        !has_key(s, k),
        k != h,
    ensures
        !has_key(insert_entry(s, h, v), k),
{
    let t = insert_entry(s, h, v);
    if has_key(t, k) {
        let j = choose|j: int| 0 <= j < t.len() && #[trigger] t[j].0 == k;
        if has_key(s, h) {
            assert(j != index_of(s, h));
            assert(t[j] == s[j]);
        } else {
            assert(j < s.len());
            assert(t[j] == s[j]);
        }
    }
}

proof fn lemma_select_keeps_absent<T>(s: Seq<(crate::sha256::Hash, T)>, flags: Seq<bool>, k: crate::sha256::Hash)
    requires
        !has_key(s, k),
    ensures
        !has_key(select_entries(s, flags), k),
    decreases s.len(),
{
    if s.len() > 0 {
        let prev = s.drop_last();
        if has_key(prev, k) {
            let j = choose|j: int| 0 <= j < prev.len() && #[trigger] prev[j].0 == k;
            assert(s[j] == prev[j]);
        }
        lemma_select_keeps_absent(prev, flags.take(s.len() - 1), k);
        let kept = select_entries(prev, flags.take(s.len() - 1));
        if flags[s.len() - 1] {
            let t = kept.push(s.last());
            if has_key(t, k) {
                let j = choose|j: int| 0 <= j < t.len() && #[trigger] t[j].0 == k;
                if j < kept.len() {
                    assert(t[j] == kept[j]);
                } else {
                    assert(s[s.len() - 1].0 == k);
                }
            }
        }
    }
}

/// A block without a coinbase (no transactions, or a first transaction that spends
/// inputs) is never accepted: once its root, proof of work and previous hash are
/// right it is refused with `InvalidCoinbase`, and checking it cannot overflow.
pub proof fn law_block_without_coinbase_refused(c: ChainView, block: Block)
    requires
        block@.transactions.len() == 0 || block@.transactions[0].inputs.len() > 0,
    ensures
        add_block_result(c, block) is Err,
        !add_block_overflows(c, block),
        block.header.merkle_root == merkle_root(block@.transactions) && meets_target(block.header)
            && block.header.prev_block_hash == tip(c.blocks) ==> add_block_result(c, block) == Err::<
            ChainView,
            BtcError,
        >(BtcError::InvalidCoinbase),
{
}

/// Every accepted block opens with a coinbase: its first transaction spends nothing
/// and pays no more than the reward plus the fees of the others.
pub proof fn law_accepted_block_opens_with_coinbase(c: ChainView, block: Block)
    requires
        add_block_result(c, block) is Ok,
    ensures
        block@.transactions.len() > 0,
        block@.transactions[0].inputs.len() == 0,
        fees(after_coinbase(block@.transactions), c.utxos) is Ok,
        outputs_total(block@.transactions[0].outputs) <= block_reward(c.blocks.len() as int) + fees(
            after_coinbase(block@.transactions),
            c.utxos,
        )->Ok_0,
{
}

/// A template is a coinbase to `pubkey` followed by the first waiting transactions in
/// mempool order: all of them when there are at most `BLOCK_TRANSACTION_CAP`, else the
/// first `BLOCK_TRANSACTION_CAP`. It points at the tip, carries the chain's target and
/// the Merkle root of its transactions.
pub proof fn law_template_holds_first_waiting(c: ChainView, pubkey: PublicKey, now: Timestamp, unique_id: [u8; 16])
    requires
        template_result(c, pubkey, now, unique_id) is Ok,
    ensures
        ({
            let v = template_result(c, pubkey, now, unique_id)->Ok_0;
            let n = v.transactions.len() - 1;
            &&& 1 <= v.transactions.len() <= crate::BLOCK_TRANSACTION_CAP + 1
            &&& n <= c.mempool.len()
            &&& (n == c.mempool.len() || n == crate::BLOCK_TRANSACTION_CAP)
            &&& forall|i: int| 0 <= i < n ==> v.transactions[i + 1] == (#[trigger] c.mempool[i]).1.transaction@
            &&& v.transactions[0].inputs.len() == 0
            &&& v.transactions[0].outputs.len() == 1
            &&& v.transactions[0].outputs[0].pubkey == pubkey
            &&& v.transactions[0].outputs[0].unique_id == unique_id
            &&& v.header.prev_block_hash == tip(c.blocks)
            &&& v.header.merkle_root == merkle_root(v.transactions)
            &&& v.header.target == c.target
            &&& v.header.timestamp == now
        }),
{
    let v = template_result(c, pubkey, now, unique_id)->Ok_0;
    let cands = template_candidates(c.mempool);
    assert forall|i: int| 0 <= i < v.transactions.len() - 1 implies v.transactions[i + 1] == (
    #[trigger] c.mempool[i]).1.transaction@ by {
        assert(v.transactions[i + 1] == cands[i]);
    }
}

} // verus!
