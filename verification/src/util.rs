use crate::cbor::{array_head, push_array_head, starts_with_at, Encodable};
use crate::error::BtcError;
use crate::types::block::{block_valid, enc_block, parse_block, Block, BlockView};
use crate::sha256::{digest_of, enc_hash, zero_hash};
use crate::types::transaction::{
    enc_transaction, parse_transaction, transaction_hash, transaction_valid, tx_views, Transaction,
    TransactionView,
};
use vstd::prelude::*;

verus! {

/// A pair of hashes is encoded as an array of two.
impl Encodable for (crate::sha256::Hash, crate::sha256::Hash) {
    open spec fn spec_cbor(&self) -> Seq<u8> {
        array_head(2) + enc_hash(self.0) + enc_hash(self.1)
    }

    fn encode(&self, out: &mut Vec<u8>) {
        push_array_head(out, 2);
        self.0.encode(out);
        self.1.encode(out);
        assert(final(out)@ =~= old(out)@ + (array_head(2) + enc_hash(self.0) + enc_hash(self.1)));
    }
}

/// The hash of two nodes of the Merkle tree.
pub open spec fn pair_hash(left: crate::sha256::Hash, right: crate::sha256::Hash) -> crate::sha256::Hash {
    digest_of(array_head(2) + enc_hash(left) + enc_hash(right))
}

/// One level up the tree: neighbours paired, an odd last node paired with itself.
pub open spec fn merkle_parent_layer(layer: Seq<crate::sha256::Hash>) -> Seq<crate::sha256::Hash> {
    Seq::new(
        ((layer.len() + 1) / 2) as nat,
        |i: int|
            pair_hash(
                layer[2 * i],
                if 2 * i + 1 < layer.len() {
                    layer[2 * i + 1]
                } else {
                    layer[2 * i]
                },
            ),
    )
}

/// The root of the tree over a non-empty layer.
pub open spec fn merkle_reduce(layer: Seq<crate::sha256::Hash>) -> crate::sha256::Hash
    decreases layer.len(),
{
    if layer.len() <= 1 {
        layer[0]
    } else {
        merkle_reduce(merkle_parent_layer(layer))
    }
}

/// The Merkle root of a block's transactions; the zero hash where there are none.
pub open spec fn merkle_root(txs: Seq<TransactionView>) -> MerkleRoot {
    if txs.len() == 0 {
        MerkleRoot(zero_hash())
    } else {
        MerkleRoot(merkle_reduce(txs.map_values(|t: TransactionView| transaction_hash(t))))
    }
}

#[derive(Clone, Copy, Debug, Eq)]
pub struct MerkleRoot(pub crate::sha256::Hash);

impl PartialEq for MerkleRoot {
    fn eq(&self, other: &MerkleRoot) -> (r: bool) {
        self.0 == other.0
    }
}

impl vstd::std_specs::cmp::PartialEqSpecImpl for MerkleRoot {
    open spec fn obeys_eq_spec() -> bool {
        true
    }

    open spec fn eq_spec(&self, other: &MerkleRoot) -> bool {
        *self == *other
    }
}

/// The layer above `layer`.
fn parent_layer(layer: &Vec<crate::sha256::Hash>) -> (r: Vec<crate::sha256::Hash>)
    ensures
        r@ == merkle_parent_layer(layer@),
{
    let mut next: Vec<crate::sha256::Hash> = Vec::new();
    let n = layer.len();
    let pairs = n / 2 + n % 2;
    let mut k: usize = 0;
    while k < pairs
        invariant
            n == layer.len(),
            pairs == (n + 1) / 2,
            k <= pairs,
            next@ =~= merkle_parent_layer(layer@).take(k as int),
        decreases pairs - k,
    {
        let i = 2 * k;
        let left = layer[i];
        let right = if i + 1 < n {
            layer[i + 1]
        } else {
            left
        };
        let h = crate::sha256::Hash::hash(&(left, right));
        next.push(h);
        k = k + 1;
    }
    next
}

impl MerkleRoot {
    /// The root of the tree whose leaves are the transactions' hashes, in order.
    pub fn calculate(transactions: &[Transaction]) -> (r: MerkleRoot)
        ensures
            r == merkle_root(tx_views(transactions@)),
    {
        if transactions.len() == 0 {
            return MerkleRoot(crate::sha256::Hash::zero());
        }
        let ghost leaves = tx_views(transactions@).map_values(
            |t: TransactionView| transaction_hash(t),
        );
        let mut layer: Vec<crate::sha256::Hash> = Vec::new();
        let mut i: usize = 0;
        while i < transactions.len()
            invariant
                i <= transactions.len(),
                leaves == tx_views(transactions@).map_values(
                    |t: TransactionView| transaction_hash(t),
                ),
                layer@ =~= leaves.take(i as int),
            decreases transactions.len() - i,
        {
            layer.push(transactions[i].hash());
            i = i + 1;
        }
        assert(layer@ =~= leaves);
        while layer.len() > 1
            invariant
                layer.len() >= 1,
                merkle_reduce(layer@) == merkle_reduce(leaves),
            decreases layer.len(),
        {
            layer = parent_layer(&layer);
        }
        MerkleRoot(layer[0])
    }
}

/// An unpaired last node is hashed with itself: a list of an odd number (at least
/// three) of transactions has the root of the same list with its last one repeated.
pub proof fn law_odd_layer_repeats_last(txs: Seq<TransactionView>)
    requires
        txs.len() % 2 == 1,
        txs.len() >= 3,
    ensures
        merkle_root(txs) == merkle_root(txs.push(txs.last())),
{
    let f = |t: TransactionView| transaction_hash(t);
    let leaves = txs.map_values(f);
    let ext = txs.push(txs.last()).map_values(f);
    assert(ext =~= leaves.push(leaves.last()));
    assert(merkle_parent_layer(leaves) =~= merkle_parent_layer(ext));
}

proof fn lemma_parent_layer_concat(a: Seq<crate::sha256::Hash>, b: Seq<crate::sha256::Hash>)
    requires
        a.len() % 2 == 0,
    ensures
        merkle_parent_layer(a + b) == merkle_parent_layer(a) + merkle_parent_layer(b),
{
    let l = a + b;
    let p = merkle_parent_layer(l);
    let q = merkle_parent_layer(a) + merkle_parent_layer(b);
    assert(p.len() == q.len());
    assert forall|i: int| 0 <= i < p.len() implies p[i] == q[i] by {
        if 2 * i < a.len() {
            assert(l[2 * i] == a[2 * i]);
            assert(l[2 * i + 1] == a[2 * i + 1]);
        } else {
            let i2 = i - a.len() / 2;
            assert(l[2 * i] == b[2 * i2]);
            if 2 * i + 1 < l.len() {
                assert(l[2 * i + 1] == b[2 * i2 + 1]);
            }
        }
    }
    assert(p =~= q);
}

/// A tree over `2^(k+1)` nodes has as its root the pair hash of the roots of its two
/// halves: every node, left or right, goes into the root.
pub proof fn law_merkle_reduce_halves(l: Seq<crate::sha256::Hash>, r: Seq<crate::sha256::Hash>, k: nat)
    requires
        l.len() == vstd::arithmetic::power2::pow2(k),
        r.len() == vstd::arithmetic::power2::pow2(k),
    ensures
        merkle_reduce(l + r) == pair_hash(merkle_reduce(l), merkle_reduce(r)),
    decreases k,
{
    if k == 0 {
        vstd::arithmetic::power2::lemma2_to64();
        let p = merkle_parent_layer(l + r);
        assert(p.len() == 1);
        assert(p[0] == pair_hash(l[0], r[0]));
        assert(merkle_reduce(p) == p[0]);
        assert(merkle_reduce(l) == l[0] && merkle_reduce(r) == r[0]);
    } else {
        vstd::arithmetic::power2::lemma_pow2_unfold(k);
        vstd::arithmetic::power2::lemma_pow2_pos((k - 1) as nat);
        lemma_parent_layer_concat(l, r);
        let pl = merkle_parent_layer(l);
        let pr = merkle_parent_layer(r);
        law_merkle_reduce_halves(pl, pr, (k - 1) as nat);
        assert(merkle_reduce(l + r) == merkle_reduce(pl + pr));
        assert(merkle_reduce(l) == merkle_reduce(pl));
        assert(merkle_reduce(r) == merkle_reduce(pr));
    }
}

/// The root of `2^(k+1)` transactions is the pair hash of the roots of their two halves.
pub proof fn law_merkle_root_halves(txs: Seq<TransactionView>, k: nat)
    requires
        txs.len() == 2 * vstd::arithmetic::power2::pow2(k),
    ensures
        merkle_root(txs).0 == pair_hash(
            merkle_root(txs.take(vstd::arithmetic::power2::pow2(k) as int)).0,
            merkle_root(txs.skip(vstd::arithmetic::power2::pow2(k) as int)).0,
        ),
{
    vstd::arithmetic::power2::lemma_pow2_pos(k);
    let h = vstd::arithmetic::power2::pow2(k) as int;
    let f = |t: TransactionView| transaction_hash(t);
    let leaves = txs.map_values(f);
    assert(leaves =~= txs.take(h).map_values(f) + txs.skip(h).map_values(f));
    law_merkle_reduce_halves(txs.take(h).map_values(f), txs.skip(h).map_values(f), k);
}

/// One transaction's root is its hash; two transactions' root is the pair hash of
/// theirs, the first on the left.
pub proof fn law_merkle_root_of_one_and_two(a: TransactionView, b: TransactionView)
    ensures
        merkle_root(seq![a]).0 == transaction_hash(a),
        merkle_root(seq![a, b]).0 == pair_hash(transaction_hash(a), transaction_hash(b)),
{
    let f = |t: TransactionView| transaction_hash(t);
    assert(seq![a].map_values(f) =~= seq![transaction_hash(a)]);
    assert(seq![a, b].map_values(f) =~= seq![transaction_hash(a), transaction_hash(b)]);
    let pair = seq![transaction_hash(a), transaction_hash(b)];
    let p = merkle_parent_layer(pair);
    assert(p.len() == 1);
    assert(p[0] == pair_hash(transaction_hash(a), transaction_hash(b)));
    assert(merkle_reduce(p) == p[0]);
    assert(merkle_reduce(pair) == merkle_reduce(p));
}

/// A value that can be written out and read back.
pub trait Saveable: Sized {
    /// The bytes `save` writes for the value.
    spec fn saved_bytes(&self) -> Seq<u8>;

    /// Whether `load` gives the value back from the bytes `save` wrote.
    spec fn reloadable(&self) -> bool;

    /// Whether `data` begins with a form of the value that `load` reads as it.
    spec fn stored_in(&self, data: Seq<u8>) -> bool;

    /// Reads a value from the start of `data`; what follows it is left unread.
    fn load(data: &[u8]) -> (r: Result<Self, BtcError>)
        ensures
            r matches Ok(v) ==> v.reloadable() && v.stored_in(data@),
            r matches Err(e) ==> e is Serialization,
    ;

    /// Appends the value's bytes.
    fn save(&self, out: &mut Vec<u8>) -> (r: Result<(), BtcError>)
        ensures
            r is Ok,
            final(out)@ == old(out)@ + self.saved_bytes(),
    ;
}

impl Saveable for Transaction {
    open spec fn stored_in(&self, data: Seq<u8>) -> bool {
        starts_with_at(data, 0, self.saved_bytes())
    }

    open spec fn saved_bytes(&self) -> Seq<u8> {
        enc_transaction(self@)
    }

    open spec fn reloadable(&self) -> bool {
        transaction_valid(self@)
    }

    fn load(data: &[u8]) -> (r: Result<Transaction, BtcError>)
        ensures
            forall|t: TransactionView|
                transaction_valid(t) && #[trigger] starts_with_at(data@, 0, enc_transaction(t)) ==> (r matches Ok(x) && x@ == t),
    {
        match parse_transaction(data, 0) {
            Some((t, _)) => Ok(t),
            None => Err(BtcError::Serialization),
        }
    }

    fn save(&self, out: &mut Vec<u8>) -> (r: Result<(), BtcError>) {
        self.encode(out);
        Ok(())
    }
}

impl Saveable for Block {
    open spec fn stored_in(&self, data: Seq<u8>) -> bool {
        starts_with_at(data, 0, self.saved_bytes())
    }

    open spec fn saved_bytes(&self) -> Seq<u8> {
        enc_block(self@)
    }

    open spec fn reloadable(&self) -> bool {
        block_valid(self@)
    }

    fn load(data: &[u8]) -> (r: Result<Block, BtcError>)
        ensures
            forall|b: BlockView|
                block_valid(b) && #[trigger] starts_with_at(data@, 0, enc_block(b)) ==> (r matches Ok(x) && x@ == b),
    {
        match parse_block(data, 0) {
            Some((b, _)) => Ok(b),
            None => Err(BtcError::Serialization),
        }
    }

    fn save(&self, out: &mut Vec<u8>) -> (r: Result<(), BtcError>) {
        self.encode(out);
        Ok(())
    }
}

} // verus!
