use btclib::crypto::{PrivateKey, PublicKey};
use btclib::error::BtcError;
use btclib::timestamp::Timestamp;
use btclib::types::{Block, BlockHeader, Blockchain, Transaction, TransactionInput, TransactionOutput};
use btclib::util::{MerkleRoot, Saveable};

fn block_on(chain: &Blockchain, transactions: Vec<Transaction>) -> Block {
    let prev = chain
        .blocks()
        .last()
        .map(Block::hash)
        .unwrap_or_else(btclib::sha256::Hash::zero);
    let mut block = Block::new(
        BlockHeader::new(
            Timestamp::now(),
            0,
            prev,
            MerkleRoot::calculate(&transactions),
            btclib::min_target(),
        ),
        transactions,
    );
    while !block.mine(1_000_000) {}
    block
}

fn coinbase(value: u64, key: &PrivateKey) -> Transaction {
    Transaction::coinbase(TransactionOutput::new(value, key.public_key()))
}

/// A chain with one block paying the full reward to `owner`, and that block's output.
fn funded_chain(owner: &PrivateKey) -> (Blockchain, TransactionOutput) {
    let mut chain = Blockchain::new();
    let block = block_on(&chain, vec![coinbase(btclib::initial_reward_sats(), owner)]);
    chain.add_block(block).unwrap();
    let output = chain.utxos().values()[0].1;
    (chain, output)
}

#[test]
fn reward_starts_at_fifty_coins() {
    let chain = Blockchain::default();
    assert_eq!(chain.calculate_block_reward(), 5_000_000_000);
    assert_eq!(btclib::initial_reward_sats(), 5_000_000_000);
    assert_eq!(chain.block_height(), 0);
    assert!(chain.target() == btclib::min_target());
}

#[test]
fn accepted_block_becomes_tip_and_pays_its_coinbase() {
    let owner = PrivateKey::new_key();
    let mut chain = Blockchain::new();
    let block = block_on(&chain, vec![coinbase(btclib::initial_reward_sats(), &owner)]);
    let hash = block.hash();
    let paid = block.transactions[0].outputs[0];
    chain.add_block(block).unwrap();
    assert!(chain.blocks().last().unwrap().hash() == hash);
    assert_eq!(chain.block_height(), 1);
    let (mark, output) = *chain.utxos().get(&paid.hash()).unwrap();
    assert!(!mark);
    assert_eq!(output.value, btclib::initial_reward_sats());
    let next = block_on(&chain, vec![coinbase(btclib::initial_reward_sats(), &owner)]);
    assert!(next.header.prev_block_hash == hash);
    chain.add_block(next).unwrap();
    assert_eq!(chain.block_height(), 2);
    assert!(chain.target() == btclib::min_target());
    assert_eq!(chain.utxos().len(), 2);
}

#[test]
fn block_with_wrong_previous_hash_is_refused_and_chain_unchanged() {
    let owner = PrivateKey::new_key();
    let (mut chain, _) = funded_chain(&owner);
    let transactions = vec![coinbase(btclib::initial_reward_sats(), &owner)];
    let mut block = Block::new(
        BlockHeader::new(
            Timestamp::now(),
            0,
            btclib::sha256::Hash::zero(),
            MerkleRoot::calculate(&transactions),
            btclib::min_target(),
        ),
        transactions,
    );
    while !block.mine(1_000_000) {}
    assert!(matches!(chain.add_block(block), Err(BtcError::InvalidPreviousHash)));
    assert_eq!(chain.block_height(), 1);
    assert_eq!(chain.utxos().len(), 1);
}

#[test]
fn block_with_wrong_merkle_root_is_refused() {
    let owner = PrivateKey::new_key();
    let chain = Blockchain::new();
    let mut block = block_on(&chain, vec![coinbase(btclib::initial_reward_sats(), &owner)]);
    block.header.merkle_root = MerkleRoot(btclib::sha256::Hash::zero());
    let mut chain = chain;
    assert!(matches!(chain.add_block(block), Err(BtcError::InvalidMerkleRoot)));
    assert_eq!(chain.block_height(), 0);
}

#[test]
fn block_that_misses_its_target_is_refused() {
    let owner = PrivateKey::new_key();
    let mut chain = Blockchain::new();
    let transactions = vec![coinbase(btclib::initial_reward_sats(), &owner)];
    let mut block = Block::new(
        BlockHeader::new(
            Timestamp::now(),
            0,
            btclib::sha256::Hash::zero(),
            MerkleRoot::calculate(&transactions),
            btclib::min_target(),
        ),
        transactions,
    );
    while block.hash().matches_target(block.header.target) {
        block.header.nonce += 1;
    }
    assert!(block.validate_proof_of_work().is_err());
    assert!(matches!(chain.add_block(block), Err(BtcError::InvalidProofOfWork)));
}

#[test]
fn coinbase_above_the_reward_is_refused() {
    let owner = PrivateKey::new_key();
    let mut chain = Blockchain::new();
    let block = block_on(&chain, vec![coinbase(btclib::initial_reward_sats() + 1, &owner)]);
    assert!(matches!(chain.add_block(block), Err(BtcError::InvalidCoinbase)));
    let no_coinbase = block_on(&chain, vec![]);
    assert!(matches!(chain.add_block(no_coinbase), Err(BtcError::InvalidCoinbase)));
}

#[test]
fn spending_an_unknown_output_is_refused() {
    let owner = PrivateKey::new_key();
    let (mut chain, _) = funded_chain(&owner);
    let stranger = TransactionOutput::new(7, owner.public_key());
    let spend = Transaction::new(
        vec![TransactionInput::signed(&stranger, &owner)],
        vec![TransactionOutput::new(1, owner.public_key())],
    );
    assert!(matches!(chain.add_to_mempool(spend.clone()), Err(BtcError::UnknownInput)));
    let block = block_on(&chain, vec![coinbase(btclib::initial_reward_sats(), &owner), spend]);
    assert!(matches!(chain.add_block(block), Err(BtcError::UnknownInput)));
}

#[test]
fn spending_with_the_wrong_key_is_refused() {
    let owner = PrivateKey::new_key();
    let thief = PrivateKey::new_key();
    let (mut chain, output) = funded_chain(&owner);
    let spend = Transaction::new(
        vec![TransactionInput::signed(&output, &thief)],
        vec![TransactionOutput::new(1, thief.public_key())],
    );
    assert!(matches!(chain.add_to_mempool(spend), Err(BtcError::InvalidSignature)));
    assert_eq!(chain.mempool().len(), 0);
}

#[test]
fn paying_out_more_than_spent_is_refused() {
    let owner = PrivateKey::new_key();
    let (mut chain, output) = funded_chain(&owner);
    let spend = Transaction::new(
        vec![TransactionInput::signed(&output, &owner)],
        vec![TransactionOutput::new(output.value + 1, owner.public_key())],
    );
    assert!(matches!(chain.add_to_mempool(spend), Err(BtcError::Overspend)));
}

#[test]
fn transaction_without_outputs_is_refused() {
    let owner = PrivateKey::new_key();
    let (mut chain, output) = funded_chain(&owner);
    let spend = Transaction::new(vec![TransactionInput::signed(&output, &owner)], vec![]);
    assert!(matches!(spend.validate_basic(), Err(BtcError::EmptyTransaction)));
    assert!(matches!(chain.add_to_mempool(spend), Err(BtcError::EmptyTransaction)));
    let coinbase_like = coinbase(5, &owner);
    assert!(matches!(chain.add_to_mempool(coinbase_like), Err(BtcError::InvalidCoinbase)));
}

#[test]
fn double_spend_inside_one_transaction_is_refused() {
    let owner = PrivateKey::new_key();
    let (mut chain, output) = funded_chain(&owner);
    let input = TransactionInput::signed(&output, &owner);
    let spend = Transaction::new(
        vec![input, input],
        vec![TransactionOutput::new(10, owner.public_key())],
    );
    assert!(matches!(chain.add_to_mempool(spend), Err(BtcError::DuplicateSpend)));
}

#[test]
fn mempool_transaction_goes_into_the_template_with_its_fee() {
    let owner = PrivateKey::new_key();
    let recipient = PrivateKey::new_key();
    let miner = PrivateKey::new_key();
    let (mut chain, output) = funded_chain(&owner);
    let spend = Transaction::new(
        vec![TransactionInput::signed(&output, &owner)],
        vec![
            TransactionOutput::new(1_000, recipient.public_key()),
            TransactionOutput::new(output.value - 1_500, owner.public_key()),
        ],
    );
    chain.add_to_mempool(spend.clone()).unwrap();
    chain.add_to_mempool(spend.clone()).unwrap();
    assert_eq!(chain.mempool().len(), 1);
    let template = chain.create_template(miner.public_key()).unwrap();
    assert_eq!(template.transactions.len(), 2);
    assert!(template.transactions[1].hash() == spend.hash());
    assert_eq!(
        template.transactions[0].outputs[0].value,
        chain.calculate_block_reward() + 500
    );
    assert_eq!(template.calculate_miner_fees(chain.utxos()).unwrap(), 500);
    assert!(template.header.prev_block_hash == chain.blocks()[0].hash());
    assert!(template.validate_merkle_root().is_ok());
    let mut block = template;
    while !block.mine(1_000_000) {}
    chain.add_block(block).unwrap();
    assert_eq!(chain.mempool().len(), 0);
    assert_eq!(chain.utxos().len(), 3);
    assert!(chain.utxos().get(&output.hash()).is_none());
}

#[test]
fn old_mempool_entries_are_cleaned_up() {
    let owner = PrivateKey::new_key();
    let (mut chain, output) = funded_chain(&owner);
    let spend = Transaction::new(
        vec![TransactionInput::signed(&output, &owner)],
        vec![TransactionOutput::new(10, owner.public_key())],
    );
    let start = Timestamp::from_parts(1_000, 0).unwrap();
    chain.add_to_mempool_at(spend, start).unwrap();
    chain.cleanup_mempool_at(Timestamp::from_parts(1_600, 0).unwrap());
    assert_eq!(chain.mempool().len(), 1);
    chain.cleanup_mempool_at(Timestamp::from_parts(1_601, 0).unwrap());
    assert_eq!(chain.mempool().len(), 0);
}

#[test]
fn rebuilding_utxos_replays_the_blocks() {
    let owner = PrivateKey::new_key();
    let (mut chain, output) = funded_chain(&owner);
    let block = block_on(&chain, vec![coinbase(btclib::initial_reward_sats(), &owner)]);
    chain.add_block(block).unwrap();
    chain.rebuild_utxos();
    assert_eq!(chain.utxos().len(), 2);
    assert!(chain.utxos().get(&output.hash()).is_some());
}

#[test]
fn chain_round_trips_through_saveable() {
    let owner = PrivateKey::new_key();
    let (mut chain, output) = funded_chain(&owner);
    let spend = Transaction::new(
        vec![TransactionInput::signed(&output, &owner)],
        vec![TransactionOutput::new(10, owner.public_key())],
    );
    chain.add_to_mempool(spend).unwrap();
    let mut bytes = Vec::new();
    chain.save(&mut bytes).unwrap();
    let loaded = Blockchain::load(bytes.as_slice()).unwrap();
    assert_eq!(loaded.block_height(), 1);
    assert!(loaded.blocks()[0].hash() == chain.blocks()[0].hash());
    assert_eq!(loaded.utxos().len(), 1);
    assert!(loaded.utxos().get(&output.hash()).is_some());
    assert_eq!(loaded.mempool().len(), 1);
    assert!(loaded.target() == chain.target());
    assert!(matches!(Blockchain::load(&bytes[..bytes.len() - 1]), Err(BtcError::Serialization)));
}

#[test]
fn block_and_keys_round_trip_through_saveable() {
    let owner = PrivateKey::new_key();
    let chain = Blockchain::new();
    let block = block_on(&chain, vec![coinbase(7, &owner)]);
    let mut bytes = Vec::new();
    block.save(&mut bytes).unwrap();
    let loaded = Block::load(bytes.as_slice()).unwrap();
    assert!(loaded.hash() == block.hash());
    assert!(loaded.header.timestamp == block.header.timestamp);

    let mut key_bytes = Vec::new();
    owner.public_key().save(&mut key_bytes).unwrap();
    assert_eq!(key_bytes.len(), 35);
    assert_eq!(key_bytes[0], 0x58);
    assert_eq!(key_bytes[1], 33);
    assert!(PublicKey::load(key_bytes.as_slice()).unwrap() == owner.public_key());

    let mut secret_bytes = Vec::new();
    owner.save(&mut secret_bytes).unwrap();
    let reloaded = PrivateKey::load(secret_bytes.as_slice()).unwrap();
    assert!(reloaded.public_key() == owner.public_key());
    assert_eq!(reloaded.to_bytes(), owner.to_bytes());
}

#[test]
fn garbage_does_not_load() {
    assert!(matches!(Transaction::load(&[0xff, 0x00]), Err(BtcError::Serialization)));
    assert!(matches!(Block::load(&[]), Err(BtcError::Serialization)));
    assert!(matches!(PublicKey::load(&[0x58, 0x21, 0x05]), Err(BtcError::Serialization)));
    let mut not_a_point = vec![0x58, 33];
    not_a_point.extend_from_slice(&[0x05; 33]);
    assert!(matches!(PublicKey::load(&not_a_point), Err(BtcError::Serialization)));
    let mut zero_scalar = vec![0x58, 32];
    zero_scalar.extend_from_slice(&[0u8; 32]);
    assert!(matches!(PrivateKey::load(&zero_scalar), Err(BtcError::Serialization)));
}

#[test]
fn public_key_bytes_round_trip_and_bad_bytes_are_crypto_errors() {
    let key = PrivateKey::new_key();
    let bytes = key.public_key().to_bytes();
    assert_eq!(bytes.len(), 33);
    assert!(PublicKey::from_bytes(&bytes).unwrap() == key.public_key());
    assert!(matches!(PublicKey::from_bytes(&[1, 2, 3]), Err(BtcError::Crypto(_))));
    assert!(PrivateKey::from_bytes(&key.to_bytes()).is_some());
    assert!(PrivateKey::from_bytes(&[0u8; 32]).is_none());
}

#[test]
fn signature_does_not_verify_for_another_hash_or_key() {
    let key = PrivateKey::new_key();
    let other = PrivateKey::new_key();
    let hash = btclib::sha256::Hash::hash(&"message");
    let signature = key.sign_hash(hash);
    assert!(!key.public_key().verify_hash(btclib::sha256::Hash::hash(&"other"), &signature));
    assert!(!other.public_key().verify_hash(hash, &signature));
}

#[test]
fn cloned_chain_has_the_same_blocks_outputs_and_mempool() {
    let owner = PrivateKey::new_key();
    let (mut chain, output) = funded_chain(&owner);
    let spend = Transaction::new(
        vec![TransactionInput::signed(&output, &owner)],
        vec![TransactionOutput::new(10, owner.public_key())],
    );
    chain.add_to_mempool(spend).unwrap();
    let copy = chain.clone();
    assert_eq!(copy.block_height(), 1);
    assert!(copy.blocks()[0].hash() == chain.blocks()[0].hash());
    assert_eq!(copy.utxos().len(), 1);
    assert_eq!(copy.mempool().len(), 1);
    assert!(copy.mempool().entry(0).1.transaction.hash() == chain.mempool().entry(0).1.transaction.hash());
}

#[test]
fn uncompressed_public_key_reads_as_the_compressed_key() {
    let key = PrivateKey::new_key();
    let compressed = key.public_key().to_bytes();
    let point = k256::ecdsa::VerifyingKey::from_sec1_bytes(&compressed).unwrap();
    let uncompressed = point.to_encoded_point(false).as_bytes().to_vec();
    assert_eq!(uncompressed.len(), 65);
    let read = PublicKey::from_bytes(&uncompressed).unwrap();
    assert!(read == key.public_key());
    assert_eq!(read.to_bytes(), compressed);
}

#[test]
fn rebuilding_twice_changes_nothing_more() {
    let owner = PrivateKey::new_key();
    let (mut chain, output) = funded_chain(&owner);
    let spend = Transaction::new(
        vec![TransactionInput::signed(&output, &owner)],
        vec![TransactionOutput::new(10, owner.public_key())],
    );
    let spend_hash = spend.hash();
    chain.add_to_mempool(spend).unwrap();
    chain.rebuild_utxos();
    let utxos_once: Vec<_> = chain.utxos().values().iter().map(|(m, o)| (*m, o.hash())).collect();
    assert_eq!(chain.mempool().len(), 1);
    assert!(chain.mempool().get(&spend_hash).is_some());
    chain.rebuild_utxos();
    let utxos_twice: Vec<_> = chain.utxos().values().iter().map(|(m, o)| (*m, o.hash())).collect();
    assert_eq!(utxos_once, utxos_twice);
    assert_eq!(chain.mempool().len(), 1);
    assert_eq!(chain.block_height(), 1);
    assert!(chain.target() == btclib::min_target());
}

#[test]
fn blocks_stay_linked_and_valid_as_the_chain_grows() {
    let owner = PrivateKey::new_key();
    let mut chain = Blockchain::new();
    for _ in 0..3 {
        let block = block_on(&chain, vec![coinbase(btclib::initial_reward_sats(), &owner)]);
        chain.add_block(block).unwrap();
        let stale = block_on(&chain, vec![coinbase(1, &owner)]);
        let mut wrong = stale.clone();
        wrong.header.prev_block_hash = btclib::sha256::Hash::zero();
        assert!(chain.add_block(wrong).is_err());
    }
    chain.rebuild_utxos();
    chain.cleanup_mempool();
    let blocks = chain.blocks();
    assert!(blocks[0].header.prev_block_hash == btclib::sha256::Hash::zero());
    for i in 1..blocks.len() {
        assert!(blocks[i].header.prev_block_hash == blocks[i - 1].hash());
    }
    for block in blocks {
        assert!(block.header.merkle_root == MerkleRoot::calculate(&block.transactions));
        assert!(block.header.hash().matches_target(block.header.target));
    }
    assert!(chain.target() == btclib::min_target());
}

#[test]
fn odd_merkle_layer_repeats_its_last_hash() {
    let owner = PrivateKey::new_key();
    let a = coinbase(1, &owner);
    let b = coinbase(2, &owner);
    let c = coinbase(3, &owner);
    let odd = vec![a.clone(), b.clone(), c.clone()];
    let even = vec![a, b, c.clone(), c];
    assert!(MerkleRoot::calculate(&odd) == MerkleRoot::calculate(&even));
}

#[test]
fn mined_transactions_leave_the_mempool_and_rebuild_changes_nothing() {
    let owner = PrivateKey::new_key();
    let (mut chain, output) = funded_chain(&owner);
    let spend = Transaction::new(
        vec![TransactionInput::signed(&output, &owner)],
        vec![TransactionOutput::new(10, owner.public_key())],
    );
    let spend_hash = spend.hash();
    chain.add_to_mempool(spend.clone()).unwrap();
    assert!(chain.mempool().get(&spend_hash).is_some());
    let block = block_on(&chain, vec![coinbase(btclib::initial_reward_sats(), &owner), spend]);
    chain.add_block(block).unwrap();
    assert_eq!(chain.mempool().len(), 0);
    let utxos_before: Vec<_> = chain.utxos().values().iter().map(|(m, o)| (*m, o.hash())).collect();
    chain.rebuild_utxos();
    let utxos_after: Vec<_> = chain.utxos().values().iter().map(|(m, o)| (*m, o.hash())).collect();
    assert_eq!(utxos_before, utxos_after);
    assert_eq!(chain.mempool().len(), 0);
    assert_eq!(chain.block_height(), 2);
}
