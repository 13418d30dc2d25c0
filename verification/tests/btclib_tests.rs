use btclib::crypto::PrivateKey;
use btclib::network::Message;
use btclib::timestamp::Timestamp;
use btclib::types::{Block, BlockHeader, Blockchain, Transaction, TransactionInput, TransactionOutput};
use btclib::util::{MerkleRoot, Saveable};

fn mined_coinbase_block(chain: &Blockchain, key: &PrivateKey, value: u64) -> Block {
    let transactions = vec![Transaction::coinbase(TransactionOutput::new(
        value,
        key.public_key(),
    ))];
    let mut block = Block::new(
        BlockHeader::new(
            Timestamp::now(),
            0,
            chain
                .blocks()
                .last()
                .map(Block::hash)
                .unwrap_or_else(btclib::sha256::Hash::zero),
            MerkleRoot::calculate(&transactions),
            btclib::min_target(),
        ),
        transactions,
    );
    while !block.mine(1_000_000) {}
    block
}

#[test]
fn hash_is_deterministic() {
    assert_eq!(
        btclib::sha256::Hash::hash(&"bitcoin"),
        btclib::sha256::Hash::hash(&"bitcoin")
    );
    assert_ne!(
        btclib::sha256::Hash::hash(&"bitcoin"),
        btclib::sha256::Hash::hash(&"rust")
    );
}

#[test]
fn merkle_root_changes_when_transactions_change() {
    let key = PrivateKey::new_key();
    let tx1 = Transaction::coinbase(TransactionOutput::new(1, key.public_key()));
    let tx2 = Transaction::coinbase(TransactionOutput::new(2, key.public_key()));
    assert_ne!(
        MerkleRoot::calculate(&[tx1.clone()]),
        MerkleRoot::calculate(&[tx1, tx2])
    );
}

#[test]
fn keys_sign_and_verify_hashes() {
    let key = PrivateKey::new_key();
    let hash = btclib::sha256::Hash::hash(&"message");
    let signature = key.sign_hash(hash);
    assert!(key.public_key().verify_hash(hash, &signature));
}

#[test]
fn blockchain_accepts_mined_coinbase_block_and_tracks_utxo() {
    let key = PrivateKey::new_key();
    let mut chain = Blockchain::new();
    let block = mined_coinbase_block(&chain, &key, btclib::initial_reward_sats());
    chain.add_block(block).unwrap();
    assert_eq!(chain.block_height(), 1);
    assert_eq!(chain.utxos().len(), 1);
}

#[test]
fn blockchain_rejects_double_spend_in_block() {
    let miner = PrivateKey::new_key();
    let sender = PrivateKey::new_key();
    let recipient = PrivateKey::new_key();
    let mut chain = Blockchain::new();
    let first = mined_coinbase_block(&chain, &sender, btclib::initial_reward_sats());
    chain.add_block(first).unwrap();
    let prev_output = chain.utxos().values().into_iter().next().unwrap().1.clone();
    let input = TransactionInput::signed(&prev_output, &sender);
    let spend = Transaction::new(
        vec![input],
        vec![TransactionOutput::new(1_000, recipient.public_key())],
    );
    let mut transactions = vec![Transaction::coinbase(TransactionOutput::new(
        btclib::initial_reward_sats(),
        miner.public_key(),
    ))];
    transactions.push(spend.clone());
    transactions.push(spend);
    let mut block = Block::new(
        BlockHeader::new(
            Timestamp::now(),
            0,
            chain.blocks().last().map(Block::hash).unwrap(),
            MerkleRoot::calculate(&transactions),
            btclib::min_target(),
        ),
        transactions,
    );
    while !block.mine(1_000_000) {}
    assert!(chain.add_block(block).is_err());
}

#[test]
fn transaction_round_trips_through_saveable() {
    let key = PrivateKey::new_key();
    let tx = Transaction::coinbase(TransactionOutput::new(42, key.public_key()));
    let mut bytes = Vec::new();
    tx.save(&mut bytes).unwrap();
    let loaded = Transaction::load(bytes.as_slice()).unwrap();
    assert_eq!(tx.hash(), loaded.hash());
}

#[test]
fn network_message_round_trips_sync() {
    let key = PrivateKey::new_key();
    let message = Message::FetchTemplate(key.public_key());
    let mut bytes = Vec::new();
    message.send(&mut bytes).unwrap();
    let decoded = Message::receive(&mut bytes.as_slice()).unwrap();
    assert!(matches!(decoded, Message::FetchTemplate(_)));
}

#[test]
fn mine_template_returns_a_block_that_satisfies_target() {
    let key = PrivateKey::new_key();
    let transactions = vec![Transaction::coinbase(TransactionOutput::new(
        50,
        key.public_key(),
    ))];
    let block = Block::new(
        BlockHeader::new(
            Timestamp::now(),
            0,
            btclib::sha256::Hash::zero(),
            MerkleRoot::calculate(&transactions),
            btclib::min_target(),
        ),
        transactions,
    );
    let mined = btclib::miner::mine_template(block, 2_000_000)
        .expect("block should mine with easy target");
    assert!(mined.hash().matches_target(mined.header.target));
}
