use btclib::crypto::PrivateKey;
use btclib::network::Message;
use btclib::node::{handle_message, message_overflows, NodeError};
use btclib::timestamp::Timestamp;
use btclib::types::index::HashIndex;
use btclib::types::{Block, BlockHeader, Blockchain, Transaction, TransactionOutput};
use btclib::util::MerkleRoot;
use btclib::miner::{keeps_mining, next_request, template_of, MinerError};
use btclib::wallet::{
    add_unmarked, create_transaction, decide_command, find_recipient, get_balance, outputs_index,
    parse_u64, LoadedKey, LoadedRecipient, WalletCommand, WalletError,
};

fn mined_block(prev: btclib::sha256::Hash, key: &PrivateKey, value: u64) -> Block {
    let transactions = vec![Transaction::coinbase(TransactionOutput::new(
        value,
        key.public_key(),
    ))];
    let mut block = Block::new(
        BlockHeader::new(
            Timestamp::now(),
            0,
            prev,
            MerkleRoot::calculate(&transactions),
            btclib::min_target(),
        ),
        transactions,
    );
    while !block.mine(1_000_000) {}
    block
}

fn loaded(key: &PrivateKey) -> LoadedKey {
    LoadedKey {
        public: key.public_key(),
        private: *key,
    }
}

#[test]
fn wallet_creates_transaction_with_change_and_percent_fee() {
    let owner = PrivateKey::new_key();
    let recipient = PrivateKey::new_key();
    let keys = vec![loaded(&owner)];
    let utxos = outputs_index(vec![TransactionOutput::new(1_000, owner.public_key())]);
    let fee = 5;
    let tx = create_transaction(&keys, &utxos, &recipient.public_key(), 500, fee).unwrap();
    assert_eq!(tx.inputs.len(), 1);
    assert_eq!(tx.outputs[0].value, 500);
    assert_eq!(tx.outputs[1].value, 495);
    assert_eq!(tx.total_output_value() + fee, 1_000);
    assert!(tx.outputs[1].pubkey == owner.public_key());
    assert!(owner
        .public_key()
        .verify_hash(tx.inputs[0].prev_transaction_output_hash, &tx.inputs[0].signature));
}

#[test]
fn wallet_pays_exactly_without_change() {
    let owner = PrivateKey::new_key();
    let recipient = PrivateKey::new_key();
    let keys = vec![loaded(&owner)];
    let utxos = outputs_index(vec![
        TransactionOutput::new(300, owner.public_key()),
        TransactionOutput::new(300, owner.public_key()),
        TransactionOutput::new(300, owner.public_key()),
    ]);
    let tx = create_transaction(&keys, &utxos, &recipient.public_key(), 590, 10).unwrap();
    assert_eq!(tx.inputs.len(), 2);
    assert_eq!(tx.outputs.len(), 1);
    assert_eq!(tx.outputs[0].value, 590);
    assert_eq!(get_balance(&utxos), 900);
}

#[test]
fn wallet_refuses_what_it_cannot_pay_or_sign() {
    let owner = PrivateKey::new_key();
    let stranger = PrivateKey::new_key();
    let keys = vec![loaded(&owner)];
    let utxos = outputs_index(vec![TransactionOutput::new(100, owner.public_key())]);
    assert_eq!(
        create_transaction(&keys, &utxos, &stranger.public_key(), 95, 6).unwrap_err(),
        WalletError::InsufficientBalance
    );
    let theirs = outputs_index(vec![TransactionOutput::new(100, stranger.public_key())]);
    assert_eq!(
        create_transaction(&keys, &theirs, &owner.public_key(), 50, 1).unwrap_err(),
        WalletError::MissingPrivateKey
    );
}

#[test]
fn wallet_keeps_only_unmarked_outputs_of_an_answer() {
    let owner = PrivateKey::new_key();
    let mut utxos = HashIndex::new();
    let free = TransactionOutput::new(40, owner.public_key());
    let reserved = TransactionOutput::new(60, owner.public_key());
    add_unmarked(&mut utxos, &vec![(free, false), (reserved, true)]);
    assert_eq!(utxos.len(), 1);
    assert_eq!(get_balance(&utxos), 40);
}

#[test]
fn node_accepts_submitted_template_and_returns_utxos() {
    let mut chain = Blockchain::new();
    let nodes: Vec<String> = Vec::new();
    let key = PrivateKey::new_key();
    let block = mined_block(
        btclib::sha256::Hash::zero(),
        &key,
        btclib::initial_reward_sats(),
    );
    let message = Message::SubmitTemplate(block);
    assert!(!message_overflows(&chain, &message));
    handle_message(&mut chain, &nodes, message).unwrap();
    let response = handle_message(&mut chain, &nodes, Message::FetchUTXOs(key.public_key()))
        .unwrap()
        .unwrap();
    let Message::UTXOs(utxos) = response else {
        panic!("expected utxo response");
    };
    assert_eq!(utxos.len(), 1);
}

#[test]
fn node_builds_templates_against_current_tip() {
    let mut chain = Blockchain::new();
    let nodes: Vec<String> = Vec::new();
    let key = PrivateKey::new_key();
    let response = handle_message(&mut chain, &nodes, Message::FetchTemplate(key.public_key()))
        .unwrap()
        .unwrap();
    let Message::Template(template) = response else {
        panic!("expected template");
    };
    assert!(template.header.prev_block_hash == btclib::sha256::Hash::zero());
}

#[test]
fn node_answers_queries_and_refuses_responses() {
    let mut chain = Blockchain::new();
    let nodes = vec!["10.0.0.1:9000".to_string()];
    let key = PrivateKey::new_key();
    let block = mined_block(btclib::sha256::Hash::zero(), &key, btclib::initial_reward_sats());
    let hash = block.hash();
    assert!(handle_message(&mut chain, &nodes, Message::NewBlock(block))
        .unwrap()
        .is_none());
    match handle_message(&mut chain, &nodes, Message::FetchBlock(0)).unwrap() {
        Some(Message::NewBlock(b)) => assert!(b.hash() == hash),
        _ => panic!("expected the block"),
    }
    assert!(handle_message(&mut chain, &nodes, Message::FetchBlock(1))
        .unwrap()
        .is_none());
    match handle_message(&mut chain, &nodes, Message::AskDifference(3)).unwrap() {
        Some(Message::Difference(d)) => assert_eq!(d, -2),
        _ => panic!("expected a difference"),
    }
    match handle_message(&mut chain, &nodes, Message::DiscoverNodes).unwrap() {
        Some(Message::NodeList(v)) => assert_eq!(v, nodes),
        _ => panic!("expected the node list"),
    }
    assert!(matches!(
        handle_message(&mut chain, &nodes, Message::TemplateValidity(true)),
        Err(NodeError::ResponseOnly)
    ));
    assert!(matches!(
        handle_message(&mut chain, &nodes, Message::Difference(1)),
        Err(NodeError::ResponseOnly)
    ));
    let stale = mined_block(btclib::sha256::Hash::zero(), &key, btclib::initial_reward_sats());
    assert!(matches!(
        handle_message(&mut chain, &nodes, Message::NewBlock(stale)),
        Err(NodeError::Chain(btclib::error::BtcError::InvalidPreviousHash))
    ));
    assert_eq!(chain.block_height(), 1);
}

#[test]
fn index_gives_back_what_was_inserted_and_forgets_what_was_removed() {
    let mut index: HashIndex<u64> = HashIndex::new();
    let a = btclib::sha256::Hash::hash(&"a");
    let b = btclib::sha256::Hash::hash(&"b");
    index.insert(a, 1);
    index.insert(b, 2);
    index.insert(a, 3);
    assert_eq!(index.len(), 2);
    assert_eq!(index.get(&a), Some(&3));
    assert_eq!(index.values(), vec![3, 2]);
    assert_eq!(index.remove(&a), Some(3));
    assert_eq!(index.get(&a), None);
    assert_eq!(index.get(&b), Some(&2));
    assert_eq!(index.remove(&a), None);
    index.clear();
    assert!(index.is_empty());
}

#[test]
fn prompt_words_become_commands() {
    let words = |line: &str| -> Vec<String> { line.split_whitespace().map(str::to_string).collect() };
    assert!(matches!(decide_command(&words("")), WalletCommand::Empty));
    assert!(matches!(decide_command(&words("balance")), WalletCommand::Balance));
    assert!(matches!(decide_command(&words("contacts")), WalletCommand::Contacts));
    assert!(matches!(decide_command(&words("exit")), WalletCommand::Exit));
    assert!(matches!(decide_command(&words("send Bob")), WalletCommand::SendUsage));
    assert!(matches!(decide_command(&words("send Bob 12x")), WalletCommand::BadAmount));
    assert!(matches!(decide_command(&words("hello")), WalletCommand::Unknown));
    match decide_command(&words("  send   Bob 1000 ")) {
        WalletCommand::Send(name, amount) => {
            assert_eq!(name, "Bob");
            assert_eq!(amount, 1000);
        }
        _ => panic!("expected a payment"),
    }
    assert_eq!(parse_u64(b"18446744073709551615"), Some(u64::MAX));
    assert_eq!(parse_u64(b"18446744073709551616"), None);
    assert_eq!(parse_u64(b"+7"), Some(7));
    assert_eq!(parse_u64(b"007"), Some(7));
    assert_eq!(parse_u64(b"+"), None);
    assert_eq!(parse_u64(b""), None);
    assert_eq!(parse_u64(b"-1"), None);
    assert_eq!(parse_u64(b"1 "), None);
}

#[test]
fn contacts_are_found_by_their_first_exact_name() {
    let bob = PrivateKey::new_key().public_key();
    let other = PrivateKey::new_key().public_key();
    let contacts = vec![
        LoadedRecipient { name: "Bob".to_string(), key: bob },
        LoadedRecipient { name: "Bob".to_string(), key: other },
    ];
    assert!(find_recipient(&contacts, "Bob") == Some(bob));
    assert!(find_recipient(&contacts, "bob").is_none());
}

#[test]
fn miner_asks_for_templates_and_follows_validity() {
    let key = PrivateKey::new_key();
    assert!(matches!(next_request(false, None, key.public_key()), Some(Message::FetchTemplate(k)) if k == key.public_key()));
    assert!(next_request(true, None, key.public_key()).is_none());
    let block = mined_block(btclib::sha256::Hash::zero(), &key, 50);
    match next_request(true, Some(&block), key.public_key()) {
        Some(Message::ValidateTemplate(b)) => assert!(b.hash() == block.hash()),
        _ => panic!("expected a validation request"),
    }
    assert_eq!(keeps_mining(&Message::TemplateValidity(false)), Ok(false));
    assert_eq!(keeps_mining(&Message::DiscoverNodes), Err(MinerError::UnexpectedMessage));
    assert!(template_of(Message::Template(block)).is_ok());
    assert!(matches!(template_of(Message::DiscoverNodes), Err(MinerError::UnexpectedMessage)));
}
