use btclib::crypto::PrivateKey;
use btclib::decode::{parse_head, parse_int, parse_text, parse_uint};
use btclib::error::BtcError;
use btclib::network::Message;
use btclib::timestamp::Timestamp;
use btclib::types::{Block, BlockHeader, Transaction, TransactionInput, TransactionOutput};
use btclib::util::MerkleRoot;
use sha2::Digest;

fn framed(message: &Message) -> Vec<u8> {
    let mut bytes = Vec::new();
    message.send(&mut bytes).unwrap();
    bytes
}

fn sample_block(key: &PrivateKey) -> Block {
    let transactions = vec![Transaction::coinbase(TransactionOutput::new(9, key.public_key()))];
    Block::new(
        BlockHeader::new(
            Timestamp::from_parts(1_700_000_000, 123_456_789).unwrap(),
            77,
            btclib::sha256::Hash::zero(),
            MerkleRoot::calculate(&transactions),
            btclib::min_target(),
        ),
        transactions,
    )
}

#[test]
fn hash_is_sha256_of_the_cbor_encoding() {
    let expected: [u8; 32] = sha2::Sha256::digest([0x63, b'a', b'b', b'c']).into();
    assert_eq!(btclib::sha256::Hash::hash(&"abc").bytes(), expected);
    assert_eq!(btclib::sha256::Hash::digest(&"abc").bytes(), expected);
    let zero = btclib::sha256::Hash::zero();
    assert_eq!(zero.bytes(), [0u8; 32]);
    assert!(btclib::sha256::Hash::from_bytes([7u8; 32]).bytes() == [7u8; 32]);
}

#[test]
fn matches_target_compares_bytes_in_order() {
    let target = btclib::min_target();
    assert!(btclib::sha256::Hash::zero().matches_target(target));
    assert!(target.matches_target(target));
    let mut above = [0u8; 32];
    above[1] = 0x10;
    assert!(!btclib::sha256::Hash::from_bytes(above).matches_target(target));
    let mut below = [0xffu8; 32];
    below[0] = 0;
    below[1] = 0x0f;
    assert!(btclib::sha256::Hash::from_bytes(below).matches_target(target));
}

#[test]
fn merkle_root_of_one_transaction_is_its_hash() {
    let key = PrivateKey::new_key();
    let tx = Transaction::coinbase(TransactionOutput::new(1, key.public_key()));
    assert!(MerkleRoot::calculate(&[tx.clone()]).0 == tx.hash());
    assert!(MerkleRoot::calculate(&[]).0 == btclib::sha256::Hash::zero());
}

#[test]
fn heads_are_read_only_in_their_shortest_form() {
    assert_eq!(parse_head(&[0x17], 0), Some((0, 23, 1)));
    assert_eq!(parse_head(&[0x18, 0x18], 0), Some((0, 24, 2)));
    assert_eq!(parse_head(&[0x19, 0x01, 0x00], 0), Some((0, 256, 3)));
    assert_eq!(parse_head(&[0xa2], 0), Some((5, 2, 1)));
    assert_eq!(parse_head(&[0x18, 0x05], 0), None);
    assert_eq!(parse_head(&[0x19, 0x00, 0xff], 0), None);
    assert_eq!(parse_head(&[0x1c], 0), None);
    assert_eq!(parse_head(&[0x19, 0x01], 0), None);
    assert_eq!(parse_uint(&[0x1b, 0, 0, 0, 1, 0, 0, 0, 0], 0), Some((1u64 << 32, 9)));
    assert_eq!(parse_int(&[0x20], 0), Some((-1, 1)));
    assert_eq!(parse_int(&[0x38, 0x63], 0), Some((-100, 2)));
    let text = parse_text(&[0x63, b'a', b'b', b'c', 0xff], 0).unwrap();
    assert_eq!(text.0, b"abc".to_vec());
    assert_eq!(text.1, 4);
}

#[test]
fn transaction_encoding_starts_with_its_field_names() {
    let key = PrivateKey::new_key();
    let tx = Transaction::coinbase(TransactionOutput::new(42, key.public_key()));
    let mut bytes = Vec::new();
    btclib::util::Saveable::save(&tx, &mut bytes).unwrap();
    assert_eq!(bytes[0], 0xa2);
    assert_eq!(bytes[1], 0x66);
    assert_eq!(&bytes[2..8], b"inputs");
    assert_eq!(bytes[8], 0x80);
}

#[test]
fn frame_starts_with_the_payload_length() {
    let bytes = framed(&Message::DiscoverNodes);
    assert_eq!(&bytes[..8], &[0, 0, 0, 0, 0, 0, 0, 14]);
    assert_eq!(bytes[8], 0x6d);
    assert_eq!(&bytes[9..], b"DiscoverNodes");
    assert!(matches!(Message::receive(&bytes).unwrap(), Message::DiscoverNodes));
}

#[test]
fn every_kind_of_message_round_trips() {
    let key = PrivateKey::new_key();
    let output = TransactionOutput::new(5, key.public_key());
    let utxos = Message::UTXOs(vec![(output, true), (output, false)]);
    match Message::receive(&framed(&utxos)).unwrap() {
        Message::UTXOs(v) => {
            assert_eq!(v.len(), 2);
            assert!(v[0].1 && !v[1].1);
            assert!(v[0].0.hash() == output.hash());
        }
        _ => panic!("expected utxos"),
    }
    let nodes = Message::NodeList(vec!["127.0.0.1:9000".to_string(), "nœud".to_string()]);
    match Message::receive(&framed(&nodes)).unwrap() {
        Message::NodeList(v) => assert_eq!(v, vec!["127.0.0.1:9000".to_string(), "nœud".to_string()]),
        _ => panic!("expected node list"),
    }
    assert!(matches!(
        Message::receive(&framed(&Message::Difference(-3))).unwrap(),
        Message::Difference(-3)
    ));
    assert!(matches!(
        Message::receive(&framed(&Message::AskDifference(70_000))).unwrap(),
        Message::AskDifference(70_000)
    ));
    assert!(matches!(
        Message::receive(&framed(&Message::FetchBlock(300))).unwrap(),
        Message::FetchBlock(300)
    ));
    assert!(matches!(
        Message::receive(&framed(&Message::TemplateValidity(true))).unwrap(),
        Message::TemplateValidity(true)
    ));
    let block = sample_block(&key);
    match Message::receive(&framed(&Message::NewBlock(block.clone()))).unwrap() {
        Message::NewBlock(b) => {
            assert!(b.hash() == block.hash());
            assert_eq!(b.header.nonce, 77);
            assert_eq!(b.header.timestamp.subsec_nanos(), 123_456_789);
        }
        _ => panic!("expected block"),
    }
    let spend = Transaction::new(
        vec![TransactionInput::signed(&output, &key)],
        vec![TransactionOutput::new(1, key.public_key())],
    );
    match Message::receive(&framed(&Message::SubmitTransaction(spend.clone()))).unwrap() {
        Message::SubmitTransaction(t) => assert!(t.hash() == spend.hash()),
        _ => panic!("expected transaction"),
    }
    match Message::receive(&framed(&Message::FetchUTXOs(key.public_key()))).unwrap() {
        Message::FetchUTXOs(k) => assert!(k == key.public_key()),
        _ => panic!("expected key"),
    }
}

#[test]
fn broken_frames_are_serialization_errors() {
    assert!(matches!(Message::receive(&[0, 0, 0]), Err(BtcError::Serialization)));
    let bytes = framed(&Message::TemplateValidity(false));
    assert!(matches!(
        Message::receive(&bytes[..bytes.len() - 1]),
        Err(BtcError::Serialization)
    ));
    let unknown = [0, 0, 0, 0, 0, 0, 0, 4, 0x63, b'F', b'o', b'o'];
    assert!(matches!(Message::receive(&unknown), Err(BtcError::Serialization)));
}

#[test]
fn timestamps_write_rfc3339_and_measure_seconds() {
    let epoch = Timestamp::from_parts(0, 0).unwrap();
    assert_eq!(epoch.to_rfc3339(), b"1970-01-01T00:00:00Z".to_vec());
    let later = Timestamp::from_parts(90, 500_000_000).unwrap();
    assert_eq!(later.seconds_since(&epoch), 90);
    assert_eq!(epoch.seconds_since(&later), -90);
    assert!(Timestamp::from_parts(0, 1_000_000_000).is_none());
    assert!(Timestamp::now().timestamp() > 1_600_000_000);
}

#[test]
fn fresh_keys_and_ids_differ() {
    let a = PrivateKey::new_key();
    let b = PrivateKey::new_key();
    assert_ne!(a.to_bytes(), b.to_bytes());
    assert!(a.public_key() != b.public_key());
    let x = TransactionOutput::new(1, a.public_key());
    let y = TransactionOutput::new(1, a.public_key());
    assert_ne!(x.unique_id, y.unique_id);
    assert_eq!(x.unique_id[6] >> 4, 4);
    assert_eq!(x.unique_id[8] >> 6, 2);
    assert!(x.hash() != y.hash());
}

#[test]
fn zero_signature_does_not_load() {
    let key = PrivateKey::new_key();
    let output = TransactionOutput::new(5, key.public_key());
    let mut input = TransactionInput::signed(&output, &key);
    input.signature = btclib::crypto::Signature([0u8; 64]);
    let tx = Transaction::new(vec![input], vec![output]);
    let mut bytes = Vec::new();
    btclib::util::Saveable::save(&tx, &mut bytes).unwrap();
    assert!(matches!(
        <Transaction as btclib::util::Saveable>::load(&bytes),
        Err(BtcError::Serialization)
    ));
}

#[test]
fn node_names_must_be_utf8() {
    let payload = [0xa1, 0x68, b'N', b'o', b'd', b'e', b'L', b'i', b's', b't', 0x81, 0x61, 0xff];
    let mut frame = (payload.len() as u64).to_be_bytes().to_vec();
    frame.extend_from_slice(&payload);
    assert!(matches!(Message::receive(&frame), Err(BtcError::Serialization)));
    frame[8 + 12] = b'x';
    match Message::receive(&frame).unwrap() {
        Message::NodeList(v) => assert_eq!(v, vec!["x".to_string()]),
        _ => panic!("expected a node list"),
    }
}

#[test]
fn timestamps_are_read_only_as_they_are_written() {
    let key = PrivateKey::new_key();
    let block = sample_block(&key);
    let mut good = Vec::new();
    btclib::util::Saveable::save(&block, &mut good).unwrap();
    assert!(<Block as btclib::util::Saveable>::load(&good).is_ok());
    let text = b"2023-11-14T22:13:20.123456789Z";
    let at = good.windows(text.len()).position(|w| w == text).unwrap();
    let mut offset = good.clone();
    offset[at + text.len() - 1] = b'z';
    assert!(<Block as btclib::util::Saveable>::load(&offset).is_err());
}

#[test]
fn seconds_since_rounds_toward_zero_as_chrono_does() {
    let cases = [
        ((10, 100), (9, 900_000_000)),
        ((5, 0), (7, 500_000_000)),
        ((-3, 250_000_000), (4, 750_000_000)),
        ((1_700_000_000, 999_999_999), (0, 0)),
    ];
    for ((a_secs, a_nanos), (b_secs, b_nanos)) in cases {
        let a = Timestamp::from_parts(a_secs, a_nanos).unwrap();
        let b = Timestamp::from_parts(b_secs, b_nanos).unwrap();
        let ca = chrono::DateTime::from_timestamp(a_secs, a_nanos).unwrap();
        let cb = chrono::DateTime::from_timestamp(b_secs, b_nanos).unwrap();
        assert_eq!(a.seconds_since(&b), (ca - cb).num_seconds());
        assert_eq!(b.seconds_since(&a), (cb - ca).num_seconds());
    }
    let a = Timestamp::from_parts(5, 0).unwrap();
    let b = Timestamp::from_parts(7, 500_000_000).unwrap();
    assert_eq!(a.seconds_since(&b), -2);
    assert_eq!(b.seconds_since(&a), 2);
}

#[test]
fn default_hash_is_the_zero_hash() {
    assert!(btclib::sha256::Hash::default() == btclib::sha256::Hash::zero());
    assert_eq!(btclib::sha256::Hash::default().bytes(), [0u8; 32]);
}

#[test]
fn fresh_output_ids_are_version_four_uuids() {
    let key = PrivateKey::new_key();
    for value in 0..8u64 {
        let output = TransactionOutput::new(value, key.public_key());
        assert_eq!(output.unique_id[6] >> 4, 4);
        assert_eq!(output.unique_id[8] >> 6, 2);
    }
}
