use btclib::crypto::{PrivateKey, PublicKey};
use btclib::network::Message;
use btclib::types::{Transaction, TransactionInput, TransactionOutput};
use btclib::util::Saveable;
use ciborium::value::Value;

fn cbor(value: &Value) -> Vec<u8> {
    let mut out = Vec::new();
    ciborium::ser::into_writer(value, &mut out).unwrap();
    out
}

fn text(s: &str) -> Value {
    Value::Text(s.to_string())
}

fn hash_value(hash: btclib::sha256::Hash) -> Value {
    Value::Array(hash.bytes().iter().map(|b| Value::Integer((*b).into())).collect())
}

fn output_value(o: &TransactionOutput) -> Value {
    Value::Map(vec![
        (text("value"), Value::Integer(o.value.into())),
        (text("unique_id"), Value::Bytes(o.unique_id.to_vec())),
        (text("pubkey"), Value::Bytes(o.pubkey.to_bytes())),
    ])
}

#[test]
fn transaction_bytes_are_what_ciborium_writes() {
    let key = PrivateKey::new_key();
    let prev = TransactionOutput::new(70_000, key.public_key());
    let input = TransactionInput::signed(&prev, &key);
    let tx = Transaction::new(
        vec![input],
        vec![TransactionOutput::new(300, key.public_key()), TransactionOutput::new(u64::MAX, key.public_key())],
    );
    let expected = Value::Map(vec![
        (
            text("inputs"),
            Value::Array(vec![Value::Map(vec![
                (
                    text("prev_transaction_output_hash"),
                    hash_value(input.prev_transaction_output_hash),
                ),
                (text("signature"), Value::Bytes(input.signature.0.to_vec())),
            ])]),
        ),
        (
            text("outputs"),
            Value::Array(tx.outputs.iter().map(output_value).collect()),
        ),
    ]);
    let mut ours = Vec::new();
    tx.save(&mut ours).unwrap();
    assert_eq!(ours, cbor(&expected));
    let reread = Transaction::load(&cbor(&expected)).unwrap();
    assert!(reread.hash() == tx.hash());
}

#[test]
fn message_bytes_are_what_ciborium_writes() {
    let key = PrivateKey::new_key();
    let message = Message::Difference(-70_000);
    let mut framed = Vec::new();
    message.send(&mut framed).unwrap();
    let expected = cbor(&Value::Map(vec![(
        text("Difference"),
        Value::Integer((-70_000i64).into()),
    )]));
    assert_eq!(&framed[8..], expected.as_slice());
    assert_eq!(&framed[..8], &(expected.len() as u64).to_be_bytes());

    let unit = cbor(&text("DiscoverNodes"));
    let mut framed = Vec::new();
    Message::DiscoverNodes.send(&mut framed).unwrap();
    assert_eq!(&framed[8..], unit.as_slice());

    let utxo = TransactionOutput::new(1, key.public_key());
    let expected = cbor(&Value::Map(vec![(
        text("UTXOs"),
        Value::Array(vec![Value::Array(vec![output_value(&utxo), Value::Bool(true)])]),
    )]));
    let mut framed = Vec::new();
    Message::UTXOs(vec![(utxo, true)]).send(&mut framed).unwrap();
    assert_eq!(&framed[8..], expected.as_slice());
}

#[test]
fn short_private_key_loads_zero_padded() {
    let scalar: Vec<u8> = (1u8..=31).collect();
    let key = PrivateKey::load(&cbor(&Value::Bytes(scalar.clone()))).unwrap();
    let mut padded = vec![0u8];
    padded.extend_from_slice(&scalar);
    assert_eq!(key.to_bytes().to_vec(), padded);
    let mut saved = Vec::new();
    key.save(&mut saved).unwrap();
    assert_eq!(saved, cbor(&Value::Bytes(padded)));
}

#[test]
fn private_key_of_wrong_length_does_not_load() {
    let too_short: Vec<u8> = (1u8..=23).collect();
    assert!(PrivateKey::load(&cbor(&Value::Bytes(too_short))).is_err());
    let too_long: Vec<u8> = (1u8..=33).collect();
    assert!(PrivateKey::load(&cbor(&Value::Bytes(too_long))).is_err());
}

#[test]
fn uncompressed_public_key_file_loads_as_the_key() {
    let key = PrivateKey::new_key();
    let compressed = key.public_key().to_bytes();
    let point = k256::ecdsa::VerifyingKey::from_sec1_bytes(&compressed).unwrap();
    let uncompressed = point.to_encoded_point(false).as_bytes().to_vec();
    let loaded = PublicKey::load(&cbor(&Value::Bytes(uncompressed))).unwrap();
    assert!(loaded == key.public_key());
    assert!(PublicKey::load(&cbor(&Value::Bytes(compressed))).unwrap() == key.public_key());
    assert!(PublicKey::load(&cbor(&Value::Bytes(vec![4u8; 65]))).is_err());
}
