use minibtc::block::Block;
use minibtc::errors::ChainError;
use minibtc::hexcode::hex_chars;
use minibtc::hexcode::hex_decode;
use minibtc::transaction::Transaction;
use minibtc::transaction::TxInput;
use minibtc::transaction::TxOutput;

fn sample_tx() -> Transaction {
    Transaction {
        id: String::new(),
        vin: vec![TxInput {
            txid: String::new(),
            vout: -1,
            signature: String::new(),
            pubkey: vec![1, 2],
        }],
        vout: vec![TxOutput { value: 50, pubkey_hash: "ab".to_string() }],
    }
}

#[test]
fn tx_serialize_matches_canonical_json() {
    let tx = sample_tx();
    let text = tx.serialize().unwrap();
    assert_eq!(
        text,
        "{\"id\":\"\",\"vin\":[{\"txid\":\"\",\"vout\":-1,\"signature\":\"\",\"pubkey\":[1,2]}],\"vout\":[{\"value\":50,\"pubkey_hash\":\"ab\"}]}"
    );
}

#[test]
fn tx_round_trip() {
    let mut tx = sample_tx();
    tx.set_id().unwrap();
    let text = tx.serialize().unwrap();
    let back = Transaction::deserialize(text.as_str()).unwrap();
    assert_eq!(back.id, tx.id);
    assert_eq!(back.vin.len(), 1);
    assert_eq!(back.vin[0].txid, tx.vin[0].txid);
    assert_eq!(back.vin[0].vout, -1);
    assert_eq!(back.vin[0].pubkey, vec![1, 2]);
    assert_eq!(back.vout.len(), 1);
    assert_eq!(back.vout[0].value, 50);
    assert_eq!(back.vout[0].pubkey_hash, "ab");
}

#[test]
fn tx_round_trip_with_escapes() {
    let tx = Transaction {
        id: "a\"b\\c".to_string(),
        vin: vec![TxInput {
            txid: "x".to_string(),
            vout: 3,
            signature: String::new(),
            pubkey: vec![],
        }],
        vout: vec![TxOutput { value: -7, pubkey_hash: String::new() }],
    };
    let text = tx.serialize().unwrap();
    let back = Transaction::deserialize(text.as_str()).unwrap();
    assert_eq!(back.id, "a\"b\\c");
    assert_eq!(back.vin[0].vout, 3);
    assert_eq!(back.vout[0].value, -7);
}

#[test]
fn block_round_trip() {
    let mut tx = sample_tx();
    tx.set_id().unwrap();
    let block = Block {
        timestamp: 1234567890123,
        transactions: vec![tx],
        prev_block_hash: String::new(),
        hash: "00aa".to_string(),
        nonce: 42,
    };
    let text = block.serialize().unwrap();
    let back = Block::deserialize(text.as_str()).unwrap();
    assert_eq!(back.timestamp, 1234567890123);
    assert_eq!(back.nonce, 42);
    assert_eq!(back.hash, "00aa");
    assert_eq!(back.prev_block_hash, "");
    assert_eq!(back.transactions.len(), 1);
    assert_eq!(back.transactions[0].vout[0].value, 50);
}

#[test]
fn deserialize_rejects_malformed() {
    let r = Transaction::deserialize("not json");
    assert!(matches!(r, Err(ChainError::SerializationError)));
    let r2 = Block::deserialize("{\"timestamp\":}");
    assert!(matches!(r2, Err(ChainError::SerializationError)));
}

#[test]
fn deserialize_rejects_trailing_text() {
    let tx = sample_tx();
    let mut text = tx.serialize().unwrap();
    text.push(' ');
    assert!(matches!(
        Transaction::deserialize(text.as_str()),
        Err(ChainError::SerializationError)
    ));
}

#[test]
fn hex_matches_reference_encoder() {
    let bytes: Vec<u8> = vec![0, 1, 15, 16, 127, 128, 255];
    let mine: String = hex_chars(bytes.as_slice()).into_iter().collect();
    assert_eq!(mine, hex::encode(&bytes));
    let back = hex_decode(&mine.chars().collect()).unwrap();
    assert_eq!(back, bytes);
}

#[test]
fn hex_decode_rejects_odd_and_bad_digits() {
    assert!(hex_decode(&"abc".chars().collect()).is_err());
    assert!(hex_decode(&"zz".chars().collect()).is_err());
    assert_eq!(hex_decode(&"0aFF".chars().collect()).unwrap(), vec![10, 255]);
}

#[test]
fn tx_hash_is_sha256_of_canonical_text() {
    let tx = sample_tx();
    let text = tx.serialize().unwrap();
    let id = tx.hash().unwrap();
    assert_eq!(id, sha256::digest(text.as_str()));
    assert_eq!(id.len(), 64);
}

#[test]
fn parse_u128_reads_canonical_numbers() {
    let s: Vec<char> = "340282366920938463463374607431768211455,".chars().collect();
    let (v, p) = minibtc::dec::parse_u128(&s, 0).unwrap();
    assert_eq!(v, u128::MAX);
    assert_eq!(p, 39);
    let bad: Vec<char> = "340282366920938463463374607431768211456".chars().collect();
    assert!(minibtc::dec::parse_u128(&bad, 0).is_err());
}
