use qawakun::ledger::{extract_token_id, transfer_event_topic, LedgerError, LogEntry, Receipt};

fn word_with_value(v: u8) -> Vec<u8> {
    let mut w = vec![0u8; 32];
    w[31] = v;
    w
}

fn transfer_log(token_value: u8) -> LogEntry {
    LogEntry {
        topics: vec![
            transfer_event_topic(),
            word_with_value(0),
            word_with_value(1),
            word_with_value(token_value),
        ],
    }
}

#[test]
fn transfer_topic_is_the_canonical_hash() {
    // The Keccak-256 hash of "Transfer(address,address,uint256)".
    let expected = hex::decode("ddf252ad1be2c89b69c2b068fc378daa952ba7f163c4a11628f55a4df523b3ef")
        .expect("valid hex");
    assert_eq!(transfer_event_topic(), expected);
}

#[test]
fn extraction_reads_the_fourth_topic() {
    let receipt = Receipt { logs: vec![transfer_log(42)] };
    assert_eq!(extract_token_id(&receipt), Ok(42));
}

#[test]
fn extraction_skips_unrelated_logs() {
    let unrelated = LogEntry {
        topics: vec![word_with_value(9), word_with_value(0), word_with_value(0), word_with_value(7)],
    };
    let receipt = Receipt { logs: vec![unrelated, transfer_log(42)] };
    assert_eq!(extract_token_id(&receipt), Ok(42));
}

#[test]
fn extraction_fails_without_matching_log() {
    let unrelated = LogEntry {
        topics: vec![word_with_value(9), word_with_value(0), word_with_value(0), word_with_value(7)],
    };
    let receipt = Receipt { logs: vec![unrelated] };
    assert_eq!(extract_token_id(&receipt), Err(LedgerError::TokenIdNotFound));
}

#[test]
fn extraction_fails_on_empty_receipt() {
    let receipt = Receipt { logs: Vec::new() };
    assert_eq!(extract_token_id(&receipt), Err(LedgerError::TokenIdNotFound));
}

#[test]
fn extraction_needs_four_topics() {
    let short = LogEntry {
        topics: vec![transfer_event_topic(), word_with_value(0), word_with_value(1)],
    };
    let receipt = Receipt { logs: vec![short] };
    assert_eq!(extract_token_id(&receipt), Err(LedgerError::TokenIdNotFound));
}

#[test]
fn extraction_rejects_oversized_id() {
    let mut topic = vec![0u8; 32];
    topic[0] = 1;
    let log = LogEntry {
        topics: vec![transfer_event_topic(), word_with_value(0), word_with_value(1), topic],
    };
    let receipt = Receipt { logs: vec![log] };
    assert_eq!(extract_token_id(&receipt), Err(LedgerError::TokenIdNotFound));
}

#[test]
fn extraction_reads_multi_byte_ids() {
    let mut topic = vec![0u8; 32];
    topic[30] = 1;
    topic[31] = 4;
    let log = LogEntry {
        topics: vec![transfer_event_topic(), word_with_value(0), word_with_value(1), topic],
    };
    let receipt = Receipt { logs: vec![log] };
    assert_eq!(extract_token_id(&receipt), Ok(260));
}
