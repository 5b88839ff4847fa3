use qataar::codec::{decode_batch, decode_operation, encode_batch, encode_operation};
use qataar::queue::{QueueItem, QueueOperation};
use qataar::session::{check_credentials, handle_frame, FrameAction};
use qataar::error::ServerError;

fn round_trip(op: QueueOperation) {
    let bytes = encode_operation(&op);
    let back = decode_operation(&bytes);
    assert_eq!(back, Some(op));
}

#[test]
fn operation_round_trip_add_topic() {
    round_trip(QueueOperation::AddTopic("orders".to_string()));
    round_trip(QueueOperation::AddTopic("".to_string()));
    round_trip(QueueOperation::AddTopic("héllo 😀".to_string()));
}

#[test]
fn operation_round_trip_add_consumer() {
    round_trip(QueueOperation::AddConsumer(
        "c1".to_string(),
        "orders".to_string(),
        None,
    ));
    round_trip(QueueOperation::AddConsumer(
        "".to_string(),
        "".to_string(),
        Some(0),
    ));
    round_trip(QueueOperation::AddConsumer(
        "c".to_string(),
        "t".to_string(),
        Some(usize::MAX),
    ));
}

#[test]
fn operation_round_trip_add_item() {
    round_trip(QueueOperation::AddItem(
        "t".to_string(),
        "k".to_string(),
        vec![],
    ));
    round_trip(QueueOperation::AddItem(
        "t".to_string(),
        "".to_string(),
        (0..=255u8).collect(),
    ));
}

#[test]
fn operation_round_trip_offsets() {
    round_trip(QueueOperation::SetReadOffset(
        "c".to_string(),
        "t".to_string(),
        12345,
    ));
    round_trip(QueueOperation::ReadBatch(
        "c".to_string(),
        "t".to_string(),
        usize::MAX,
    ));
}

#[test]
fn decode_rejects_malformed_messages() {
    assert_eq!(decode_operation(&[]), None);
    assert_eq!(decode_operation(&[9]), None);
    let mut bytes = encode_operation(&QueueOperation::AddTopic("abc".to_string()));
    // Truncated message.
    let short = &bytes[..bytes.len() - 1];
    assert_eq!(decode_operation(short), None);
    // Trailing garbage.
    bytes.push(0);
    assert_eq!(decode_operation(&bytes), None);
}

#[test]
fn decode_rejects_surrogate_character_codes() {
    // Tag 0 (AddTopic), length 1, then the surrogate 0xD800.
    let mut bytes = vec![0u8];
    bytes.extend_from_slice(&1u64.to_le_bytes());
    bytes.extend_from_slice(&0xD800u32.to_le_bytes());
    assert_eq!(decode_operation(&bytes), None);
}

#[test]
fn encoding_differs_from_input_bytes() {
    // The encoder frames its input; handing the value back unchanged
    // would decode to nothing.
    let op = QueueOperation::AddItem("t".to_string(), "k".to_string(), vec![7, 8, 9]);
    let bytes = encode_operation(&op);
    assert_ne!(bytes, vec![7, 8, 9]);
    assert_eq!(decode_operation(&[7, 8, 9]), None);
}

#[test]
fn batch_round_trip() {
    let items = vec![
        QueueItem {
            key: "a".to_string(),
            value: vec![1, 2, 3],
            created: 11,
        },
        QueueItem {
            key: "".to_string(),
            value: vec![],
            created: 0,
        },
        QueueItem {
            key: "émoji 😀".to_string(),
            value: vec![255, 0, 128],
            created: u64::MAX,
        },
    ];
    let bytes = encode_batch(&items);
    let back = decode_batch(&bytes).expect("well-formed batch");
    assert_eq!(back, items);
}

#[test]
fn empty_batch_round_trip() {
    let items: Vec<QueueItem> = vec![];
    let bytes = encode_batch(&items);
    let back = decode_batch(&bytes).expect("well-formed batch");
    assert!(back.is_empty());
    assert_eq!(decode_batch(&[]), None);
}

#[test]
fn handle_frame_decides_the_ready_state() {
    assert!(matches!(handle_frame(&[]), FrameAction::Close));
    assert!(matches!(handle_frame(&[42, 1, 2]), FrameAction::Ignore));
    let op = QueueOperation::ReadBatch("c".to_string(), "t".to_string(), 3);
    let bytes = encode_operation(&op);
    match handle_frame(&bytes) {
        FrameAction::Submit(got) => assert_eq!(got, op),
        _ => panic!("a decoded operation is submitted"),
    }
}

#[test]
fn credentials_accept_only_the_fixed_pair() {
    assert!(check_credentials("aaa,bbb").is_ok());
    assert!(check_credentials("aaa,bbb,extra").is_ok());
    assert_eq!(check_credentials("aaa,wrong"), Err(ServerError::UnAuth));
    assert_eq!(check_credentials("nocomma"), Err(ServerError::UnAuth));
    assert_eq!(check_credentials(""), Err(ServerError::UnAuth));
    assert_eq!(ServerError::UnAuth.message(), "Unauthorized user");
}
