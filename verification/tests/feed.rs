use earshot::feed::Parsed;
use earshot::time::{Duration, Instant};
use earshot::wire::{
    BroadcastFeedMessage, BroadcastMessage, Header, L1IncomingMessage, MessageWithMetadata,
};
use earshot::{
    Address, FeedMessage, L2MessageKind, MessageKind, ParseError, RlpError, Transaction, TxError,
    B256,
};

const TX: &str = "02f87082123781ff018506fc23ac008252089435353535353535353535353535353535353535350586a9059cbb0011c001a00789dee922a809e21365f515c10b61bdc44f18eb5cf7e4f71d492ac8be157576a05194571dc05071fceb150c7e88f16fa2823cacba25489a914e85615bb5856caa";
const OTHER_TX: &str = "f86c098504a817c800825208943535353535353535353535353535353535353535880de0b6b3a76400008025a028ef61340bd939bc2195fe537567866003e1a15d3c71ff63e1590620aa636276a067cbe9d8997f761aecb703304b3800ccf555c9f3dc64214b297fb1966a3b6d83";

fn bytes(text: &str) -> Vec<u8> {
    const_hex::decode(text).unwrap()
}

/// Standard base64, bit by bit.
fn base64(data: &[u8]) -> String {
    const ALPHABET: &[u8] = b"ABCDEFGHIJKLMNOPQRSTUVWXYZabcdefghijklmnopqrstuvwxyz0123456789+/";
    let mut out = String::new();
    for chunk in data.chunks(3) {
        let mut word = 0u32;
        for i in 0..3 {
            word = word << 8 | u32::from(*chunk.get(i).unwrap_or(&0));
        }
        for i in 0..4 {
            if i <= chunk.len() {
                out.push(ALPHABET[(word >> (18 - 6 * i) & 63) as usize] as char);
            } else {
                out.push('=');
            }
        }
    }
    out
}

fn batch(entries: &[Vec<u8>]) -> Vec<u8> {
    let mut out = vec![3];
    for entry in entries {
        out.extend_from_slice(&(entry.len() as u64).to_be_bytes());
        out.extend_from_slice(entry);
    }
    out
}

fn signed(raw: &str) -> Vec<u8> {
    let mut out = vec![4];
    out.extend_from_slice(&bytes(raw));
    out
}

fn wire(kind: u8, l2_msg: Option<String>) -> BroadcastFeedMessage {
    BroadcastFeedMessage {
        sequence_number: 77,
        message: MessageWithMetadata {
            message: L1IncomingMessage {
                header: Header {
                    kind,
                    sender: Address([0xa4; 20]),
                    block_number: 20,
                    timestamp: 30,
                    request_id: None,
                    base_fee_l1: 40,
                },
                l2_msg,
            },
            delayed_messages_read: 5,
        },
        block_hash: Some(B256([1; 32])),
    }
}

fn noon() -> Instant {
    Instant::at(Duration::from_secs(12))
}

fn parsed(payload: &[u8]) -> FeedMessage {
    FeedMessage::from_wire(wire(3, Some(base64(payload))), noon())
}

#[test]
fn message_kinds_keep_their_byte() {
    for byte in 0..=255u8 {
        assert_eq!(MessageKind::from_byte(byte).as_byte(), byte);
    }
    assert_eq!(MessageKind::from_byte(3), MessageKind::L2Message);
    assert_eq!(MessageKind::from_byte(6), MessageKind::EndOfBlock);
    assert_eq!(MessageKind::from_byte(7), MessageKind::L2FundedByL1);
    assert_eq!(MessageKind::from_byte(8), MessageKind::RollupEvent);
    assert_eq!(MessageKind::from_byte(9), MessageKind::SubmitRetryable);
    assert_eq!(
        MessageKind::from_byte(10),
        MessageKind::BatchForGasEstimation
    );
    assert_eq!(MessageKind::from_byte(11), MessageKind::Initialize);
    assert_eq!(MessageKind::from_byte(12), MessageKind::EthDeposit);
    assert_eq!(MessageKind::from_byte(13), MessageKind::BatchPostingReport);
    assert_eq!(MessageKind::from_byte(255), MessageKind::Invalid);
    assert_eq!(MessageKind::from_byte(4), MessageKind::Other(4));
}

#[test]
fn l2_message_kinds_in_words() {
    for (byte, text) in [
        (0, "unsigned user tx"),
        (1, "contract tx"),
        (2, "non-mutating call"),
        (3, "batch"),
        (4, "signed tx"),
        (5, "unknown kind 5"),
        (6, "heartbeat"),
        (7, "signed compressed tx"),
        (200, "unknown kind 200"),
    ] {
        assert_eq!(L2MessageKind::from_byte(byte).to_string(), text);
    }
}

#[test]
fn a_batch_comes_out_in_order() {
    let message = parsed(&batch(&[signed(TX), signed(OTHER_TX)]));
    assert_eq!(message.parse_error, None);
    assert_eq!(message.transactions.len(), 2);
    assert_eq!(
        message.transactions[0],
        Transaction::decode(&bytes(TX)).unwrap()
    );
    assert_eq!(
        message.transactions[1],
        Transaction::decode(&bytes(OTHER_TX)).unwrap()
    );
}

#[test]
fn the_header_is_carried_over() {
    let message = parsed(&signed(TX));
    assert_eq!(message.sequence_number, 77);
    assert_eq!(message.missed_before, 0);
    assert_eq!(message.block_hash, Some(B256([1; 32])));
    assert_eq!(message.delayed_messages_read, 5);
    assert_eq!(message.header.kind, MessageKind::L2Message);
    assert_eq!(message.header.sender, Address([0xa4; 20]));
    assert_eq!(message.header.l1_block_number, 20);
    assert_eq!(message.header.timestamp, 30);
    assert_eq!(message.header.request_id, None);
    assert_eq!(message.header.l1_base_fee, 40);
    assert_eq!(message.received_at, noon());
    assert_eq!(message.l2_msg.as_slice(), signed(TX).as_slice());
}

#[test]
fn one_bad_entry_costs_only_itself() {
    let message = parsed(&batch(&[signed(TX), vec![4, 0x03], vec![6], signed(OTHER_TX)]));
    assert_eq!(message.transactions.len(), 2);
    // The first failure is the one that is kept.
    assert_eq!(
        message.parse_error,
        Some(ParseError::Tx(TxError::UnsupportedType(3)))
    );
}

#[test]
fn an_entry_past_the_end_stops_the_walk() {
    let mut payload = batch(&[signed(TX)]);
    payload.extend_from_slice(&[0, 0, 0, 0, 0, 0, 0, 2, 4]);
    let message = parsed(&payload);
    assert_eq!(message.transactions.len(), 1);
    assert_eq!(message.parse_error, Some(ParseError::TruncatedBatch));
    // A length that is cut short, and one that no buffer can hold.
    assert_eq!(
        parsed(&[3, 0, 0]).parse_error,
        Some(ParseError::TruncatedBatch)
    );
    assert_eq!(
        parsed(&[3, 255, 255, 255, 255, 255, 255, 255, 255, 4]).parse_error,
        Some(ParseError::TruncatedBatch)
    );
}

#[test]
fn empty_messages_and_unknown_kinds() {
    assert_eq!(
        parsed(&batch(&[Vec::new()])).parse_error,
        Some(ParseError::Empty)
    );
    assert_eq!(
        parsed(&[7, 1, 2]).parse_error,
        Some(ParseError::UnhandledKind(L2MessageKind::SignedCompressedTx))
    );
    assert_eq!(
        parsed(&[9]).parse_error,
        Some(ParseError::UnhandledKind(L2MessageKind::Other(9)))
    );
    // A batch without entries is a batch.
    assert_eq!(parsed(&[3]).parse_error, None);
    assert!(parsed(&[3]).transactions.is_empty());
}

#[test]
fn nesting_has_a_limit() {
    let mut payload = signed(TX);
    for _ in 0..16 {
        payload = batch(&[payload]);
    }
    let message = parsed(&payload);
    assert_eq!(message.parse_error, None);
    assert_eq!(message.transactions.len(), 1);
    let message = parsed(&batch(&[payload]));
    assert_eq!(message.parse_error, Some(ParseError::NestingTooDeep));
    assert!(message.transactions.is_empty());
}

#[test]
fn other_kinds_keep_their_payload() {
    let message = FeedMessage::from_wire(wire(12, Some(base64(&[9, 9]))), noon());
    assert_eq!(message.header.kind, MessageKind::EthDeposit);
    assert_eq!(message.l2_msg.as_slice(), &[9, 9]);
    assert_eq!(message.parse_error, None);
    let message = FeedMessage::from_wire(wire(3, None), noon());
    assert!(message.l2_msg.is_empty());
    assert_eq!(message.parse_error, None);
}

#[test]
fn payloads_of_every_length_survive() {
    for len in 0..40u8 {
        let payload: Vec<u8> = (0..len).map(|i| i.wrapping_mul(37)).collect();
        let message = FeedMessage::from_wire(wire(12, Some(base64(&payload))), noon());
        assert_eq!(message.l2_msg.as_slice(), payload.as_slice());
    }
}

#[test]
fn text_that_is_no_base64() {
    for text in ["A", "AA", "AA=", "AAA", "AB==", "AAB=", "AA==AAAA", "A A=", "AA__", "\n"] {
        let message = FeedMessage::from_wire(wire(3, Some(text.to_owned())), noon());
        assert_eq!(message.parse_error, Some(ParseError::Base64));
        assert!(message.l2_msg.is_empty());
        assert!(message.transactions.is_empty());
    }
    assert_eq!(earshot::b64::decode("Zm9vYg=="), Some(b"foob".to_vec()));
    assert_eq!(earshot::b64::decode("++//"), Some(vec![0xfb, 0xef, 0xff]));
}

#[test]
fn frames() {
    let two = BroadcastMessage {
        messages: Some(vec![
            wire(3, Some(base64(&signed(TX)))),
            wire(3, Some("?".to_owned())),
        ]),
    };
    let messages = FeedMessage::parse_frame(b" \t\r\n\x0c{}", Ok(two), noon()).unwrap();
    assert_eq!(messages.len(), 2);
    assert_eq!(messages[0].transactions.len(), 1);
    assert_eq!(messages[1].parse_error, Some(ParseError::Base64));

    let none = BroadcastMessage { messages: None };
    assert!(FeedMessage::parse_frame(b"{}", Ok(none), noon())
        .unwrap()
        .is_empty());
}

#[test]
fn frames_that_are_no_objects() {
    for frame in [&b"[]"[..], b"", b"   ", b"\x0b{}", b"null"] {
        let none = BroadcastMessage { messages: None };
        let error = FeedMessage::parse_frame(frame, Ok(none), noon()).unwrap_err();
        assert_eq!(
            error,
            ParseError::Json("a broadcast frame must be a JSON object".to_owned())
        );
    }
    let error = FeedMessage::parse_frame(b"{", Err("eof".to_owned()), noon()).unwrap_err();
    assert_eq!(error, ParseError::Json("eof".to_owned()));
}

#[test]
fn parse_errors_in_words() {
    assert_eq!(
        ParseError::Json("eof".to_owned()).to_string(),
        "malformed broadcast JSON: eof"
    );
    assert_eq!(ParseError::Base64.to_string(), "l2Msg is not valid base64");
    assert_eq!(ParseError::Empty.to_string(), "empty L2 message");
    assert_eq!(
        ParseError::TruncatedBatch.to_string(),
        "batch entry is truncated"
    );
    assert_eq!(
        ParseError::NestingTooDeep.to_string(),
        "batch nesting is too deep"
    );
    assert_eq!(
        ParseError::UnhandledKind(L2MessageKind::Heartbeat).to_string(),
        "unhandled L2 message kind: heartbeat"
    );
    assert_eq!(
        ParseError::from(TxError::from(RlpError::Truncated)).to_string(),
        "transaction did not decode: malformed transaction RLP: RLP input ended mid-item"
    );
}

#[test]
fn walks_add_up() {
    let mut walked = Parsed::new();
    walked.walk(&signed(TX), 0);
    walked.walk(&[5], 0);
    walked.walk(&signed(OTHER_TX), 16);
    walked.walk(&signed(OTHER_TX), 17);
    walked.walk(&signed(OTHER_TX), usize::MAX);
    assert_eq!(walked.transactions.len(), 2);
    assert_eq!(
        walked.error,
        Some(ParseError::UnhandledKind(L2MessageKind::Other(5)))
    );
}

#[test]
fn any_depth_beyond_the_deepest_is_too_deep() {
    for depth in [17, 18, 1_000, usize::MAX] {
        let mut walked = Parsed::new();
        walked.walk(&signed(TX), depth);
        assert_eq!(walked.error, Some(ParseError::NestingTooDeep));
        assert!(walked.transactions.is_empty());
    }
}
