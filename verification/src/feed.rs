//! What a subscriber receives, and how the sequencer's bytes become it.
//!
//! A broadcast frame is JSON wrapping a base64 blob. That blob is an L2
//! message: usually a *batch*, which is a length-prefixed sequence of nested
//! L2 messages, whose leaves are signed transactions in EIP-2718 form. This
//! module walks that structure and hands back [`FeedMessage`]s.

use vstd::prelude::*;
use vstd::slice::slice_subrange;
use vstd::string::*;

use crate::b64;
use crate::error::ParseError;
use crate::num;
use crate::text;
use crate::time::Instant;
use crate::tx;
use crate::tx::{Transaction, TransactionView};
use crate::types::{read_be, Address, Bytes, B256};
use crate::wire::{BroadcastFeedMessage, BroadcastMessage};

verus! {

/// Nested batches deeper than this are treated as malformed. Nitro applies the
/// same limit when it replays them, so anything deeper could never execute.
pub const MAX_BATCH_DEPTH: usize = 16;

/// What a JSON object starts with.
pub const OPEN_BRACE: u8 = 0x7b;

/// The type of an inbox message, from the header the sequencer signs.
#[derive(Debug, Clone, Copy, PartialEq, Eq, Hash, Structural)]
pub enum MessageKind {
    /// Kind 3: carries L2 transactions. Everything the sequencer produces.
    L2Message,
    /// Kind 6: end-of-block marker.
    EndOfBlock,
    /// Kind 7: an L2 transaction funded by its L1 poster.
    L2FundedByL1,
    /// Kind 8: a rollup event.
    RollupEvent,
    /// Kind 9: a retryable ticket submitted from L1.
    SubmitRetryable,
    /// Kind 10: a batch used only for gas estimation.
    BatchForGasEstimation,
    /// Kind 11: chain initialization.
    Initialize,
    /// Kind 12: an ETH deposit from L1.
    EthDeposit,
    /// Kind 13: a batch posting report.
    BatchPostingReport,
    /// Kind 0xff: explicitly invalid.
    Invalid,
    /// A kind this crate does not know about.
    Other(u8),
}

/// The kind that a header's `kind` byte stands for.
pub open spec fn message_kind(byte: u8) -> MessageKind {
    match byte {
        3 => MessageKind::L2Message,
        6 => MessageKind::EndOfBlock,
        7 => MessageKind::L2FundedByL1,
        8 => MessageKind::RollupEvent,
        9 => MessageKind::SubmitRetryable,
        10 => MessageKind::BatchForGasEstimation,
        11 => MessageKind::Initialize,
        12 => MessageKind::EthDeposit,
        13 => MessageKind::BatchPostingReport,
        0xff => MessageKind::Invalid,
        other => MessageKind::Other(other),
    }
}

/// The byte that a kind is encoded as.
pub open spec fn message_kind_byte(kind: MessageKind) -> u8 {
    match kind {
        MessageKind::L2Message => 3,
        MessageKind::EndOfBlock => 6,
        MessageKind::L2FundedByL1 => 7,
        MessageKind::RollupEvent => 8,
        MessageKind::SubmitRetryable => 9,
        MessageKind::BatchForGasEstimation => 10,
        MessageKind::Initialize => 11,
        MessageKind::EthDeposit => 12,
        MessageKind::BatchPostingReport => 13,
        MessageKind::Invalid => 0xff,
        MessageKind::Other(byte) => byte,
    }
}

impl MessageKind {
    /// Classify a header's `kind` byte.
    #[must_use]
    pub fn from_byte(byte: u8) -> (out: Self)
        ensures
            out == message_kind(byte),
    {
        match byte {
            3 => Self::L2Message,
            6 => Self::EndOfBlock,
            7 => Self::L2FundedByL1,
            8 => Self::RollupEvent,
            9 => Self::SubmitRetryable,
            10 => Self::BatchForGasEstimation,
            11 => Self::Initialize,
            12 => Self::EthDeposit,
            13 => Self::BatchPostingReport,
            0xff => Self::Invalid,
            other => Self::Other(other),
        }
    }

    /// The byte this kind is encoded as.
    #[must_use]
    pub fn as_byte(self) -> (out: u8)
        ensures
            out == message_kind_byte(self),
    {
        match self {
            Self::L2Message => 3,
            Self::EndOfBlock => 6,
            Self::L2FundedByL1 => 7,
            Self::RollupEvent => 8,
            Self::SubmitRetryable => 9,
            Self::BatchForGasEstimation => 10,
            Self::Initialize => 11,
            Self::EthDeposit => 12,
            Self::BatchPostingReport => 13,
            Self::Invalid => 0xff,
            Self::Other(byte) => byte,
        }
    }
}

/// Classifying a byte loses nothing: the kind is encoded as that byte again.
pub proof fn message_kind_keeps_byte(byte: u8)
    ensures
        message_kind_byte(message_kind(byte)) == byte,
{
}

/// The kind byte that leads an L2 message payload.
#[derive(Debug, Clone, Copy, PartialEq, Eq, Hash, Structural)]
pub enum L2MessageKind {
    /// Kind 0: an unsigned transaction from a known poster.
    UnsignedUserTx,
    /// Kind 1: a contract-initiated transaction.
    ContractTx,
    /// Kind 2: a call that must not change state.
    NonMutatingCall,
    /// Kind 3: a length-prefixed sequence of nested L2 messages.
    Batch,
    /// Kind 4: one signed EIP-2718 transaction. The common case.
    SignedTx,
    /// Kind 6: a deprecated heartbeat.
    Heartbeat,
    /// Kind 7: a signed transaction in compressed form.
    SignedCompressedTx,
    /// A kind this crate does not know about.
    Other(u8),
}

/// The kind that the leading byte of an L2 message stands for.
pub open spec fn l2_message_kind(byte: u8) -> L2MessageKind {
    match byte {
        0 => L2MessageKind::UnsignedUserTx,
        1 => L2MessageKind::ContractTx,
        2 => L2MessageKind::NonMutatingCall,
        3 => L2MessageKind::Batch,
        4 => L2MessageKind::SignedTx,
        6 => L2MessageKind::Heartbeat,
        7 => L2MessageKind::SignedCompressedTx,
        other => L2MessageKind::Other(other),
    }
}

impl L2MessageKind {
    /// Classify the leading byte of an L2 message.
    #[must_use]
    pub fn from_byte(byte: u8) -> (out: Self)
        ensures
            out == l2_message_kind(byte),
    {
        match byte {
            0 => Self::UnsignedUserTx,
            1 => Self::ContractTx,
            2 => Self::NonMutatingCall,
            3 => Self::Batch,
            4 => Self::SignedTx,
            6 => Self::Heartbeat,
            7 => Self::SignedCompressedTx,
            other => Self::Other(other),
        }
    }

    /// The kind in words.
    pub open spec fn text(self) -> Seq<char> {
        match self {
            Self::UnsignedUserTx => "unsigned user tx"@,
            Self::ContractTx => "contract tx"@,
            Self::NonMutatingCall => "non-mutating call"@,
            Self::Batch => "batch"@,
            Self::SignedTx => "signed tx"@,
            Self::Heartbeat => "heartbeat"@,
            Self::SignedCompressedTx => "signed compressed tx"@,
            Self::Other(byte) => "unknown kind "@ + text::digits(byte as nat, 10),
        }
    }

    /// The kind in words.
    #[must_use]
    pub fn to_string(&self) -> (out: String)
        ensures
            out@ == self.text(),
    {
        let mut out = String::new();
        match self {
            Self::UnsignedUserTx => out.append("unsigned user tx"),
            Self::ContractTx => out.append("contract tx"),
            Self::NonMutatingCall => out.append("non-mutating call"),
            Self::Batch => out.append("batch"),
            Self::SignedTx => out.append("signed tx"),
            Self::Heartbeat => out.append("heartbeat"),
            Self::SignedCompressedTx => out.append("signed compressed tx"),
            Self::Other(byte) => {
                out.append("unknown kind ");
                text::push_decimal(&mut out, *byte as u64);
            },
        }
        assert(out@ =~= self.text());
        out
    }
}

/// The inbox header the sequencer stamps on every message.
#[derive(Debug, Clone, Copy, PartialEq, Eq)]
pub struct MessageHeader {
    /// What kind of message this is.
    pub kind: MessageKind,
    /// Who posted it. For sequencer-produced messages this is the well-known
    /// address `0xa4b0...73657175656e636572` — "sequencer" in ASCII.
    pub sender: Address,
    /// The L1 block the sequencer was tracking when it built this message.
    pub l1_block_number: u64,
    /// The sequencer's timestamp, in seconds. This becomes the L2 block's
    /// timestamp, so it is a claim by the sequencer, not a local measurement.
    ///
    /// Comparing it against the local clock is the only way to notice that the
    /// relay has fallen behind the chain — but not by subtracting directly.
    /// The field is seconds, and this chain produces ten blocks in each of
    /// them, so `now - timestamp` is a sawtooth that says nothing on its own.
    /// Take the **minimum over a rolling window** of a second or two instead:
    /// the block that lands just after a second boundary is unquantised, so
    /// the minimum is the real lag, to about the block spacing.
    pub timestamp: u64,
    /// Request id, set only for messages that originate on L1.
    pub request_id: Option<B256>,
    /// The L1 base fee the sequencer recorded, in wei.
    pub l1_base_fee: u128,
}

/// One sequenced message, parsed.
#[derive(Debug, Clone)]
pub struct FeedMessage {
    /// Position in the sequencer's total order. Strictly increasing across
    /// everything a client hands back.
    pub sequence_number: u64,
    /// How many sequence numbers were skipped immediately before this one.
    ///
    /// Zero in steady state, and zero across a reconnect that completes
    /// inside the relay's backlog. Non-zero when an outage outlasted it, and
    /// then what passed during the outage can only be fetched from an RPC
    /// node.
    pub missed_before: u64,
    /// Hash of the L2 block this message produced, as the sequencer computed
    /// it — available here before any node will serve it.
    pub block_hash: Option<B256>,
    /// How many delayed (L1) inbox messages had been consumed at this point.
    pub delayed_messages_read: u64,
    /// The inbox header.
    pub header: MessageHeader,
    /// The raw L2 payload, base64-decoded. Kept so nothing is lost when a
    /// message holds something this crate does not decode.
    pub l2_msg: Bytes,
    /// The signed transactions this message carries, in sequencer order.
    ///
    /// These are the user transactions, which is not quite the block. Nitro
    /// prepends an `ArbitrumInternalTx` (type `0x6a`) to every block to carry
    /// the L1 block number and pricing updates, and that transaction is not
    /// broadcast here. So a node reports exactly one more transaction for the
    /// block than this holds.
    pub transactions: Vec<Transaction>,
    /// Set when the payload did not fully decode. `transactions` then holds
    /// everything that decoded.
    pub parse_error: Option<ParseError>,
    /// When the frame carrying this message finished arriving, stamped at the
    /// socket before any parsing.
    pub received_at: Instant,
}

/// A message with its transactions as numbers and byte strings.
#[verifier::ext_equal]
pub struct FeedMessageView {
    pub sequence_number: u64,
    pub missed_before: u64,
    pub block_hash: Option<B256>,
    pub delayed_messages_read: u64,
    pub header: MessageHeader,
    pub l2_msg: Seq<u8>,
    pub transactions: Seq<TransactionView>,
    pub parse_error: Option<ParseError>,
    /// Nanoseconds on the clock the arrival was stamped with.
    pub received_at: nat,
}

/// Transactions as numbers and byte strings.
pub open spec fn transaction_views(transactions: Seq<Transaction>) -> Seq<TransactionView> {
    transactions.map_values(|tx: Transaction| tx@)
}

impl View for FeedMessage {
    type V = FeedMessageView;

    open spec fn view(&self) -> FeedMessageView {
        FeedMessageView {
            sequence_number: self.sequence_number,
            missed_before: self.missed_before,
            block_hash: self.block_hash,
            delayed_messages_read: self.delayed_messages_read,
            header: self.header,
            l2_msg: self.l2_msg@,
            transactions: transaction_views(self.transactions@),
            parse_error: self.parse_error,
            received_at: self.received_at@,
        }
    }
}

/// What walking a payload gives: the transactions that decoded, and the first
/// failure if there was one.
#[verifier::ext_equal]
pub struct Walked {
    pub transactions: Seq<TransactionView>,
    pub error: Option<ParseError>,
}

impl Walked {
    /// Nothing decoded and nothing failed.
    pub open spec fn nothing() -> Self {
        Walked { transactions: Seq::empty(), error: None }
    }

    /// Nothing but a failure.
    pub open spec fn failure(error: ParseError) -> Self {
        Walked { transactions: Seq::empty(), error: Some(error) }
    }

    /// One part behind the other. The first failure is kept: later ones are
    /// almost always consequences.
    pub open spec fn and(self, next: Self) -> Self {
        Walked {
            transactions: self.transactions + next.transactions,
            error: if self.error is Some {
                self.error
            } else {
                next.error
            },
        }
    }
}

/// What an L2 message holds: a batch of messages, or a transaction, or
/// something that is not decoded.
pub open spec fn walk(payload: Seq<u8>, depth: nat) -> Walked
    decreases payload.len(),
{
    if depth > MAX_BATCH_DEPTH {
        Walked::failure(ParseError::NestingTooDeep)
    } else if payload.len() == 0 {
        Walked::failure(ParseError::Empty)
    } else {
        let body = payload.skip(1);
        match l2_message_kind(payload[0]) {
            L2MessageKind::Batch => walk_batch(body, depth),
            L2MessageKind::SignedTx => match tx::read_transaction(body) {
                Ok(tx) => Walked { transactions: seq![tx], error: None },
                Err(e) => Walked::failure(ParseError::Tx(e)),
            },
            other => Walked::failure(ParseError::UnhandledKind(other)),
        }
    }
}

/// What a batch holds. It is `[u64 big-endian length][that many bytes]`
/// repeated; an entry that runs past the end stops the walk, and one that
/// fails does not.
pub open spec fn walk_batch(rest: Seq<u8>, depth: nat) -> Walked
    decreases rest.len(),
{
    if rest.len() == 0 {
        Walked::nothing()
    } else if rest.len() < 8 {
        Walked::failure(ParseError::TruncatedBatch)
    } else {
        let len = num::be_value(rest.take(8));
        if rest.len() < 8 + len {
            Walked::failure(ParseError::TruncatedBatch)
        } else {
            walk(rest.subrange(8, 8 + len as int), depth + 1).and(
                walk_batch(rest.skip(8 + len as int), depth),
            )
        }
    }
}

/// Whether a byte is what ASCII calls white space.
pub open spec fn is_white(byte: u8) -> bool {
    byte == 0x20 || byte == 0x09 || byte == 0x0a || byte == 0x0c || byte == 0x0d
}

/// The first byte that is not white space.
pub open spec fn first_visible(frame: Seq<u8>) -> Option<u8>
    decreases frame.len(),
{
    if frame.len() == 0 {
        None
    } else if !is_white(frame[0]) {
        Some(frame[0])
    } else {
        first_visible(frame.skip(1))
    }
}

/// The payload of a message: none is an empty one, and `None` is text that is
/// no base64.
pub open spec fn payload_of(l2_msg: Option<String>) -> Option<Seq<u8>> {
    match l2_msg {
        None => Some(Seq::empty()),
        Some(encoded) => b64::base64_bytes(encoded@),
    }
}

/// What is decoded of a payload. Only an L2 message has the structure of
/// batches and signed transactions.
pub open spec fn decoded(kind: MessageKind, payload: Option<Seq<u8>>) -> Walked {
    match payload {
        None => Walked::failure(ParseError::Base64),
        Some(payload) => if kind == MessageKind::L2Message && payload.len() > 0 {
            walk(payload, 0)
        } else {
            Walked::nothing()
        },
    }
}

/// What a subscriber receives for what the relay sent.
pub open spec fn message_of(msg: BroadcastFeedMessage, received_at: nat) -> FeedMessageView {
    let header = msg.message.message.header;
    let kind = message_kind(header.kind);
    let payload = payload_of(msg.message.message.l2_msg);
    let walked = decoded(kind, payload);
    FeedMessageView {
        sequence_number: msg.sequence_number,
        missed_before: 0,
        block_hash: msg.block_hash,
        delayed_messages_read: msg.message.delayed_messages_read,
        header: MessageHeader {
            kind,
            sender: header.sender,
            l1_block_number: header.block_number,
            timestamp: header.timestamp,
            request_id: header.request_id,
            l1_base_fee: header.base_fee_l1,
        },
        l2_msg: match payload {
            Some(payload) => payload,
            None => Seq::empty(),
        },
        transactions: walked.transactions,
        parse_error: walked.error,
        received_at,
    }
}

/// What a subscriber receives for what a frame carries.
pub open spec fn messages_of(broadcast: BroadcastMessage, received_at: nat) -> Seq<
    FeedMessageView,
> {
    match broadcast.messages {
        Some(messages) => messages@.map_values(
            |msg: BroadcastFeedMessage| message_of(msg, received_at),
        ),
        None => Seq::empty(),
    }
}

/// Messages with their transactions as numbers and byte strings.
pub open spec fn message_views(messages: Seq<FeedMessage>) -> Seq<FeedMessageView> {
    messages.map_values(|message: FeedMessage| message@)
}

/// Whether the first byte that is not white space opens a JSON object.
fn opens_object(frame: &[u8]) -> (out: bool)
    ensures
        out <==> first_visible(frame@) == Some(OPEN_BRACE),
{
    let mut i: usize = 0;
    assert(frame@.skip(0) =~= frame@);
    while i < frame.len()
        invariant
            i <= frame@.len(),
            first_visible(frame@) == first_visible(frame@.skip(i as int)),
        decreases frame@.len() - i,
    {
        let byte = frame[i];
        assert(frame@.skip(i as int)[0] == byte);
        if !(byte == 0x20 || byte == 0x09 || byte == 0x0a || byte == 0x0c || byte == 0x0d) {
            return byte == OPEN_BRACE;
        }
        assert(frame@.skip(i as int).skip(1) =~= frame@.skip(i + 1));
        i += 1;
    }
    false
}

impl FeedMessage {
    /// Turn one raw broadcast frame into the messages it carries, given what
    /// reading it as JSON came to.
    ///
    /// A frame usually holds exactly one message. Frames that carry only a
    /// confirmed-sequence-number update yield an empty vector.
    ///
    /// Per-message payload failures do not fail the frame; they land in
    /// [`FeedMessage::parse_error`].
    ///
    /// # Errors
    ///
    /// Returns [`ParseError::Json`] if the frame is not a well-formed
    /// broadcast envelope.
    pub fn parse_frame(
        frame: &[u8],
        broadcast: Result<BroadcastMessage, String>,
        received_at: Instant,
    ) -> (out: Result<Vec<Self>, ParseError>)
        ensures
            if first_visible(frame@) != Some(OPEN_BRACE) {
                out matches Err(ParseError::Json(reason)) && reason@
                    == "a broadcast frame must be a JSON object"@
            } else {
                match broadcast {
                    Err(why) => out matches Err(ParseError::Json(reason)) && reason@ == why@,
                    Ok(broadcast) => out matches Ok(messages) && message_views(messages@)
                        == messages_of(broadcast, received_at@),
                }
            },
    {
        // A broadcast is a JSON object. A sequence would otherwise read as a
        // struct whose fields all fall back to their defaults, turning any
        // JSON array into a frame that simply carried no messages.
        if !opens_object(frame) {
            return Err(ParseError::Json("a broadcast frame must be a JSON object".to_owned()));
        }
        let broadcast = match broadcast {
            Ok(broadcast) => broadcast,
            Err(reason) => {
                return Err(ParseError::Json(reason));
            },
        };
        let mut out: Vec<Self> = Vec::new();
        if let Some(messages) = broadcast.messages {
            for msg in iter: messages.into_iter()
                invariant
                    iter.seq() == messages@,
                    out@.len() == iter.index(),
                    forall|i: int|
                        0 <= i < out@.len() ==> (#[trigger] out@[i])@ == message_of(
                            iter.seq()[i],
                            received_at@,
                        ),
            {
                out.push(Self::from_wire(msg, received_at));
            }
            assert(message_views(out@) =~= messages_of(broadcast, received_at@));
        }
        assert(message_views(out@) =~= messages_of(broadcast, received_at@));
        Ok(out)
    }

    /// Turn one sequenced message into what a subscriber receives.
    pub fn from_wire(msg: BroadcastFeedMessage, received_at: Instant) -> (out: Self)
        ensures
            out@ == message_of(msg, received_at@),
    {
        let header = msg.message.message.header;
        let mut parsed = Parsed::new();

        let l2_msg: Vec<u8> = match msg.message.message.l2_msg {
            None => Vec::new(),
            Some(encoded) => match b64::decode(encoded.as_str()) {
                Some(payload) => payload,
                None => {
                    parsed.fail(ParseError::Base64);
                    Vec::new()
                },
            },
        };

        // Only kind 3 carries the batch/signed-tx structure. Other kinds keep
        // their payload verbatim rather than being forced through a parser
        // that was never meant for them.
        let kind = MessageKind::from_byte(header.kind);
        if kind == MessageKind::L2Message && parsed.error.is_none() && l2_msg.len() > 0 {
            parsed.walk(l2_msg.as_slice(), 0);
        }

        Self {
            sequence_number: msg.sequence_number,
            missed_before: 0,
            block_hash: msg.block_hash,
            delayed_messages_read: msg.message.delayed_messages_read,
            header: MessageHeader {
                kind,
                sender: header.sender,
                l1_block_number: header.block_number,
                timestamp: header.timestamp,
                request_id: header.request_id,
                l1_base_fee: header.base_fee_l1,
            },
            l2_msg: Bytes(l2_msg),
            transactions: parsed.transactions,
            parse_error: parsed.error,
            received_at,
        }
    }
}

/// Accumulates transactions while walking a possibly nested L2 message.
pub struct Parsed {
    pub transactions: Vec<Transaction>,
    pub error: Option<ParseError>,
}

impl View for Parsed {
    type V = Walked;

    open spec fn view(&self) -> Walked {
        Walked { transactions: transaction_views(self.transactions@), error: self.error }
    }
}

impl Parsed {
    /// Nothing decoded yet.
    pub fn new() -> (out: Self)
        ensures
            out@ == Walked::nothing(),
    {
        let out = Self { transactions: Vec::new(), error: None };
        assert(out@ =~= Walked::nothing());
        out
    }

    /// Keep the first failure; later ones are almost always consequences.
    fn fail(&mut self, error: ParseError)
        ensures
            final(self)@ == old(self)@.and(Walked::failure(error)),
    {
        if self.error.is_none() {
            self.error = Some(error);
        }
        assert(self@ =~= old(self)@.and(Walked::failure(error)));
    }

    /// Walk one L2 message.
    pub fn walk(&mut self, payload: &[u8], depth: usize)
        ensures
            final(self)@ == old(self)@.and(walk(payload@, depth as nat)),
        decreases payload@.len(),
    {
        if depth > MAX_BATCH_DEPTH {
            self.fail(ParseError::NestingTooDeep);
            return;
        }
        if payload.len() == 0 {
            self.fail(ParseError::Empty);
            return;
        }
        let body = slice_subrange(payload, 1, payload.len());
        assert(body@ =~= payload@.skip(1));
        match L2MessageKind::from_byte(payload[0]) {
            L2MessageKind::Batch => self.walk_batch(body, depth),
            L2MessageKind::SignedTx => match Transaction::decode(body) {
                Ok(tx) => {
                    self.transactions.push(tx);
                    assert(self@ =~= old(self)@.and(walk(payload@, depth as nat)));
                },
                Err(e) => self.fail(ParseError::from(e)),
            },
            // Anything else is left in `l2_msg` for the caller to deal with.
            other => self.fail(ParseError::UnhandledKind(other)),
        }
    }

    /// A batch is `[u64 big-endian length][that many bytes]` repeated.
    fn walk_batch(&mut self, batch: &[u8], depth: usize)
        requires
            depth <= MAX_BATCH_DEPTH,
        ensures
            final(self)@ == old(self)@.and(walk_batch(batch@, depth as nat)),
        decreases batch@.len(),
    {
        let mut at: usize = 0;
        let ghost before = self@;
        assert(batch@.skip(0) =~= batch@);
        assert(self@ =~= self@.and(Walked::nothing()));
        let ghost mut done = Walked::nothing();
        while at < batch.len()
            invariant
                depth <= MAX_BATCH_DEPTH,
                at <= batch@.len(),
                before == old(self)@,
                self@ == before.and(done),
                walk_batch(batch@, depth as nat) == done.and(
                    walk_batch(batch@.skip(at as int), depth as nat),
                ),
            decreases batch@.len() - at,
        {
            let rest = slice_subrange(batch, at, batch.len());
            assert(rest@ =~= batch@.skip(at as int));
            if rest.len() < 8 {
                self.fail(ParseError::TruncatedBatch);
                return;
            }
            let len_bytes = slice_subrange(rest, 0, 8);
            assert(len_bytes@ =~= rest@.take(8));
            let len: u128 = read_be(len_bytes);
            if len > (rest.len() - 8) as u128 {
                self.fail(ParseError::TruncatedBatch);
                return;
            }
            let len: usize = len as usize;
            let entry = slice_subrange(rest, 8, 8 + len);
            // One bad entry must not cost the caller the rest of the block, so
            // the failure is recorded and the walk continues.
            self.walk(entry, depth + 1);
            at = at + 8 + len;
            proof {
                let one = walk(entry@, depth as nat + 1);
                assert(entry@ =~= rest@.subrange(8, 8 + len as int));
                assert(batch@.skip(at as int) =~= rest@.skip(8 + len as int));
                let tail = walk_batch(batch@.skip(at as int), depth as nat);
                assert(done.and(one.and(tail)) =~= done.and(one).and(tail));
                assert(before.and(done).and(one) =~= before.and(done.and(one)));
                done = done.and(one);
            }
        }
        assert(batch@.skip(at as int) =~= Seq::empty());
        assert(done.and(Walked::nothing()) =~= done);
    }
}

/// A batch of messages: each behind its length in eight bytes.
pub open spec fn batch_of(entries: Seq<Seq<u8>>) -> Seq<u8>
    decreases entries.len(),
{
    if entries.len() == 0 {
        Seq::empty()
    } else {
        num::be_fixed(entries[0].len(), 8) + entries[0] + batch_of(entries.drop_first())
    }
}

/// What messages hold, one after the other.
pub open spec fn walk_all(entries: Seq<Seq<u8>>, depth: nat) -> Walked
    decreases entries.len(),
{
    if entries.len() == 0 {
        Walked::nothing()
    } else {
        walk(entries[0], depth).and(walk_all(entries.drop_first(), depth))
    }
}

/// A batch holds what its entries hold, all of them and in order, whichever of
/// them fail.
pub proof fn batch_walks_every_entry(entries: Seq<Seq<u8>>, depth: nat)
    requires
        forall|i: int| 0 <= i < entries.len() ==> (#[trigger] entries[i]).len() < num::pow256(8),
    ensures
        walk_batch(batch_of(entries), depth) == walk_all(entries, depth + 1),
    decreases entries.len(),
{
    if entries.len() > 0 {
        let entry = entries[0];
        let tail = entries.drop_first();
        let prefix = num::be_fixed(entry.len(), 8);
        let batch = batch_of(entries);
        num::lemma_be_fixed(entry.len(), 8);
        assert(batch.take(8) =~= prefix);
        assert(batch.subrange(8, 8 + entry.len() as int) =~= entry);
        assert(batch.skip(8 + entry.len() as int) =~= batch_of(tail));
        batch_walks_every_entry(tail, depth);
    }
}

/// Entries do not disturb each other: what some hold and what others hold is
/// what all of them hold, so a bad one costs nothing but itself.
pub proof fn entries_are_independent(first: Seq<Seq<u8>>, second: Seq<Seq<u8>>, depth: nat)
    ensures
        walk_all(first + second, depth) == walk_all(first, depth).and(walk_all(second, depth)),
    decreases first.len(),
{
    let both = first + second;
    if first.len() == 0 {
        assert(both =~= second);
        let rest = walk_all(second, depth);
        assert(Walked::nothing().and(rest) =~= rest);
    } else {
        assert(both.drop_first() =~= first.drop_first() + second);
        entries_are_independent(first.drop_first(), second, depth);
        let a = walk(first[0], depth);
        let b = walk_all(first.drop_first(), depth);
        let c = walk_all(second, depth);
        assert(a.and(b).and(c) =~= a.and(b.and(c)));
    }
}

/// Signed transactions as entries of a batch.
pub open spec fn signed_entries(raws: Seq<Seq<u8>>) -> Seq<Seq<u8>> {
    raws.map_values(|raw: Seq<u8>| seq![4u8] + raw)
}

/// A batch of signed transactions that all decode comes out as those
/// transactions, in that order, without an error.
pub proof fn block_comes_out_in_order(raws: Seq<Seq<u8>>)
    requires
        forall|i: int|
            0 <= i < raws.len() ==> (#[trigger] raws[i]).len() + 1 < num::pow256(8)
                && tx::read_transaction(raws[i]) is Ok,
    ensures
        ({
            let walked = walk(seq![3u8] + batch_of(signed_entries(raws)), 0);
            &&& walked.error is None
            &&& walked.transactions.len() == raws.len()
            &&& forall|i: int|
                0 <= i < raws.len() ==> #[trigger] walked.transactions[i] == tx::read_transaction(
                    raws[i],
                )->Ok_0
        }),
{
    let batch = batch_of(signed_entries(raws));
    let payload = seq![3u8] + batch;
    assert(payload.skip(1) =~= batch);
    batch_walks_every_entry(signed_entries(raws), 0);
    lemma_signed_entries(raws, 1);
}

proof fn lemma_signed_entries(raws: Seq<Seq<u8>>, depth: nat)
    requires
        depth <= MAX_BATCH_DEPTH,
        forall|i: int| 0 <= i < raws.len() ==> tx::read_transaction(#[trigger] raws[i]) is Ok,
    ensures
        ({
            let walked = walk_all(signed_entries(raws), depth);
            &&& walked.error is None
            &&& walked.transactions.len() == raws.len()
            &&& forall|i: int|
                0 <= i < raws.len() ==> #[trigger] walked.transactions[i] == tx::read_transaction(
                    raws[i],
                )->Ok_0
        }),
    decreases raws.len(),
{
    if raws.len() > 0 {
        let entries = signed_entries(raws);
        let tail = raws.drop_first();
        assert(entries.drop_first() =~= signed_entries(tail));
        assert(entries[0].skip(1) =~= raws[0]);
        lemma_signed_entries(tail, depth);
        let rest = walk_all(signed_entries(tail), depth);
        let walked = walk_all(entries, depth);
        assert forall|i: int| 0 <= i < raws.len() implies #[trigger] walked.transactions[i]
            == tx::read_transaction(raws[i])->Ok_0 by {
            if i > 0 {
                assert(walked.transactions[i] == rest.transactions[i - 1]);
                assert(tail[i - 1] == raws[i]);
            }
        }
    }
}

/// The payload a message carries reaches the subscriber whole, whatever kind
/// of message it is and whatever of it decodes.
pub proof fn payload_is_kept(msg: BroadcastFeedMessage, payload: Seq<u8>, received_at: nat)
    requires
        msg.message.message.l2_msg is Some,
        msg.message.message.l2_msg->Some_0@ == b64::base64_text(payload),
    ensures
        message_of(msg, received_at).l2_msg == payload,
{
    b64::base64_reads_back(payload);
}

/// Kinds have their numbers: every number that has a name stands for that kind
/// and no other does, and any other number is kept as it is.
pub proof fn message_kinds_have_their_numbers(byte: u8, kind: MessageKind)
    requires
        call_ensures(MessageKind::from_byte, (byte,), kind),
    ensures
        kind == MessageKind::L2Message <==> byte == 3,
        kind == MessageKind::EndOfBlock <==> byte == 6,
        kind == MessageKind::L2FundedByL1 <==> byte == 7,
        kind == MessageKind::RollupEvent <==> byte == 8,
        kind == MessageKind::SubmitRetryable <==> byte == 9,
        kind == MessageKind::BatchForGasEstimation <==> byte == 10,
        kind == MessageKind::Initialize <==> byte == 11,
        kind == MessageKind::EthDeposit <==> byte == 12,
        kind == MessageKind::BatchPostingReport <==> byte == 13,
        kind == MessageKind::Invalid <==> byte == 255,
        kind matches MessageKind::Other(given) ==> given == byte,
{
}

/// A kind and its byte stand for each other.
pub proof fn kinds_and_bytes_round_trip(byte: u8, kind: MessageKind, again: u8)
    requires
        call_ensures(MessageKind::from_byte, (byte,), kind),
        call_ensures(MessageKind::as_byte, (kind,), again),
    ensures
        again == byte,
{
}

/// The kinds that a message inside the payload can be have their numbers too.
pub proof fn l2_kinds_have_their_numbers(byte: u8, kind: L2MessageKind)
    requires
        call_ensures(L2MessageKind::from_byte, (byte,), kind),
    ensures
        kind == L2MessageKind::UnsignedUserTx <==> byte == 0,
        kind == L2MessageKind::ContractTx <==> byte == 1,
        kind == L2MessageKind::NonMutatingCall <==> byte == 2,
        kind == L2MessageKind::Batch <==> byte == 3,
        kind == L2MessageKind::SignedTx <==> byte == 4,
        kind == L2MessageKind::Heartbeat <==> byte == 6,
        kind == L2MessageKind::SignedCompressedTx <==> byte == 7,
        kind matches L2MessageKind::Other(given) ==> given == byte,
{
}

/// A message that is signed holds the transaction that its bytes are, and only
/// that; if they are none, it holds nothing but the reason.
pub proof fn signed_message_holds_its_transaction(raw: Seq<u8>, depth: nat)
    requires
        depth <= 16,
    ensures
        match tx::read_transaction(raw) {
            Ok(tx) => {
                &&& walk(seq![4u8] + raw, depth).transactions == seq![tx]
                &&& walk(seq![4u8] + raw, depth).error is None
            },
            Err(e) => {
                &&& walk(seq![4u8] + raw, depth).transactions.len() == 0
                &&& walk(seq![4u8] + raw, depth).error == Some(ParseError::Tx(e))
            },
        },
{
    assert((seq![4u8] + raw).skip(1) =~= raw);
}

/// What is neither a batch nor signed is not decoded, and said to be what it
/// is. An empty message is said to be empty.
pub proof fn other_messages_are_left_alone(byte: u8, body: Seq<u8>, depth: nat)
    requires
        depth <= 16,
        byte != 3,
        byte != 4,
    ensures
        walk(seq![byte] + body, depth).transactions.len() == 0,
        walk(seq![byte] + body, depth).error matches Some(ParseError::UnhandledKind(kind)) && {
            &&& kind == L2MessageKind::UnsignedUserTx <==> byte == 0
            &&& kind == L2MessageKind::ContractTx <==> byte == 1
            &&& kind == L2MessageKind::NonMutatingCall <==> byte == 2
            &&& kind == L2MessageKind::Heartbeat <==> byte == 6
            &&& kind == L2MessageKind::SignedCompressedTx <==> byte == 7
            &&& kind matches L2MessageKind::Other(given) ==> given == byte
        },
        walk(Seq::empty(), depth).transactions.len() == 0,
        walk(Seq::empty(), depth).error == Some(ParseError::Empty),
{
}

/// Nothing is decoded below sixteen batches, whatever it is.
pub proof fn nesting_has_an_end(payload: Seq<u8>, depth: nat)
    requires
        depth > 16,
    ensures
        walk(payload, depth).transactions.len() == 0,
        walk(payload, depth).error == Some(ParseError::NestingTooDeep),
{
}

/// The transactions that some entries of a batch hold, one after the other.
pub open spec fn held_by(entries: Seq<Seq<u8>>, depth: nat) -> Seq<Seq<TransactionView>> {
    entries.map_values(|entry: Seq<u8>| walk(entry, depth).transactions)
}

/// Whether a rest of a batch is one that no entry can be read from: shorter
/// than a length, or than the length says.
pub open spec fn is_cut_short(rest: Seq<u8>) -> bool {
    rest.len() > 0 && (rest.len() < 8 || rest.len() - 8 < num::be_value(rest.take(8)))
}

/// A batch holds the transactions of all its entries, in their order, however
/// many there are and whichever of them fail. What fails first is what is said
/// of it; a rest that is cut short fails last, and costs nothing but itself.
pub proof fn batch_holds_all_its_entries(entries: Seq<Seq<u8>>, rest: Seq<u8>, depth: nat)
    requires
        depth <= 16,
        forall|i: int|
            0 <= i < entries.len() ==> (#[trigger] entries[i]).len() < 0x1_0000_0000_0000_0000,
        rest.len() == 0 || is_cut_short(rest),
    ensures
        ({
            let walked = walk(seq![3u8] + batch_of(entries) + rest, depth);
            &&& walked.transactions == held_by(entries, depth + 1).flatten()
            &&& (forall|i: int|
                0 <= i < entries.len() ==> walk(#[trigger] entries[i], depth + 1).error is None)
                ==> walked.error == if rest.len() == 0 {
                None
            } else {
                Some(ParseError::TruncatedBatch)
            }
            &&& forall|bad: int|
                0 <= bad < entries.len() && walk(#[trigger] entries[bad], depth + 1).error is Some
                    && (forall|i: int|
                    0 <= i < bad ==> walk(#[trigger] entries[i], depth + 1).error is None)
                    ==> walked.error == walk(entries[bad], depth + 1).error
        }),
{
    let payload = seq![3u8] + batch_of(entries) + rest;
    assert(payload.skip(1) =~= batch_of(entries) + rest);
    assert(payload[0] == 3);
    num::lemma_pow256_values();
    lemma_batch_holds(entries, rest, depth);
}

proof fn lemma_batch_holds(entries: Seq<Seq<u8>>, rest: Seq<u8>, depth: nat)
    requires
        forall|i: int| 0 <= i < entries.len() ==> (#[trigger] entries[i]).len() < num::pow256(8),
        rest.len() == 0 || is_cut_short(rest),
    ensures
        ({
            let walked = walk_batch(batch_of(entries) + rest, depth);
            &&& walked.transactions == held_by(entries, depth + 1).flatten()
            &&& (forall|i: int|
                0 <= i < entries.len() ==> walk(#[trigger] entries[i], depth + 1).error is None)
                ==> walked.error == if rest.len() == 0 {
                None
            } else {
                Some(ParseError::TruncatedBatch)
            }
            &&& forall|bad: int|
                0 <= bad < entries.len() && walk(#[trigger] entries[bad], depth + 1).error is Some
                    && (forall|i: int|
                    0 <= i < bad ==> walk(#[trigger] entries[i], depth + 1).error is None)
                    ==> walked.error == walk(entries[bad], depth + 1).error
        }),
    decreases entries.len(),
{
    if entries.len() == 0 {
        assert(batch_of(entries) + rest =~= rest);
        assert(held_by(entries, depth + 1).flatten() =~= Seq::empty());
    } else {
        let entry = entries[0];
        let tail = entries.drop_first();
        let prefix = num::be_fixed(entry.len(), 8);
        let batch = batch_of(entries) + rest;
        num::lemma_be_fixed(entry.len(), 8);
        assert(batch.take(8) =~= prefix);
        assert(batch.subrange(8, 8 + entry.len() as int) =~= entry);
        assert(batch.skip(8 + entry.len() as int) =~= batch_of(tail) + rest);
        assert forall|i: int| 0 <= i < tail.len() implies (#[trigger] tail[i]).len()
            < num::pow256(8) by {
            assert(tail[i] == entries[i + 1]);
        }
        lemma_batch_holds(tail, rest, depth);
        let walked = walk_batch(batch, depth);
        let first = walk(entry, depth + 1);
        let others = walk_batch(batch_of(tail) + rest, depth);
        assert(walked == first.and(others));
        let held = held_by(entries, depth + 1);
        assert(held.drop_first() =~= held_by(tail, depth + 1));
        assert(held.first() == first.transactions);
        assert(walked.transactions =~= held.flatten());
        if forall|i: int|
            0 <= i < entries.len() ==> walk(#[trigger] entries[i], depth + 1).error is None {
            assert forall|i: int| 0 <= i < tail.len() implies walk(
                #[trigger] tail[i],
                depth + 1,
            ).error is None by {
                assert(tail[i] == entries[i + 1]);
            }
            assert(walk(entries[0], depth + 1).error is None);
        }
        assert forall|bad: int|
            0 <= bad < entries.len() && walk(#[trigger] entries[bad], depth + 1).error is Some && (
            forall|i: int|
                0 <= i < bad ==> walk(#[trigger] entries[i], depth + 1).error
                    is None) implies walked.error == walk(entries[bad], depth + 1).error by {
            if bad > 0 {
                assert(walk(entries[0], depth + 1).error is None);
                assert(tail[bad - 1] == entries[bad]);
                assert forall|i: int| 0 <= i < bad - 1 implies walk(
                    #[trigger] tail[i],
                    depth + 1,
                ).error is None by {
                    assert(tail[i] == entries[i + 1]);
                }
            }
        }
    }
}

/// What the relay says of a message reaches the subscriber as it is, and when
/// it arrived with it. Nothing is said to have been missed yet.
pub proof fn header_is_kept(
    msg: BroadcastFeedMessage,
    received_at: Instant,
    out: FeedMessage,
    kind: MessageKind,
)
    requires
        call_ensures(FeedMessage::from_wire, (msg, received_at), out),
        call_ensures(MessageKind::from_byte, (msg.message.message.header.kind,), kind),
    ensures
        out.sequence_number == msg.sequence_number,
        out.missed_before == 0,
        out.block_hash == msg.block_hash,
        out.delayed_messages_read == msg.message.delayed_messages_read,
        out.received_at@ == received_at@,
        out.header.kind == kind,
        out.header.sender == msg.message.message.header.sender,
        out.header.l1_block_number == msg.message.message.header.block_number,
        out.header.timestamp == msg.message.message.header.timestamp,
        out.header.request_id == msg.message.message.header.request_id,
        out.header.l1_base_fee == msg.message.message.header.base_fee_l1,
{
    assert(out@ == message_of(msg, received_at@));
}

/// Whether a message carries `payload`: its text is the base64 of it, or it has
/// no text and the payload is empty.
pub open spec fn carries(msg: BroadcastFeedMessage, payload: Seq<u8>) -> bool {
    match msg.message.message.l2_msg {
        Some(text) => text@ == b64::base64_text(payload),
        None => payload.len() == 0,
    }
}

/// The payload reaches the subscriber whole. Of a message of kind 3 that has
/// one, the transactions and the failure are those of walking all of it,
/// whatever its size. Nothing is decoded of any other, and that is no failure.
pub proof fn payload_is_walked(
    msg: BroadcastFeedMessage,
    received_at: Instant,
    out: FeedMessage,
    payload: Seq<u8>,
)
    requires
        call_ensures(FeedMessage::from_wire, (msg, received_at), out),
        carries(msg, payload),
    ensures
        out.l2_msg@ == payload,
        msg.message.message.header.kind == 3 && payload.len() > 0 ==> {
            &&& transaction_views(out.transactions@) == walk(payload, 0).transactions
            &&& out.parse_error == walk(payload, 0).error
        },
        msg.message.message.header.kind != 3 || payload.len() == 0 ==> out.transactions@.len() == 0
            && out.parse_error is None,
{
    assert(out@ == message_of(msg, received_at@));
    assert(out@.transactions.len() == out.transactions@.len());
    match msg.message.message.l2_msg {
        Some(text) => {
            b64::base64_reads_back(payload);
        },
        None => {
            assert(payload =~= Seq::empty());
        },
    }
}

/// A text that is the base64 of nothing is a failure of its own, on a message of
/// any kind, and leaves no payload and no transactions.
pub proof fn bad_text_is_a_failure(
    msg: BroadcastFeedMessage,
    received_at: Instant,
    out: FeedMessage,
)
    requires
        call_ensures(FeedMessage::from_wire, (msg, received_at), out),
        forall|payload: Seq<u8>| !#[trigger] carries(msg, payload),
    ensures
        out.parse_error == Some(ParseError::Base64),
        out.transactions@.len() == 0,
        out.l2_msg@.len() == 0,
{
    assert(out@ == message_of(msg, received_at@));
    assert(out@.transactions.len() == out.transactions@.len());
    match msg.message.message.l2_msg {
        Some(text) => {
            assert forall|data: Seq<u8>| #[trigger] b64::base64_text(data) != text@ by {
                assert(!carries(msg, data));
            }
        },
        None => {
            assert(carries(msg, Seq::empty()));
        },
    }
}

/// What a subscriber receives for a message of kind 3 whose payload is a batch
/// of signed transactions that all decode is exactly those transactions, in
/// that order and without a failure, however many there are and however long.
pub proof fn block_reaches_the_subscriber(
    msg: BroadcastFeedMessage,
    received_at: Instant,
    out: FeedMessage,
    raws: Seq<Seq<u8>>,
)
    requires
        call_ensures(FeedMessage::from_wire, (msg, received_at), out),
        msg.message.message.header.kind == 3,
        carries(msg, seq![3u8] + batch_of(signed_entries(raws))),
        forall|i: int|
            0 <= i < raws.len() ==> (#[trigger] raws[i]).len() + 1 < 0x1_0000_0000_0000_0000
                && tx::read_transaction(raws[i]) is Ok,
    ensures
        out.parse_error is None,
        out.transactions@.len() == raws.len(),
        forall|i: int|
            0 <= i < raws.len() ==> (#[trigger] out.transactions@[i])@ == tx::read_transaction(
                raws[i],
            )->Ok_0,
{
    let payload = seq![3u8] + batch_of(signed_entries(raws));
    num::lemma_pow256_values();
    payload_is_walked(msg, received_at, out, payload);
    block_comes_out_in_order(raws);
    let views = transaction_views(out.transactions@);
    assert forall|i: int| 0 <= i < raws.len() implies (#[trigger] out.transactions@[i])@
        == tx::read_transaction(raws[i])->Ok_0 by {
        assert(views[i] == out.transactions@[i]@);
    }
}

/// Walking a message adds what it holds to what was found before: its
/// transactions behind the others, and its failure only if there was none.
pub proof fn walks_add_up(parsed: &mut Parsed, payload: &[u8], depth: usize)
    requires
        call_ensures(Parsed::walk, (parsed, payload, depth), ()),
    ensures
        transaction_views(final(parsed).transactions@) == transaction_views(
            old(parsed).transactions@,
        ) + walk(payload@, depth as nat).transactions,
        final(parsed).error == if old(parsed).error is Some {
            old(parsed).error
        } else {
            walk(payload@, depth as nat).error
        },
{
    let after = final(parsed)@;
    let before = old(parsed)@;
    assert(after.transactions == transaction_views(final(parsed).transactions@));
    assert(before.transactions == transaction_views(old(parsed).transactions@));
}

/// Whether a byte is white space: blank, tab, line feed, form feed or carriage
/// return.
pub open spec fn is_blank(byte: u8) -> bool {
    byte == 32 || byte == 9 || byte == 10 || byte == 12 || byte == 13
}

/// A frame that is a JSON object, behind white space at most, is read: every
/// message in it comes out as it would alone, in order, and a frame without
/// any gives none. If it could not be read as JSON, the reason is kept.
pub proof fn objects_are_read(
    frame: &[u8],
    at: int,
    broadcast: Result<BroadcastMessage, String>,
    received_at: Instant,
    out: Result<Vec<FeedMessage>, ParseError>,
    i: int,
    alone: FeedMessage,
)
    requires
        call_ensures(FeedMessage::parse_frame, (frame, broadcast, received_at), out),
        0 <= at < frame@.len(),
        frame@[at] == 123,
        forall|i: int| 0 <= i < at ==> is_blank(#[trigger] frame@[i]),
    ensures
        match broadcast {
            Err(why) => out matches Err(ParseError::Json(reason)) && reason@ == why@,
            Ok(broadcast) => out matches Ok(messages) && match broadcast.messages {
                None => messages@.len() == 0,
                Some(sent) => messages@.len() == sent@.len() && (0 <= i < sent@.len()
                    && call_ensures(FeedMessage::from_wire, (sent@[i], received_at), alone)
                    ==> messages@[i]@ == alone@),
            },
        },
{
    lemma_first_visible(frame@, at);
    if let (Ok(broadcast), Ok(messages)) = (broadcast, out) {
        let views = message_views(messages@);
        assert(views == messages_of(broadcast, received_at@));
        assert(views.len() == messages@.len());
        if let Some(sent) = broadcast.messages {
            if 0 <= i < sent@.len() {
                assert(views[i] == messages@[i]@);
                assert(views[i] == message_of(sent@[i], received_at@));
            }
        }
    }
}

/// A frame that is anything but a JSON object is refused, whatever reading it
/// as JSON came to.
pub proof fn only_objects_are_read(
    frame: &[u8],
    at: int,
    broadcast: Result<BroadcastMessage, String>,
    received_at: Instant,
    out: Result<Vec<FeedMessage>, ParseError>,
)
    requires
        call_ensures(FeedMessage::parse_frame, (frame, broadcast, received_at), out),
        0 <= at <= frame@.len(),
        at < frame@.len() ==> frame@[at] != 123 && !is_blank(frame@[at]),
        forall|i: int| 0 <= i < at ==> is_blank(#[trigger] frame@[i]),
    ensures
        out matches Err(ParseError::Json(_)),
{
    if at < frame@.len() {
        lemma_first_visible(frame@, at);
    } else {
        lemma_none_visible(frame@);
    }
}

proof fn lemma_first_visible(frame: Seq<u8>, at: int)
    requires
        0 <= at < frame.len(),
        !is_blank(frame[at]),
        forall|i: int| 0 <= i < at ==> is_blank(#[trigger] frame[i]),
    ensures
        first_visible(frame) == Some(frame[at]),
    decreases at,
{
    if at > 0 {
        assert(is_blank(frame[0]));
        let rest = frame.skip(1);
        assert forall|i: int| 0 <= i < at - 1 implies is_blank(#[trigger] rest[i]) by {
            assert(rest[i] == frame[i + 1]);
        }
        lemma_first_visible(rest, at - 1);
    }
}

proof fn lemma_none_visible(frame: Seq<u8>)
    requires
        forall|i: int| 0 <= i < frame.len() ==> is_blank(#[trigger] frame[i]),
    ensures
        first_visible(frame) is None,
    decreases frame.len(),
{
    if frame.len() > 0 {
        assert(is_blank(frame[0]));
        let rest = frame.skip(1);
        assert forall|i: int| 0 <= i < rest.len() implies is_blank(#[trigger] rest[i]) by {
            assert(rest[i] == frame[i + 1]);
        }
        lemma_none_visible(rest);
    }
}

/// A kind without a name is said to be unknown, with its number in decimal, in
/// one form for all of them.
pub proof fn unknown_kinds_are_named_by_number(a: u8, said: String, b: u8, also: String)
    requires
        call_ensures(L2MessageKind::to_string, (&L2MessageKind::Other(a),), said),
        call_ensures(L2MessageKind::to_string, (&L2MessageKind::Other(b),), also),
    ensures
        text::same_form(
            said@,
            text::digits(a as nat, 10),
            Seq::empty(),
            also@,
            text::digits(b as nat, 10),
            Seq::empty(),
        ),
{
    let none = Seq::<char>::empty();
    let front = "unknown kind "@;
    let x = text::digits(a as nat, 10);
    let y = text::digits(b as nat, 10);
    text::lemma_same_form(front, none, none, x, none, y, none);
    assert(said@ =~= front + x + none + none + none);
    assert(also@ =~= front + y + none + none + none);
}

/// A message is looked at as it is, field by field.
pub proof fn messages_are_looked_at_as_they_are(message: FeedMessage)
    ensures
        message@.sequence_number == message.sequence_number,
        message@.missed_before == message.missed_before,
        message@.block_hash == message.block_hash,
        message@.delayed_messages_read == message.delayed_messages_read,
        message@.header == message.header,
        message@.l2_msg == message.l2_msg.0@,
        message@.transactions.len() == message.transactions@.len(),
        forall|i: int|
            0 <= i < message.transactions@.len() ==> #[trigger] message@.transactions[i]
                == message.transactions@[i]@,
        message@.parse_error == message.parse_error,
        message@.received_at == message.received_at@,
{
}

} // verus!
