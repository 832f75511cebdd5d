//! A subscriber for the Robinhood chain sequencer feed.
//!
//! The sequencer broadcasts every message it orders over a websocket relay, in
//! Arbitrum Nitro's standard feed format. The broadcast happens at the moment
//! of ordering, before the block is executed, which is why reading it directly
//! is the earliest a transaction can be seen off-chain.
//!
//! This crate is everything such a subscriber decides and computes, with
//! contracts that Verus proves. It opens no socket, reads no clock and spawns
//! no task: whoever does says what happened, and is told what to do next.
//!
//! # What arrives
//!
//! Each frame is JSON wrapping a base64 payload, and that payload has three
//! layers worth knowing about:
//!
//! 1. A **broadcast message** with the sequence number, the inbox header the
//!    sequencer stamped, and the hash of the block this will become.
//! 2. An **L2 message**, almost always a *batch*: a length-prefixed sequence
//!    of nested L2 messages.
//! 3. The leaves, each a **signed transaction** in EIP-2718 form.
//!
//! [`FeedMessage::parse_frame`] walks all three and hands back
//! [`FeedMessage`]s with the transactions already decoded, their hashes
//! computed locally.
//!
//! # Reconnecting
//!
//! The relay keeps a backlog and replays it to every new subscriber. A
//! reconnect that completes inside it loses nothing; one that takes longer
//! leaves a hole that only an RPC node can fill. That makes deduplication
//! load-bearing rather than a nicety — every reconnect delivers hundreds of
//! messages the caller has already seen, and they are dropped by the
//! [`merge`]. What does get through is the hole, if there was one: the first
//! message after it carries a non-zero
//! [`missed_before`](FeedMessage::missed_before).
//!
//! # What the feed does not promise
//!
//! Frames carry a `signatureV2` from the sequencer's key, which this crate
//! does not check. Everything the feed says is a claim until a node confirms
//! it — including the block hash, which is what the sequencer *intends* to
//! produce.
//!
//! # Design
//!
//! * **Ordering and deduplication are central.** Messages come out in strict
//!   sequence order with no repeats, no matter how many sockets or relays feed
//!   them, or how often those reconnect into the middle of a replayed backlog.
//!   [`stream`] states this of every run of the merge.
//! * **A gap is given a moment to fill before it is called one.** A message
//!   arriving ahead of the expected sequence number means the endpoint that
//!   sent it is missing what comes between, and another endpoint may still
//!   have it. So the merge holds the gap open for
//!   [`gap_grace`](ClientBuilder::gap_grace), 250ms by default, and closes it
//!   early the moment another endpoint fills it. A contiguous stream is never
//!   held, so this costs latency only where there was already a hole.
//! * **The losers are measured, not discarded.** A copy that arrives after the
//!   race is decided says how far behind its relay was, once per message:
//!   [`timing`] states that of every run of the merge. [`endpoint`] keeps the
//!   distribution, [`histogram`] says how close its percentiles are, and
//!   [`history`] what the figures say of everything that happened.
//! * **Parsing is strict, but a bad message is not fatal.** Non-canonical RLP
//!   is rejected, because accepting it would produce a transaction whose hash
//!   is not its hash; [`canonical`] states what that buys. A payload that fails
//!   anyway is still delivered, with whatever decoded, the failure in
//!   [`parse_error`](FeedMessage::parse_error), and the raw bytes intact.
//! * **Connections are supervised.** A dropped socket is redialled with
//!   exponential backoff; [`conn`] decides when.
//!
//! # Senders
//!
//! A transaction carries no sender, only a signature that a secp256k1
//! recovery turns into one: [`Transaction::recover_sender`].

pub mod b64;
pub mod canonical;
pub mod client;
pub mod config;
pub mod conn;
pub mod endpoint;
pub mod error;
pub mod feed;
pub mod held;
pub mod hex;
pub mod histogram;
pub mod history;
pub mod keccak;
pub mod merge;
pub mod num;
pub mod output;
pub mod recover;
pub mod rlp;
pub mod stream;
pub mod text;
pub mod time;
pub mod timing;
pub mod tx;
pub mod types;
pub mod wire;

pub use client::ClientBuilder;
pub use config::{MAINNET_CHAIN_ID, MAINNET_FEED_URL, TESTNET_CHAIN_ID, TESTNET_FEED_URL};
pub use endpoint::{Endpoint, EndpointStats, Lateness};
pub use error::{Error, ParseError};
pub use feed::{FeedMessage, L2MessageKind, MessageHeader, MessageKind};
pub use rlp::RlpError;
pub use tx::{AccessListItem, Authorization, Signature, Transaction, TxError, TxType};
pub use types::{Address, Bytes, B256, U256};
