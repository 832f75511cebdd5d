//! Decoding the transactions the feed carries.
//!
//! Everything the sequencer broadcasts as a signed transaction is an EIP-2718
//! envelope: a legacy RLP list, or a type byte followed by one. This module
//! turns those bytes into fields, and computes both the transaction hash and
//! the hash that was signed.

use vstd::prelude::*;
use vstd::slice::{slice_subrange, slice_to_vec};
use vstd::string::*;

use crate::hex;
use crate::keccak;
use crate::keccak::keccak;
use crate::num;
use crate::rlp;
use crate::rlp::{encode_list_header, encode_u64, Rlp, RlpError};
use crate::text;
use crate::types::{array_of, Address, Bytes, B256, U256};

verus! {

/// Which EIP-2718 envelope a transaction uses.
#[derive(Debug, Clone, Copy, PartialEq, Eq, Hash, Structural)]
pub enum TxType {
    /// Pre-EIP-2718 transaction, with an optional EIP-155 chain id in `v`.
    Legacy,
    /// EIP-2930, type `0x01`: legacy pricing plus an access list.
    AccessList,
    /// EIP-1559, type `0x02`: base fee plus priority fee.
    DynamicFee,
    /// EIP-7702, type `0x04`: sets code on an EOA.
    SetCode,
}

/// The EIP-2718 type byte, zero for legacy.
pub open spec fn type_byte(tx_type: TxType) -> u8 {
    match tx_type {
        TxType::Legacy => 0x00,
        TxType::AccessList => 0x01,
        TxType::DynamicFee => 0x02,
        TxType::SetCode => 0x04,
    }
}

impl TxType {
    /// The EIP-2718 type byte, `0x00` for legacy.
    #[must_use]
    pub fn as_byte(self) -> (out: u8)
        ensures
            out == type_byte(self),
    {
        match self {
            Self::Legacy => 0x00,
            Self::AccessList => 0x01,
            Self::DynamicFee => 0x02,
            Self::SetCode => 0x04,
        }
    }
}

/// A secp256k1 signature, as carried by the transaction.
#[derive(Debug, Clone, Copy, PartialEq, Eq, Hash)]
pub struct Signature {
    /// Parity of the recovered public key's y coordinate: the recovery id.
    pub y_parity: bool,
    /// The `r` component.
    pub r: U256,
    /// The `s` component.
    pub s: U256,
}

/// One `(address, storage keys)` entry of an EIP-2930 access list.
#[derive(Debug, Clone, PartialEq, Eq, Hash)]
pub struct AccessListItem {
    /// Account being warmed.
    pub address: Address,
    /// Storage slots of that account being warmed.
    pub storage_keys: Vec<B256>,
}

/// One EIP-7702 authorization tuple.
#[derive(Debug, Clone, PartialEq, Eq, Hash)]
pub struct Authorization {
    /// Chain the authorization is valid on; zero means any chain.
    pub chain_id: U256,
    /// Address whose code the authorizing account delegates to.
    pub address: Address,
    /// Nonce the authorizing account must have.
    pub nonce: u64,
    /// Signature by the authorizing account.
    pub signature: Signature,
}

/// A signed transaction, as broadcast by the sequencer.
///
/// The sender is deliberately absent: recovering it costs a secp256k1
/// operation. [`Transaction::signing_hash`] and [`Transaction::signature`] are
/// everything that takes.
#[derive(Debug, Clone, PartialEq, Eq)]
pub struct Transaction {
    /// `keccak256` of [`Transaction::raw`]: the hash the chain knows it by.
    pub hash: B256,
    /// Which envelope this transaction uses.
    pub tx_type: TxType,
    /// Chain id. `None` only for a legacy transaction signed before EIP-155.
    pub chain_id: Option<u64>,
    /// Sender's nonce.
    pub nonce: u64,
    /// Gas limit.
    pub gas_limit: u64,
    /// Maximum total price per gas. For [`TxType::Legacy`] and
    /// [`TxType::AccessList`] this is the flat `gasPrice`.
    pub max_fee_per_gas: u128,
    /// Maximum tip per gas. Equal to [`Transaction::max_fee_per_gas`] for the
    /// two types that price gas with a single field.
    pub max_priority_fee_per_gas: u128,
    /// Recipient, or `None` for a contract creation.
    pub to: Option<Address>,
    /// Value moved, in wei.
    pub value: U256,
    /// Call data.
    pub input: Bytes,
    /// EIP-2930 access list; empty for [`TxType::Legacy`].
    pub access_list: Vec<AccessListItem>,
    /// EIP-7702 authorizations; empty for every other type.
    pub authorization_list: Vec<Authorization>,
    /// The signature over [`Transaction::signing_hash`].
    pub signature: Signature,
    /// The 32 bytes the sender actually signed.
    pub signing_hash: B256,
    /// The encoded transaction, exactly as it came off the wire.
    pub raw: Bytes,
}

/// Why a transaction could not be decoded.
#[derive(Debug, Clone, Copy, PartialEq, Eq, Structural)]
pub enum TxError {
    /// There were no bytes to decode.
    Empty,
    /// The leading byte is neither an RLP list nor a supported type byte.
    UnsupportedType(u8),
    /// The RLP body was malformed.
    Rlp(RlpError),
    /// A legacy `v` was neither 27/28 nor a valid EIP-155 value.
    BadRecoveryId(u64),
    /// A typed transaction's `yParity` was something other than 0 or 1.
    BadParity(u64),
}

impl TxError {
    /// What is wrong, in words.
    pub open spec fn text(self) -> Seq<char> {
        match self {
            Self::Empty => "empty transaction payload"@,
            Self::UnsupportedType(byte) => "unsupported transaction type 0x"@ + hex::hex_text(
                seq![byte],
            ),
            Self::Rlp(e) => "malformed transaction RLP: "@ + e.text(),
            Self::BadRecoveryId(v) => "legacy transaction has an out-of-range v: "@ + text::digits(
                v as nat,
                10,
            ),
            Self::BadParity(v) => "yParity must be 0 or 1, got "@ + text::digits(v as nat, 10),
        }
    }

    /// What is wrong, in words.
    #[must_use]
    pub fn to_string(&self) -> (out: String)
        ensures
            out@ == self.text(),
    {
        let mut out = String::new();
        match self {
            Self::Empty => {
                out.append("empty transaction payload");
            },
            Self::UnsupportedType(byte) => {
                out.append("unsupported transaction type 0x");
                let mut bytes: Vec<u8> = Vec::new();
                bytes.push(*byte);
                assert(bytes@ =~= seq![*byte]);
                out.append(hex::encode(bytes.as_slice()).as_str());
            },
            Self::Rlp(e) => {
                out.append("malformed transaction RLP: ");
                out.append(e.to_string().as_str());
            },
            Self::BadRecoveryId(v) => {
                out.append("legacy transaction has an out-of-range v: ");
                text::push_decimal(&mut out, *v);
            },
            Self::BadParity(v) => {
                out.append("yParity must be 0 or 1, got ");
                text::push_decimal(&mut out, *v);
            },
        }
        assert(out@ =~= self.text());
        out
    }
}

impl From<RlpError> for TxError {
    fn from(e: RlpError) -> Self {
        TxError::Rlp(e)
    }
}

impl vstd::std_specs::convert::FromSpecImpl<RlpError> for TxError {
    open spec fn obeys_from_spec() -> bool {
        true
    }

    open spec fn from_spec(e: RlpError) -> Self {
        TxError::Rlp(e)
    }
}

/// A signature as numbers.
#[verifier::ext_equal]
pub struct SignatureView {
    pub y_parity: bool,
    pub r: nat,
    pub s: nat,
}

/// An access list entry as byte strings.
#[verifier::ext_equal]
pub struct AccessListItemView {
    pub address: Seq<u8>,
    pub storage_keys: Seq<Seq<u8>>,
}

/// An authorization as numbers and byte strings.
#[verifier::ext_equal]
pub struct AuthorizationView {
    pub chain_id: nat,
    pub address: Seq<u8>,
    pub nonce: nat,
    pub signature: SignatureView,
}

/// A transaction as numbers and byte strings.
#[verifier::ext_equal]
pub struct TransactionView {
    pub hash: Seq<u8>,
    pub tx_type: TxType,
    pub chain_id: Option<nat>,
    pub nonce: nat,
    pub gas_limit: nat,
    pub max_fee_per_gas: nat,
    pub max_priority_fee_per_gas: nat,
    pub to: Option<Seq<u8>>,
    pub value: nat,
    pub input: Seq<u8>,
    pub access_list: Seq<AccessListItemView>,
    pub authorization_list: Seq<AuthorizationView>,
    pub signature: SignatureView,
    pub signing_hash: Seq<u8>,
    pub raw: Seq<u8>,
}

impl View for Signature {
    type V = SignatureView;

    open spec fn view(&self) -> SignatureView {
        SignatureView { y_parity: self.y_parity, r: self.r@, s: self.s@ }
    }
}

/// Hashes as byte strings.
pub open spec fn key_views(keys: Seq<B256>) -> Seq<Seq<u8>> {
    keys.map_values(|key: B256| key@)
}

impl View for AccessListItem {
    type V = AccessListItemView;

    open spec fn view(&self) -> AccessListItemView {
        AccessListItemView {
            address: self.address@,
            storage_keys: key_views(self.storage_keys@),
        }
    }
}

impl View for Authorization {
    type V = AuthorizationView;

    open spec fn view(&self) -> AuthorizationView {
        AuthorizationView {
            chain_id: self.chain_id@,
            address: self.address@,
            nonce: self.nonce as nat,
            signature: self.signature@,
        }
    }
}

/// Access list entries as byte strings.
pub open spec fn access_views(items: Seq<AccessListItem>) -> Seq<AccessListItemView> {
    items.map_values(|item: AccessListItem| item@)
}

/// Authorizations as numbers and byte strings.
pub open spec fn authorization_views(items: Seq<Authorization>) -> Seq<AuthorizationView> {
    items.map_values(|item: Authorization| item@)
}

/// An optional address as an optional byte string.
pub open spec fn address_view(address: Option<Address>) -> Option<Seq<u8>> {
    match address {
        Some(address) => Some(address@),
        None => None,
    }
}

/// An optional machine integer as an optional number.
pub open spec fn number_view(n: Option<u64>) -> Option<nat> {
    match n {
        Some(n) => Some(n as nat),
        None => None,
    }
}

impl View for Transaction {
    type V = TransactionView;

    open spec fn view(&self) -> TransactionView {
        TransactionView {
            hash: self.hash@,
            tx_type: self.tx_type,
            chain_id: number_view(self.chain_id),
            nonce: self.nonce as nat,
            gas_limit: self.gas_limit as nat,
            max_fee_per_gas: self.max_fee_per_gas as nat,
            max_priority_fee_per_gas: self.max_priority_fee_per_gas as nat,
            to: address_view(self.to),
            value: self.value@,
            input: self.input@,
            access_list: access_views(self.access_list@),
            authorization_list: authorization_views(self.authorization_list@),
            signature: self.signature@,
            signing_hash: self.signing_hash@,
            raw: self.raw@,
        }
    }
}

/// What a decoding attempt gave, as numbers and byte strings.
pub open spec fn result_view(out: Result<Transaction, TxError>) -> Result<
    TransactionView,
    TxError,
> {
    match out {
        Ok(tx) => Ok(tx@),
        Err(e) => Err(e),
    }
}

/// What was read before, in front of what is read next, unless that fails.
pub open spec fn prepend<T>(done: Seq<T>, next: Result<Seq<T>, RlpError>) -> Result<
    Seq<T>,
    RlpError,
> {
    match next {
        Ok(items) => Ok(done + items),
        Err(e) => Err(e),
    }
}

/// Every item of `s`, each a 32-byte hash.
pub open spec fn read_keys(s: Seq<u8>) -> Result<Seq<Seq<u8>>, RlpError>
    decreases s.len(),
{
    if s.len() == 0 {
        Ok(Seq::empty())
    } else {
        match rlp::read_fixed(s, 32) {
            Err(e) => Err(e),
            Ok(key) => {
                proof {
                    rlp::item_len_bound(s);
                }
                prepend(seq![key], read_keys(rlp::after_item(s)))
            },
        }
    }
}

/// The access list entry at the front of `s`: a list of an address and a list
/// of storage keys, and nothing more.
pub open spec fn read_access_entry(s: Seq<u8>) -> Result<AccessListItemView, RlpError> {
    match rlp::read_list(s) {
        Err(e) => Err(e),
        Ok(entry) => {
            let address = rlp::read_fixed(entry, 20);
            let b1 = rlp::after_item(entry);
            let keys = rlp::read_list(b1);
            let b2 = rlp::after_item(b1);
            if address is Err {
                Err(address->Err_0)
            } else if keys is Err {
                Err(keys->Err_0)
            } else if b2.len() > 0 {
                Err(RlpError::TrailingItems)
            } else {
                match read_keys(keys->Ok_0) {
                    Err(e) => Err(e),
                    Ok(storage_keys) => Ok(
                        AccessListItemView { address: address->Ok_0, storage_keys },
                    ),
                }
            }
        },
    }
}

/// Every item of `s`, each an access list entry.
pub open spec fn read_access_entries(s: Seq<u8>) -> Result<Seq<AccessListItemView>, RlpError>
    decreases s.len(),
{
    if s.len() == 0 {
        Ok(Seq::empty())
    } else {
        match read_access_entry(s) {
            Err(e) => Err(e),
            Ok(entry) => {
                proof {
                    rlp::item_len_bound(s);
                }
                prepend(seq![entry], read_access_entries(rlp::after_item(s)))
            },
        }
    }
}

/// The access list at the front of `s`.
pub open spec fn read_access_list(s: Seq<u8>) -> Result<Seq<AccessListItemView>, RlpError> {
    match rlp::read_list(s) {
        Err(e) => Err(e),
        Ok(list) => read_access_entries(list),
    }
}

/// The authorization at the front of `s`: a list of six fields, and nothing
/// more. Any `yParity` but one counts as even.
pub open spec fn read_authorization(s: Seq<u8>) -> Result<AuthorizationView, RlpError> {
    match rlp::read_list(s) {
        Err(e) => Err(e),
        Ok(entry) => {
            let chain_id = rlp::read_uint(entry, 32);
            let b1 = rlp::after_item(entry);
            let address = rlp::read_fixed(b1, 20);
            let b2 = rlp::after_item(b1);
            let nonce = rlp::read_uint(b2, 8);
            let b3 = rlp::after_item(b2);
            let parity = rlp::read_uint(b3, 8);
            let b4 = rlp::after_item(b3);
            let r = rlp::read_uint(b4, 32);
            let b5 = rlp::after_item(b4);
            let s = rlp::read_uint(b5, 32);
            let b6 = rlp::after_item(b5);
            if chain_id is Err {
                Err(chain_id->Err_0)
            } else if address is Err {
                Err(address->Err_0)
            } else if nonce is Err {
                Err(nonce->Err_0)
            } else if parity is Err {
                Err(parity->Err_0)
            } else if r is Err {
                Err(r->Err_0)
            } else if s is Err {
                Err(s->Err_0)
            } else if b6.len() > 0 {
                Err(RlpError::TrailingItems)
            } else {
                Ok(
                    AuthorizationView {
                        chain_id: chain_id->Ok_0,
                        address: address->Ok_0,
                        nonce: nonce->Ok_0,
                        signature: SignatureView {
                            y_parity: parity->Ok_0 == 1,
                            r: r->Ok_0,
                            s: s->Ok_0,
                        },
                    },
                )
            }
        },
    }
}

/// Every item of `s`, each an authorization.
pub open spec fn read_authorizations(s: Seq<u8>) -> Result<Seq<AuthorizationView>, RlpError>
    decreases s.len(),
{
    if s.len() == 0 {
        Ok(Seq::empty())
    } else {
        match read_authorization(s) {
            Err(e) => Err(e),
            Ok(entry) => {
                proof {
                    rlp::item_len_bound(s);
                }
                prepend(seq![entry], read_authorizations(rlp::after_item(s)))
            },
        }
    }
}

/// The authorization list at the front of `s`.
pub open spec fn read_authorization_list(s: Seq<u8>) -> Result<Seq<AuthorizationView>, RlpError> {
    match rlp::read_list(s) {
        Err(e) => Err(e),
        Ok(list) => read_authorizations(list),
    }
}

/// The chain id and the parity that a legacy `v` stands for. Before EIP-155
/// it was 27 or 28; EIP-155 folds the chain id into it.
pub open spec fn legacy_v(v: nat) -> Option<(Option<nat>, bool)> {
    if v == 27 || v == 28 {
        Some((None, v == 28))
    } else if v >= 35 {
        Some((Some(((v - 35) / 2) as nat), (v - 35) % 2 == 1))
    } else {
        None
    }
}

/// What EIP-155 has signed behind the six fields of a legacy transaction: the
/// chain id and two empty items. Nothing without a chain id.
pub open spec fn legacy_tail(chain_id: Option<nat>) -> Seq<u8> {
    match chain_id {
        Some(chain_id) => rlp::encode_uint(chain_id) + seq![0x80u8, 0x80u8],
        None => Seq::empty(),
    }
}

/// The part of `body` in front of `rest`, a tail of it.
pub open spec fn front_of(body: Seq<u8>, rest: Seq<u8>) -> Seq<u8> {
    body.take(body.len() - rest.len())
}

/// The fields of a legacy transaction, read off the contents of its list. The
/// first field that cannot be read is the error.
#[verifier::opaque]
pub open spec fn read_legacy_body(raw: Seq<u8>, body: Seq<u8>) -> Result<TransactionView, TxError> {
    let nonce = rlp::read_uint(body, 8);
    let b1 = rlp::after_item(body);
    let gas_price = rlp::read_uint(b1, 16);
    let b2 = rlp::after_item(b1);
    let gas_limit = rlp::read_uint(b2, 8);
    let b3 = rlp::after_item(b2);
    let to = rlp::read_address_opt(b3);
    let b4 = rlp::after_item(b3);
    let value = rlp::read_uint(b4, 32);
    let b5 = rlp::after_item(b4);
    let input = rlp::read_bytes(b5);
    let b6 = rlp::after_item(b5);
    let v = rlp::read_uint(b6, 8);
    let b7 = rlp::after_item(b6);
    let r = rlp::read_uint(b7, 32);
    let b8 = rlp::after_item(b7);
    let s = rlp::read_uint(b8, 32);
    let b9 = rlp::after_item(b8);
    if nonce is Err {
        Err(TxError::Rlp(nonce->Err_0))
    } else if gas_price is Err {
        Err(TxError::Rlp(gas_price->Err_0))
    } else if gas_limit is Err {
        Err(TxError::Rlp(gas_limit->Err_0))
    } else if to is Err {
        Err(TxError::Rlp(to->Err_0))
    } else if value is Err {
        Err(TxError::Rlp(value->Err_0))
    } else if input is Err {
        Err(TxError::Rlp(input->Err_0))
    } else if v is Err {
        Err(TxError::Rlp(v->Err_0))
    } else if r is Err {
        Err(TxError::Rlp(r->Err_0))
    } else if s is Err {
        Err(TxError::Rlp(s->Err_0))
    } else if b9.len() > 0 {
        Err(TxError::Rlp(RlpError::TrailingItems))
    } else {
        match legacy_v(v->Ok_0) {
            None => Err(TxError::BadRecoveryId(v->Ok_0 as u64)),
            Some((chain_id, y_parity)) => Ok(
                TransactionView {
                    hash: keccak::keccak256(raw),
                    tx_type: TxType::Legacy,
                    chain_id,
                    nonce: nonce->Ok_0,
                    gas_limit: gas_limit->Ok_0,
                    max_fee_per_gas: gas_price->Ok_0,
                    max_priority_fee_per_gas: gas_price->Ok_0,
                    to: to->Ok_0,
                    value: value->Ok_0,
                    input: input->Ok_0,
                    access_list: Seq::empty(),
                    authorization_list: Seq::empty(),
                    signature: SignatureView { y_parity, r: r->Ok_0, s: s->Ok_0 },
                    // Where the signature starts is where the signed part ends.
                    signing_hash: keccak::keccak256(
                        rlp::encode_list(front_of(body, b6) + legacy_tail(chain_id)),
                    ),
                    raw,
                },
            ),
        }
    }
}

/// The fields every typed transaction starts with.
pub struct TypedHeadView {
    pub chain_id: nat,
    pub nonce: nat,
    pub max_priority_fee_per_gas: nat,
    pub max_fee_per_gas: nat,
    pub gas_limit: nat,
}

/// How many items the first fields take. EIP-2930 prices gas with one field,
/// the other two with a pair.
pub open spec fn typed_head_items(tx_type: TxType) -> nat {
    if tx_type == TxType::AccessList {
        4
    } else {
        5
    }
}

/// The first fields of a typed transaction. The first that cannot be read is
/// the error.
pub open spec fn read_typed_head(tx_type: TxType, body: Seq<u8>) -> Result<
    TypedHeadView,
    RlpError,
> {
    let chain_id = rlp::read_uint(body, 8);
    let b1 = rlp::after_item(body);
    let nonce = rlp::read_uint(b1, 8);
    let b2 = rlp::after_item(b1);
    let priority_fee = rlp::read_uint(b2, 16);
    let b3 = if tx_type == TxType::AccessList {
        b2
    } else {
        rlp::after_item(b2)
    };
    let max_fee = rlp::read_uint(b3, 16);
    let b4 = rlp::after_item(b3);
    let gas_limit = rlp::read_uint(b4, 8);
    if chain_id is Err {
        Err(chain_id->Err_0)
    } else if nonce is Err {
        Err(nonce->Err_0)
    } else if priority_fee is Err {
        Err(priority_fee->Err_0)
    } else if max_fee is Err {
        Err(max_fee->Err_0)
    } else if gas_limit is Err {
        Err(gas_limit->Err_0)
    } else {
        Ok(
            TypedHeadView {
                chain_id: chain_id->Ok_0,
                nonce: nonce->Ok_0,
                max_priority_fee_per_gas: priority_fee->Ok_0,
                max_fee_per_gas: max_fee->Ok_0,
                gas_limit: gas_limit->Ok_0,
            },
        )
    }
}

/// What a typed transaction calls, and with what.
pub struct TypedCallView {
    pub to: Option<Seq<u8>>,
    pub value: nat,
    pub input: Seq<u8>,
    pub access_list: Seq<AccessListItemView>,
    pub authorization_list: Seq<AuthorizationView>,
}

/// How many items the call takes: only EIP-7702 carries authorizations.
pub open spec fn typed_call_items(tx_type: TxType) -> nat {
    if tx_type == TxType::SetCode {
        5
    } else {
        4
    }
}

/// The recipient. EIP-7702 cannot deploy, so there it is a plain address.
pub open spec fn read_recipient(tx_type: TxType, s: Seq<u8>) -> Result<Option<Seq<u8>>, RlpError> {
    if tx_type == TxType::SetCode {
        match rlp::read_fixed(s, 20) {
            Ok(address) => Ok(Some(address)),
            Err(e) => Err(e),
        }
    } else {
        rlp::read_address_opt(s)
    }
}

/// What a typed transaction calls. The first field that cannot be read is the
/// error.
pub open spec fn read_typed_call(tx_type: TxType, s: Seq<u8>) -> Result<TypedCallView, RlpError> {
    let to = read_recipient(tx_type, s);
    let b1 = rlp::after_item(s);
    let value = rlp::read_uint(b1, 32);
    let b2 = rlp::after_item(b1);
    let input = rlp::read_bytes(b2);
    let b3 = rlp::after_item(b2);
    let access_list = read_access_list(b3);
    let b4 = rlp::after_item(b3);
    let authorization_list = if tx_type == TxType::SetCode {
        read_authorization_list(b4)
    } else {
        Ok(Seq::empty())
    };
    if to is Err {
        Err(to->Err_0)
    } else if value is Err {
        Err(value->Err_0)
    } else if input is Err {
        Err(input->Err_0)
    } else if access_list is Err {
        Err(access_list->Err_0)
    } else if authorization_list is Err {
        Err(authorization_list->Err_0)
    } else {
        Ok(
            TypedCallView {
                to: to->Ok_0,
                value: value->Ok_0,
                input: input->Ok_0,
                access_list: access_list->Ok_0,
                authorization_list: authorization_list->Ok_0,
            },
        )
    }
}

/// The signature that ends a typed transaction, with nothing behind it.
pub open spec fn read_typed_signature(s: Seq<u8>) -> Result<SignatureView, TxError> {
    let parity = rlp::read_uint(s, 8);
    let b1 = rlp::after_item(s);
    let r_part = rlp::read_uint(b1, 32);
    let b2 = rlp::after_item(b1);
    let s_part = rlp::read_uint(b2, 32);
    let b3 = rlp::after_item(b2);
    if parity is Err {
        Err(TxError::Rlp(parity->Err_0))
    } else if parity->Ok_0 > 1 {
        Err(TxError::BadParity(parity->Ok_0 as u64))
    } else if r_part is Err {
        Err(TxError::Rlp(r_part->Err_0))
    } else if s_part is Err {
        Err(TxError::Rlp(s_part->Err_0))
    } else if b3.len() > 0 {
        Err(TxError::Rlp(RlpError::TrailingItems))
    } else {
        Ok(SignatureView { y_parity: parity->Ok_0 == 1, r: r_part->Ok_0, s: s_part->Ok_0 })
    }
}

/// The fields of a typed transaction, read off the contents of its list.
#[verifier::opaque]
pub open spec fn read_typed_body(raw: Seq<u8>, tx_type: TxType, body: Seq<u8>) -> Result<
    TransactionView,
    TxError,
> {
    let head = read_typed_head(tx_type, body);
    let call_at = rlp::after_items(body, typed_head_items(tx_type));
    let call = read_typed_call(tx_type, call_at);
    let signature_at = rlp::after_items(call_at, typed_call_items(tx_type));
    let signature = read_typed_signature(signature_at);
    if head is Err {
        Err(TxError::Rlp(head->Err_0))
    } else if call is Err {
        Err(TxError::Rlp(call->Err_0))
    } else if signature is Err {
        Err(signature->Err_0)
    } else {
        Ok(
            TransactionView {
                hash: keccak::keccak256(raw),
                tx_type,
                chain_id: Some(head->Ok_0.chain_id),
                nonce: head->Ok_0.nonce,
                gas_limit: head->Ok_0.gas_limit,
                max_fee_per_gas: head->Ok_0.max_fee_per_gas,
                max_priority_fee_per_gas: head->Ok_0.max_priority_fee_per_gas,
                to: call->Ok_0.to,
                value: call->Ok_0.value,
                input: call->Ok_0.input,
                access_list: call->Ok_0.access_list,
                authorization_list: call->Ok_0.authorization_list,
                signature: signature->Ok_0,
                // Where the signature starts is where the signed part ends.
                signing_hash: keccak::keccak256(
                    seq![type_byte(tx_type)] + rlp::encode_list(front_of(body, signature_at)),
                ),
                raw,
            },
        )
    }
}

/// The one list that `envelope` must hold, with nothing behind it.
pub open spec fn read_only_list(envelope: Seq<u8>) -> Result<Seq<u8>, RlpError> {
    match rlp::read_list(envelope) {
        Err(e) => Err(e),
        Ok(body) => if rlp::after_item(envelope).len() > 0 {
            Err(RlpError::TrailingItems)
        } else {
            Ok(body)
        },
    }
}

/// The type a leading byte announces, if it is one of the supported ones.
pub open spec fn typed_of_byte(byte: u8) -> Option<TxType> {
    if byte == 0x01 {
        Some(TxType::AccessList)
    } else if byte == 0x02 {
        Some(TxType::DynamicFee)
    } else if byte == 0x04 {
        Some(TxType::SetCode)
    } else {
        None
    }
}

/// The transaction that `raw` encodes, or why it is not one.
pub open spec fn read_transaction(raw: Seq<u8>) -> Result<TransactionView, TxError> {
    if raw.len() == 0 {
        Err(TxError::Empty)
    } else if raw[0] >= 0xc0 {
        match read_only_list(raw) {
            Err(e) => Err(TxError::Rlp(e)),
            Ok(body) => read_legacy_body(raw, body),
        }
    } else {
        match typed_of_byte(raw[0]) {
            None => Err(TxError::UnsupportedType(raw[0])),
            Some(tx_type) => match read_only_list(raw.skip(1)) {
                Err(e) => Err(TxError::Rlp(e)),
                Ok(body) => read_typed_body(raw, tx_type, body),
            },
        }
    }
}

/// Read the storage keys of an access list entry.
fn decode_storage_keys(keys: &mut Rlp<'_>) -> (out: Result<Vec<B256>, RlpError>)
    ensures
        match out {
            Ok(list) => read_keys(old(keys).rest()) == Ok::<Seq<Seq<u8>>, RlpError>(
                key_views(list@),
            ),
            Err(e) => read_keys(old(keys).rest()) == Err::<Seq<Seq<u8>>, RlpError>(e),
        },
{
    let ghost all = keys.rest();
    let mut out: Vec<B256> = Vec::new();
    assert(prepend(key_views(out@), read_keys(all)) =~~= read_keys(all));
    while !keys.is_empty()
        invariant
            all == old(keys).rest(),
            read_keys(all) == prepend(key_views(out@), read_keys(keys.rest())),
        decreases keys.rest().len(),
    {
        let ghost s = keys.rest();
        let ghost done = key_views(out@);
        proof {
            rlp::item_len_bound(s);
        }
        match keys.next_b256() {
            Ok(key) => {
                out.push(key);
                assert(key_views(out@) =~= done.push(key@));
                assert(forall|rest: Seq<Seq<u8>>|
                    done + (seq![key@] + rest) =~= #[trigger] (done.push(key@) + rest));
            },
            Err(e) => {
                return Err(e);
            },
        }
    }
    assert(key_views(out@) + Seq::<Seq<u8>>::empty() =~= key_views(out@));
    Ok(out)
}

/// Read one access list entry.
fn decode_access_entry(list: &mut Rlp<'_>) -> (out: Result<AccessListItem, RlpError>)
    ensures
        old(list).moved_to(final(list)),
        match out {
            Ok(item) => read_access_entry(old(list).rest()) == Ok::<AccessListItemView, RlpError>(
                item@,
            ),
            Err(e) => read_access_entry(old(list).rest()) == Err::<AccessListItemView, RlpError>(e),
        },
{
    let mut entry = match list.next_list() {
        Ok(entry) => entry,
        Err(e) => {
            return Err(e);
        },
    };
    let address = match entry.next_address() {
        Ok(address) => address,
        Err(e) => {
            return Err(e);
        },
    };
    let mut keys = match entry.next_list() {
        Ok(keys) => keys,
        Err(e) => {
            return Err(e);
        },
    };
    match entry.finish() {
        Ok(()) => {},
        Err(e) => {
            return Err(e);
        },
    }
    match decode_storage_keys(&mut keys) {
        Ok(storage_keys) => Ok(AccessListItem { address, storage_keys }),
        Err(e) => Err(e),
    }
}

/// Read an access list.
fn decode_access_list(rlp: &mut Rlp<'_>) -> (out: Result<Vec<AccessListItem>, RlpError>)
    ensures
        old(rlp).moved_to(final(rlp)),
        match out {
            Ok(items) => read_access_list(old(rlp).rest()) == Ok::<
                Seq<AccessListItemView>,
                RlpError,
            >(access_views(items@)),
            Err(e) => read_access_list(old(rlp).rest()) == Err::<Seq<AccessListItemView>, RlpError>(
                e,
            ),
        },
{
    let mut list = match rlp.next_list() {
        Ok(list) => list,
        Err(e) => {
            return Err(e);
        },
    };
    let ghost all = list.rest();
    let mut out: Vec<AccessListItem> = Vec::new();
    assert(prepend(access_views(out@), read_access_entries(all)) =~~= read_access_entries(all));
    while !list.is_empty()
        invariant
            old(rlp).moved_to(rlp),
            read_access_list(old(rlp).rest()) == read_access_entries(all),
            read_access_entries(all) == prepend(
                access_views(out@),
                read_access_entries(list.rest()),
            ),
        decreases list.rest().len(),
    {
        let ghost s = list.rest();
        let ghost done = access_views(out@);
        proof {
            rlp::item_len_bound(s);
        }
        match decode_access_entry(&mut list) {
            Ok(item) => {
                out.push(item);
                assert(access_views(out@) =~= done.push(item@));
                assert(forall|rest: Seq<AccessListItemView>|
                    done + (seq![item@] + rest) =~= #[trigger] (done.push(item@) + rest));
            },
            Err(e) => {
                return Err(e);
            },
        }
    }
    assert(access_views(out@) + Seq::<AccessListItemView>::empty() =~= access_views(out@));
    Ok(out)
}

/// Read one authorization.
fn decode_authorization(list: &mut Rlp<'_>) -> (out: Result<Authorization, RlpError>)
    ensures
        old(list).moved_to(final(list)),
        match out {
            Ok(item) => read_authorization(old(list).rest()) == Ok::<AuthorizationView, RlpError>(
                item@,
            ),
            Err(e) => read_authorization(old(list).rest()) == Err::<AuthorizationView, RlpError>(e),
        },
{
    let mut entry = match list.next_list() {
        Ok(entry) => entry,
        Err(e) => {
            return Err(e);
        },
    };
    let chain_id = match entry.next_u256() {
        Ok(chain_id) => chain_id,
        Err(e) => {
            return Err(e);
        },
    };
    let address = match entry.next_address() {
        Ok(address) => address,
        Err(e) => {
            return Err(e);
        },
    };
    let nonce = match entry.next_u64() {
        Ok(nonce) => nonce,
        Err(e) => {
            return Err(e);
        },
    };
    let parity = match entry.next_u64() {
        Ok(parity) => parity,
        Err(e) => {
            return Err(e);
        },
    };
    let r = match entry.next_u256() {
        Ok(r) => r,
        Err(e) => {
            return Err(e);
        },
    };
    let s = match entry.next_u256() {
        Ok(s) => s,
        Err(e) => {
            return Err(e);
        },
    };
    match entry.finish() {
        Ok(()) => {},
        Err(e) => {
            return Err(e);
        },
    }
    Ok(
        Authorization {
            chain_id,
            address,
            nonce,
            signature: Signature { y_parity: parity == 1, r, s },
        },
    )
}

/// Read an authorization list.
fn decode_authorization_list(rlp: &mut Rlp<'_>) -> (out: Result<Vec<Authorization>, RlpError>)
    ensures
        old(rlp).moved_to(final(rlp)),
        match out {
            Ok(items) => read_authorization_list(old(rlp).rest()) == Ok::<
                Seq<AuthorizationView>,
                RlpError,
            >(authorization_views(items@)),
            Err(e) => read_authorization_list(old(rlp).rest()) == Err::<
                Seq<AuthorizationView>,
                RlpError,
            >(e),
        },
{
    let mut list = match rlp.next_list() {
        Ok(list) => list,
        Err(e) => {
            return Err(e);
        },
    };
    let ghost all = list.rest();
    let mut out: Vec<Authorization> = Vec::new();
    assert(prepend(authorization_views(out@), read_authorizations(all)) =~~= read_authorizations(
        all,
    ));
    while !list.is_empty()
        invariant
            old(rlp).moved_to(rlp),
            read_authorization_list(old(rlp).rest()) == read_authorizations(all),
            read_authorizations(all) == prepend(
                authorization_views(out@),
                read_authorizations(list.rest()),
            ),
        decreases list.rest().len(),
    {
        let ghost s = list.rest();
        let ghost done = authorization_views(out@);
        proof {
            rlp::item_len_bound(s);
        }
        match decode_authorization(&mut list) {
            Ok(item) => {
                out.push(item);
                assert(authorization_views(out@) =~= done.push(item@));
                assert(forall|rest: Seq<AuthorizationView>|
                    done + (seq![item@] + rest) =~= #[trigger] (done.push(item@) + rest));
            },
            Err(e) => {
                return Err(e);
            },
        }
    }
    assert(authorization_views(out@) + Seq::<AuthorizationView>::empty() =~= authorization_views(
        out@,
    ));
    Ok(out)
}

/// The fields every typed transaction starts with, as machine integers.
struct TypedHead {
    chain_id: u64,
    nonce: u64,
    max_priority_fee_per_gas: u128,
    max_fee_per_gas: u128,
    gas_limit: u64,
}

impl TypedHead {
    spec fn view(&self) -> TypedHeadView {
        TypedHeadView {
            chain_id: self.chain_id as nat,
            nonce: self.nonce as nat,
            max_priority_fee_per_gas: self.max_priority_fee_per_gas as nat,
            max_fee_per_gas: self.max_fee_per_gas as nat,
            gas_limit: self.gas_limit as nat,
        }
    }
}

/// What a typed transaction calls, and with what.
struct TypedCall<'a> {
    to: Option<Address>,
    value: U256,
    input: &'a [u8],
    access_list: Vec<AccessListItem>,
    authorization_list: Vec<Authorization>,
}

impl<'a> TypedCall<'a> {
    spec fn view(&self) -> TypedCallView {
        TypedCallView {
            to: address_view(self.to),
            value: self.value@,
            input: self.input@,
            access_list: access_views(self.access_list@),
            authorization_list: authorization_views(self.authorization_list@),
        }
    }
}

/// Read the fields every typed transaction starts with.
fn decode_typed_head(tx_type: TxType, body: &mut Rlp<'_>) -> (out: Result<TypedHead, RlpError>)
    ensures
        match out {
            Ok(head) => {
                &&& read_typed_head(tx_type, old(body).rest()) == Ok::<TypedHeadView, RlpError>(
                    head.view(),
                )
                &&& final(body).bytes() == old(body).bytes()
                &&& final(body).rest() == rlp::after_items(
                    old(body).rest(),
                    typed_head_items(tx_type),
                )
            },
            Err(e) => read_typed_head(tx_type, old(body).rest()) == Err::<TypedHeadView, RlpError>(
                e,
            ),
        },
{
    proof {
        reveal_with_fuel(rlp::after_items, 6);
    }
    let chain_id = match body.next_u64() {
        Ok(chain_id) => chain_id,
        Err(e) => {
            return Err(e);
        },
    };
    let nonce = match body.next_u64() {
        Ok(nonce) => nonce,
        Err(e) => {
            return Err(e);
        },
    };
    // 2930 prices gas with one field, the other two with a pair.
    let max_priority_fee_per_gas = match body.next_u128() {
        Ok(max_priority_fee_per_gas) => max_priority_fee_per_gas,
        Err(e) => {
            return Err(e);
        },
    };
    let max_fee_per_gas = if tx_type == TxType::AccessList {
        max_priority_fee_per_gas
    } else {
        match body.next_u128() {
            Ok(max_fee_per_gas) => max_fee_per_gas,
            Err(e) => {
                return Err(e);
            },
        }
    };
    let gas_limit = match body.next_u64() {
        Ok(gas_limit) => gas_limit,
        Err(e) => {
            return Err(e);
        },
    };
    Ok(TypedHead { chain_id, nonce, max_priority_fee_per_gas, max_fee_per_gas, gas_limit })
}

/// Read the recipient of a typed transaction.
fn decode_recipient(tx_type: TxType, body: &mut Rlp<'_>) -> (out: Result<Option<Address>, RlpError>)
    ensures
        old(body).moved_to(final(body)),
        match out {
            Ok(to) => read_recipient(tx_type, old(body).rest()) == Ok::<Option<Seq<u8>>, RlpError>(
                address_view(to),
            ),
            Err(e) => read_recipient(tx_type, old(body).rest()) == Err::<Option<Seq<u8>>, RlpError>(
                e,
            ),
        },
{
    if tx_type == TxType::SetCode {
        // 7702 cannot deploy, so the field is a plain address.
        match body.next_address() {
            Ok(to) => Ok(Some(to)),
            Err(e) => Err(e),
        }
    } else {
        body.next_address_opt()
    }
}

/// Read what a typed transaction calls.
fn decode_typed_call<'a>(tx_type: TxType, body: &mut Rlp<'a>) -> (out: Result<
    TypedCall<'a>,
    RlpError,
>)
    ensures
        match out {
            Ok(call) => {
                &&& read_typed_call(tx_type, old(body).rest()) == Ok::<TypedCallView, RlpError>(
                    call.view(),
                )
                &&& final(body).bytes() == old(body).bytes()
                &&& final(body).rest() == rlp::after_items(
                    old(body).rest(),
                    typed_call_items(tx_type),
                )
            },
            Err(e) => read_typed_call(tx_type, old(body).rest()) == Err::<TypedCallView, RlpError>(
                e,
            ),
        },
{
    proof {
        reveal_with_fuel(rlp::after_items, 6);
    }
    let to = match decode_recipient(tx_type, body) {
        Ok(to) => to,
        Err(e) => {
            return Err(e);
        },
    };
    let value = match body.next_u256() {
        Ok(value) => value,
        Err(e) => {
            return Err(e);
        },
    };
    let input = match body.next_bytes() {
        Ok(input) => input,
        Err(e) => {
            return Err(e);
        },
    };
    let access_list = match decode_access_list(body) {
        Ok(access_list) => access_list,
        Err(e) => {
            return Err(e);
        },
    };
    let authorization_list = if tx_type == TxType::SetCode {
        match decode_authorization_list(body) {
            Ok(authorization_list) => authorization_list,
            Err(e) => {
                return Err(e);
            },
        }
    } else {
        Vec::new()
    };
    assert(tx_type != TxType::SetCode ==> authorization_views(authorization_list@) =~= Seq::<
        AuthorizationView,
    >::empty());
    Ok(TypedCall { to, value, input, access_list, authorization_list })
}

/// Read the signature that ends a typed transaction.
fn decode_typed_signature(body: &mut Rlp<'_>) -> (out: Result<Signature, TxError>)
    ensures
        final(body).bytes() == old(body).bytes(),
        match out {
            Ok(signature) => read_typed_signature(old(body).rest()) == Ok::<SignatureView, TxError>(
                signature@,
            ),
            Err(e) => read_typed_signature(old(body).rest()) == Err::<SignatureView, TxError>(e),
        },
{
    let parity = match body.next_u64() {
        Ok(parity) => parity,
        Err(e) => {
            return Err(TxError::Rlp(e));
        },
    };
    if parity > 1 {
        return Err(TxError::BadParity(parity));
    }
    let r = match body.next_u256() {
        Ok(r) => r,
        Err(e) => {
            return Err(TxError::Rlp(e));
        },
    };
    let s = match body.next_u256() {
        Ok(s) => s,
        Err(e) => {
            return Err(TxError::Rlp(e));
        },
    };
    match body.finish() {
        Ok(()) => Ok(Signature { y_parity: parity == 1, r, s }),
        Err(e) => Err(TxError::Rlp(e)),
    }
}

impl Transaction {
    /// Decode one EIP-2718 transaction envelope.
    ///
    /// # Errors
    ///
    /// Returns [`TxError`] if the bytes are not a well-formed, canonically
    /// encoded transaction of a supported type.
    pub fn decode(raw: &[u8]) -> (out: Result<Self, TxError>)
        ensures
            result_view(out) == read_transaction(raw@),
    {
        if raw.len() == 0 {
            return Err(TxError::Empty);
        }
        let first = raw[0];
        if first >= 0xc0 {
            // An RLP list header: a legacy transaction.
            Self::decode_legacy(raw)
        } else if first < 0x80 {
            // An EIP-2718 type byte.
            Self::decode_typed(first, raw)
        } else {
            Err(TxError::UnsupportedType(first))
        }
    }

    fn decode_legacy(raw: &[u8]) -> (out: Result<Self, TxError>)
        ensures
            result_view(out) == match read_only_list(raw@) {
                Err(e) => Err(TxError::Rlp(e)),
                Ok(body) => read_legacy_body(raw@, body),
            },
    {
        proof {
            reveal(read_legacy_body);
        }
        let mut outer = Rlp::new(raw);
        let mut body = match outer.next_list() {
            Ok(body) => body,
            Err(e) => {
                return Err(TxError::Rlp(e));
            },
        };
        match outer.finish() {
            Ok(()) => {},
            Err(e) => {
                return Err(TxError::Rlp(e));
            },
        }
        let ghost all = body.rest();

        let nonce = match body.next_u64() {
            Ok(nonce) => nonce,
            Err(e) => {
                return Err(TxError::Rlp(e));
            },
        };
        let gas_price = match body.next_u128() {
            Ok(gas_price) => gas_price,
            Err(e) => {
                return Err(TxError::Rlp(e));
            },
        };
        let gas_limit = match body.next_u64() {
            Ok(gas_limit) => gas_limit,
            Err(e) => {
                return Err(TxError::Rlp(e));
            },
        };
        let to = match body.next_address_opt() {
            Ok(to) => to,
            Err(e) => {
                return Err(TxError::Rlp(e));
            },
        };
        let value = match body.next_u256() {
            Ok(value) => value,
            Err(e) => {
                return Err(TxError::Rlp(e));
            },
        };
        let input = match body.next_bytes() {
            Ok(input) => input,
            Err(e) => {
                return Err(TxError::Rlp(e));
            },
        };

        // Where the signature starts is also where the signed payload ends.
        let signed_len = body.consumed();
        let ghost rest = body.rest();

        let v = match body.next_u64() {
            Ok(v) => v,
            Err(e) => {
                return Err(TxError::Rlp(e));
            },
        };
        let r = match body.next_u256() {
            Ok(r) => r,
            Err(e) => {
                return Err(TxError::Rlp(e));
            },
        };
        let s = match body.next_u256() {
            Ok(s) => s,
            Err(e) => {
                return Err(TxError::Rlp(e));
            },
        };
        match body.finish() {
            Ok(()) => {},
            Err(e) => {
                return Err(TxError::Rlp(e));
            },
        }

        // Pre-EIP-155 uses 27/28 and signs six fields; EIP-155 folds the chain
        // id into v and signs those six plus `chain_id, 0, 0`.
        let (chain_id, y_parity): (Option<u64>, bool) = if v == 27 || v == 28 {
            (None, v == 28)
        } else if v >= 35 {
            (Some((v - 35) / 2), (v - 35) % 2 == 1)
        } else {
            return Err(TxError::BadRecoveryId(v));
        };

        let mut tail: Vec<u8> = Vec::new();
        if let Some(chain_id) = chain_id {
            encode_u64(chain_id, &mut tail);
            tail.push(0x80);
            tail.push(0x80);
        }
        assert(tail@ =~= legacy_tail(number_view(chain_id)));
        let buf = body.buf();
        let signed_items = slice_subrange(buf, 0, signed_len);
        assert(signed_items@ =~= front_of(all, rest));
        proof {
            // The signature is no shorter than what takes its place, so the
            // preimage is no longer than the transaction.
            assert(buf.len() <= usize::MAX);
            let b7 = rlp::after_item(rest);
            let b8 = rlp::after_item(b7);
            rlp::read_uint_is_canonical(rest, 8);
            rlp::item_len_bound(b7);
            rlp::item_len_bound(b8);
            if let Some(chain_id) = chain_id {
                num::lemma_pow256_values();
                rlp::encode_uint_len_monotonic(chain_id as nat, v as nat);
            }
            assert(signed_items@.len() + tail@.len() <= buf@.len());
        }
        let signing_hash = signing_hash_of(signed_items, &tail);

        let tx = Self {
            hash: keccak(raw),
            tx_type: TxType::Legacy,
            chain_id,
            nonce,
            gas_limit,
            max_fee_per_gas: gas_price,
            max_priority_fee_per_gas: gas_price,
            to,
            value,
            input: Bytes(slice_to_vec(input)),
            access_list: Vec::new(),
            authorization_list: Vec::new(),
            signature: Signature { y_parity, r, s },
            signing_hash,
            raw: Bytes(slice_to_vec(raw)),
        };
        assert(tx@.access_list =~= Seq::<AccessListItemView>::empty());
        assert(tx@.authorization_list =~= Seq::<AuthorizationView>::empty());
        Ok(tx)
    }

    fn decode_typed(type_byte: u8, raw: &[u8]) -> (out: Result<Self, TxError>)
        requires
            raw@.len() > 0,
            raw@[0] == type_byte,
        ensures
            result_view(out) == match typed_of_byte(type_byte) {
                None => Err(TxError::UnsupportedType(type_byte)),
                Some(tx_type) => match read_only_list(raw@.skip(1)) {
                    Err(e) => Err(TxError::Rlp(e)),
                    Ok(body) => read_typed_body(raw@, tx_type, body),
                },
            },
    {
        let tx_type = match type_byte {
            0x01 => TxType::AccessList,
            0x02 => TxType::DynamicFee,
            0x04 => TxType::SetCode,
            other => {
                return Err(TxError::UnsupportedType(other));
            },
        };
        proof {
            reveal(read_typed_body);
        }

        let envelope = slice_subrange(raw, 1, raw.len());
        assert(envelope@ =~= raw@.skip(1));
        let mut outer = Rlp::new(envelope);
        let mut body = match outer.next_list() {
            Ok(body) => body,
            Err(e) => {
                return Err(TxError::Rlp(e));
            },
        };
        match outer.finish() {
            Ok(()) => {},
            Err(e) => {
                return Err(TxError::Rlp(e));
            },
        }
        let ghost all = body.rest();

        let head = match decode_typed_head(tx_type, &mut body) {
            Ok(head) => head,
            Err(e) => {
                return Err(TxError::Rlp(e));
            },
        };
        let call = match decode_typed_call(tx_type, &mut body) {
            Ok(call) => call,
            Err(e) => {
                return Err(TxError::Rlp(e));
            },
        };
        // Where the signature starts is also where the signed payload ends.
        let signed_len = body.consumed();
        let ghost rest = body.rest();
        let signature = match decode_typed_signature(&mut body) {
            Ok(signature) => signature,
            Err(e) => {
                return Err(e);
            },
        };

        let signed_items = slice_subrange(body.buf(), 0, signed_len);
        assert(signed_items@ =~= front_of(all, rest));
        let mut preimage: Vec<u8> = Vec::new();
        preimage.push(type_byte);
        encode_list_header(signed_items.len(), &mut preimage);
        preimage.extend_from_slice(signed_items);
        assert(preimage@ =~= seq![type_byte] + rlp::encode_list(signed_items@));

        Ok(
            Self {
                hash: keccak(raw),
                tx_type,
                chain_id: Some(head.chain_id),
                nonce: head.nonce,
                gas_limit: head.gas_limit,
                max_fee_per_gas: head.max_fee_per_gas,
                max_priority_fee_per_gas: head.max_priority_fee_per_gas,
                to: call.to,
                value: call.value,
                input: Bytes(slice_to_vec(call.input)),
                access_list: call.access_list,
                authorization_list: call.authorization_list,
                signature,
                signing_hash: keccak(preimage.as_slice()),
                raw: Bytes(slice_to_vec(raw)),
            },
        )
    }

    /// The first four bytes of the call data, if there are that many.
    ///
    /// This is the function selector for a normal contract call, and the
    /// cheapest way to filter a feed down to the calls you care about.
    #[must_use]
    pub fn selector(&self) -> (out: Option<[u8; 4]>)
        ensures
            out is Some <==> self.input@.len() >= 4,
            out matches Some(selector) ==> selector@ == self.input@.take(4),
    {
        if self.input.0.len() < 4 {
            return None;
        }
        let front = slice_subrange(self.input.0.as_slice(), 0, 4);
        assert(front@ =~= self.input@.take(4));
        Some(array_of::<4>(front))
    }
}

/// The hash of a list of `signed_items` and then `tail`.
fn signing_hash_of(signed_items: &[u8], tail: &Vec<u8>) -> (out: B256)
    requires
        signed_items@.len() + tail@.len() <= usize::MAX,
    ensures
        out@ == keccak::keccak256(rlp::encode_list(signed_items@ + tail@)),
{
    let mut preimage: Vec<u8> = Vec::new();
    encode_list_header(signed_items.len() + tail.len(), &mut preimage);
    preimage.extend_from_slice(signed_items);
    preimage.extend_from_slice(tail.as_slice());
    assert(preimage@ =~= rlp::encode_list(signed_items@ + tail@));
    keccak(preimage.as_slice())
}

/// What is wrong with a transaction is said in one form for each sort, with the
/// type in hexadecimal, the number in decimal, or the cause in its own words.
pub proof fn tx_errors_are_said_in_one_form(
    e: &TxError,
    said: String,
    cause: String,
    f: &TxError,
    also: String,
    other_cause: String,
)
    requires
        call_ensures(TxError::to_string, (e,), said),
        call_ensures(TxError::to_string, (f,), also),
        *e matches TxError::Rlp(rlp) ==> call_ensures(RlpError::to_string, (&rlp,), cause),
        *f matches TxError::Rlp(rlp) ==> call_ensures(RlpError::to_string, (&rlp,), other_cause),
    ensures
        match (*e, *f) {
            (TxError::UnsupportedType(a), TxError::UnsupportedType(b)) => text::same_form(
                said@,
                seq![
                    text::digit_char((a / 16) as nat),
                    text::digit_char((a % 16) as nat),
                ],
                Seq::empty(),
                also@,
                seq![
                    text::digit_char((b / 16) as nat),
                    text::digit_char((b % 16) as nat),
                ],
                Seq::empty(),
            ),
            (TxError::Rlp(_), TxError::Rlp(_)) => text::same_form(
                said@,
                cause@,
                Seq::empty(),
                also@,
                other_cause@,
                Seq::empty(),
            ),
            (TxError::BadRecoveryId(a), TxError::BadRecoveryId(b)) => text::same_form(
                said@,
                text::digits(a as nat, 10),
                Seq::empty(),
                also@,
                text::digits(b as nat, 10),
                Seq::empty(),
            ),
            (TxError::BadParity(a), TxError::BadParity(b)) => text::same_form(
                said@,
                text::digits(a as nat, 10),
                Seq::empty(),
                also@,
                text::digits(b as nat, 10),
                Seq::empty(),
            ),
            _ => true,
        },
{
    let none = Seq::<char>::empty();
    let (front, x, y) = match (*e, *f) {
        (TxError::UnsupportedType(a), TxError::UnsupportedType(b)) => {
            let x = seq![text::digit_char((a / 16) as nat), text::digit_char((a % 16) as nat)];
            let y = seq![text::digit_char((b / 16) as nat), text::digit_char((b % 16) as nat)];
            assert(hex::hex_text(seq![a]) =~= x);
            assert(hex::hex_text(seq![b]) =~= y);
            ("unsupported transaction type 0x"@, x, y)
        },
        (TxError::Rlp(_), TxError::Rlp(_)) => (
            "malformed transaction RLP: "@,
            cause@,
            other_cause@,
        ),
        (TxError::BadRecoveryId(a), TxError::BadRecoveryId(b)) => (
            "legacy transaction has an out-of-range v: "@,
            text::digits(a as nat, 10),
            text::digits(b as nat, 10),
        ),
        (TxError::BadParity(a), TxError::BadParity(b)) => (
            "yParity must be 0 or 1, got "@,
            text::digits(a as nat, 10),
            text::digits(b as nat, 10),
        ),
        _ => (none, none, none),
    };
    text::lemma_same_form(front, none, none, x, none, y, none);
    if !(e is Empty) && !(f is Empty) {
        match (*e, *f) {
            (TxError::UnsupportedType(_), TxError::UnsupportedType(_))
            | (TxError::Rlp(_), TxError::Rlp(_))
            | (TxError::BadRecoveryId(_), TxError::BadRecoveryId(_))
            | (TxError::BadParity(_), TxError::BadParity(_)) => {
                assert(said@ =~= front + x + none + none + none);
                assert(also@ =~= front + y + none + none + none);
            },
            _ => {},
        }
    }
}

/// A transaction is looked at as it is, field by field, and so are its parts.
pub proof fn transactions_are_looked_at_as_they_are(
    tx: Transaction,
    item: AccessListItem,
    authorization: Authorization,
    signature: Signature,
)
    ensures
        tx@.hash == tx.hash.0@,
        tx@.tx_type == tx.tx_type,
        tx.chain_id is None ==> tx@.chain_id is None,
        tx.chain_id matches Some(id) ==> tx@.chain_id == Some(id as nat),
        tx@.nonce == tx.nonce,
        tx@.gas_limit == tx.gas_limit,
        tx@.max_fee_per_gas == tx.max_fee_per_gas,
        tx@.max_priority_fee_per_gas == tx.max_priority_fee_per_gas,
        tx.to is None ==> tx@.to is None,
        tx.to matches Some(to) ==> tx@.to == Some(to.0@),
        tx@.value == tx.value@,
        tx@.input == tx.input.0@,
        tx@.access_list.len() == tx.access_list@.len(),
        forall|i: int|
            0 <= i < tx.access_list@.len() ==> #[trigger] tx@.access_list[i]
                == tx.access_list@[i]@,
        tx@.authorization_list.len() == tx.authorization_list@.len(),
        forall|i: int|
            0 <= i < tx.authorization_list@.len() ==> #[trigger] tx@.authorization_list[i]
                == tx.authorization_list@[i]@,
        tx@.signature == tx.signature@,
        tx@.signing_hash == tx.signing_hash.0@,
        tx@.raw == tx.raw.0@,
        item@.address == item.address.0@,
        item@.storage_keys.len() == item.storage_keys@.len(),
        forall|i: int|
            0 <= i < item.storage_keys@.len() ==> #[trigger] item@.storage_keys[i]
                == item.storage_keys@[i].0@,
        authorization@.chain_id == authorization.chain_id@,
        authorization@.address == authorization.address.0@,
        authorization@.nonce == authorization.nonce,
        authorization@.signature == authorization.signature@,
        signature@.y_parity == signature.y_parity,
        signature@.r == signature.r@,
        signature@.s == signature.s@,
{
}

/// What decoding gives is what the bytes encode, or why they encode nothing.
pub proof fn decoding_reads_the_bytes(raw: &[u8], out: Result<Transaction, TxError>)
    requires
        call_ensures(Transaction::decode, (raw,), out),
    ensures
        match out {
            Ok(tx) => read_transaction(raw@) == Ok::<TransactionView, TxError>(tx@),
            Err(e) => read_transaction(raw@) == Err::<TransactionView, TxError>(e),
        },
{
    assert(result_view(out) == read_transaction(raw@));
}

} // verus!
