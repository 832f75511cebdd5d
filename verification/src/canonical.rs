//! The one encoding of each transaction.
//!
//! Decoding is strict so that a transaction's hash is the hash of its fields:
//! whatever decodes was the canonical encoding of what it decoded to, and
//! every canonical encoding decodes. This module writes that encoding down and
//! states both directions.

use vstd::prelude::*;

use crate::keccak;
use crate::num;
use crate::rlp;
use crate::rlp::{Item, RlpError};
use crate::tx;
use crate::tx::{
    AccessListItemView, AuthorizationView, SignatureView, TransactionView, TxType, TypedCallView,
    TypedHeadView,
};

verus! {

/// A recipient; the empty string stands for none.
pub open spec fn encode_recipient(to: Option<Seq<u8>>) -> Seq<u8> {
    match to {
        Some(address) => rlp::encode_bytes(address),
        None => rlp::encode_bytes(Seq::empty()),
    }
}

/// Storage keys, one behind the other.
pub open spec fn encode_keys(keys: Seq<Seq<u8>>) -> Seq<u8>
    decreases keys.len(),
{
    if keys.len() == 0 {
        Seq::empty()
    } else {
        rlp::encode_bytes(keys[0]) + encode_keys(keys.drop_first())
    }
}

/// One access list entry.
pub open spec fn encode_access_entry(entry: AccessListItemView) -> Seq<u8> {
    rlp::encode_list(
        rlp::encode_bytes(entry.address) + rlp::encode_list(encode_keys(entry.storage_keys)),
    )
}

/// Access list entries, one behind the other.
pub open spec fn encode_access_entries(entries: Seq<AccessListItemView>) -> Seq<u8>
    decreases entries.len(),
{
    if entries.len() == 0 {
        Seq::empty()
    } else {
        encode_access_entry(entries[0]) + encode_access_entries(entries.drop_first())
    }
}

/// A parity bit as the number it is written as.
pub open spec fn parity_number(odd: bool) -> nat {
    if odd {
        1
    } else {
        0
    }
}

/// One authorization.
pub open spec fn encode_authorization(entry: AuthorizationView) -> Seq<u8> {
    rlp::encode_list(
        rlp::encode_uint(entry.chain_id) + rlp::encode_bytes(entry.address) + rlp::encode_uint(
            entry.nonce,
        ) + encode_signature(parity_number(entry.signature.y_parity), entry.signature),
    )
}

/// Authorizations, one behind the other.
pub open spec fn encode_authorizations(entries: Seq<AuthorizationView>) -> Seq<u8>
    decreases entries.len(),
{
    if entries.len() == 0 {
        Seq::empty()
    } else {
        encode_authorization(entries[0]) + encode_authorizations(entries.drop_first())
    }
}

/// A signature behind the number that carries its parity.
pub open spec fn encode_signature(v: nat, signature: SignatureView) -> Seq<u8> {
    rlp::encode_uint(v) + rlp::encode_uint(signature.r) + rlp::encode_uint(signature.s)
}

/// The six fields of a legacy transaction.
pub open spec fn encode_legacy_fields(tx: TransactionView) -> Seq<u8> {
    rlp::encode_uint(tx.nonce) + rlp::encode_uint(tx.max_fee_per_gas) + rlp::encode_uint(
        tx.gas_limit,
    ) + encode_recipient(tx.to) + rlp::encode_uint(tx.value) + rlp::encode_bytes(tx.input)
}

/// The first fields of a typed transaction.
pub open spec fn encode_typed_head(tx_type: TxType, head: TypedHeadView) -> Seq<u8> {
    let front = rlp::encode_uint(head.chain_id) + rlp::encode_uint(head.nonce);
    let back = rlp::encode_uint(head.max_fee_per_gas) + rlp::encode_uint(head.gas_limit);
    if tx_type == TxType::AccessList {
        front + back
    } else {
        front + rlp::encode_uint(head.max_priority_fee_per_gas) + back
    }
}

/// What a typed transaction calls.
pub open spec fn encode_typed_call(tx_type: TxType, call: TypedCallView) -> Seq<u8> {
    let front = encode_recipient(call.to) + rlp::encode_uint(call.value) + rlp::encode_bytes(
        call.input,
    ) + rlp::encode_list(encode_access_entries(call.access_list));
    if tx_type == TxType::SetCode {
        front + rlp::encode_list(encode_authorizations(call.authorization_list))
    } else {
        front
    }
}

/// The first fields of a transaction that has them.
pub open spec fn head_of(tx: TransactionView) -> TypedHeadView {
    TypedHeadView {
        chain_id: tx.chain_id->Some_0,
        nonce: tx.nonce,
        max_priority_fee_per_gas: tx.max_priority_fee_per_gas,
        max_fee_per_gas: tx.max_fee_per_gas,
        gas_limit: tx.gas_limit,
    }
}

/// What a transaction calls.
pub open spec fn call_of(tx: TransactionView) -> TypedCallView {
    TypedCallView {
        to: tx.to,
        value: tx.value,
        input: tx.input,
        access_list: tx.access_list,
        authorization_list: tx.authorization_list,
    }
}

/// The fields of a typed transaction that its signature covers.
pub open spec fn encode_typed_fields(tx: TransactionView) -> Seq<u8> {
    encode_typed_head(tx.tx_type, head_of(tx)) + encode_typed_call(tx.tx_type, call_of(tx))
}

/// The legacy `v`: 27 or 28, or the chain id folded into it as EIP-155 has it.
pub open spec fn v_of(chain_id: Option<nat>, odd: bool) -> nat {
    match chain_id {
        None => 27 + parity_number(odd),
        Some(chain_id) => 35 + 2 * chain_id + parity_number(odd),
    }
}

/// The contents of the list that a transaction is.
pub open spec fn encode_body(tx: TransactionView) -> Seq<u8> {
    if tx.tx_type == TxType::Legacy {
        encode_legacy_fields(tx) + encode_signature(
            v_of(tx.chain_id, tx.signature.y_parity),
            tx.signature,
        )
    } else {
        encode_typed_fields(tx) + encode_signature(
            parity_number(tx.signature.y_parity),
            tx.signature,
        )
    }
}

/// The canonical encoding of a transaction. It depends on the fields alone,
/// not on the hashes nor on the bytes it was read from.
pub open spec fn encode_transaction(tx: TransactionView) -> Seq<u8> {
    if tx.tx_type == TxType::Legacy {
        rlp::encode_list(encode_body(tx))
    } else {
        seq![tx::type_byte(tx.tx_type)] + rlp::encode_list(encode_body(tx))
    }
}

/// What the sender of a transaction signed, before hashing.
pub open spec fn signing_payload(tx: TransactionView) -> Seq<u8> {
    if tx.tx_type == TxType::Legacy {
        rlp::encode_list(encode_legacy_fields(tx) + tx::legacy_tail(tx.chain_id))
    } else {
        seq![tx::type_byte(tx.tx_type)] + rlp::encode_list(encode_typed_fields(tx))
    }
}

/// Whether every authorization in `s` writes its parity as 0 or 1.
pub open spec fn plain_parities(s: Seq<u8>) -> bool
    decreases s.len(),
{
    if s.len() == 0 || rlp::read_list(s) is Err {
        true
    } else {
        proof {
            rlp::item_len_bound(s);
        }
        let parity = rlp::read_uint(rlp::after_items(rlp::read_list(s)->Ok_0, 3), 8);
        &&& parity is Ok ==> parity->Ok_0 <= 1
        &&& plain_parities(rlp::after_item(s))
    }
}

/// The contents of the authorization list of the transaction `raw`, which is
/// one of the type that has them.
pub open spec fn authorizations_in(raw: Seq<u8>) -> Seq<u8> {
    let body = tx::read_only_list(raw.skip(1))->Ok_0;
    rlp::read_list(rlp::after_items(rlp::after_items(body, 5), 4))->Ok_0
}

/// Whether the fields of `tx` are within the widths they are written in.
pub open spec fn fields_fit(tx: TransactionView) -> bool {
    &&& tx.nonce < num::pow256(8)
    &&& tx.gas_limit < num::pow256(8)
    &&& tx.max_fee_per_gas < num::pow256(16)
    &&& tx.max_priority_fee_per_gas < num::pow256(16)
    &&& tx.value < num::pow256(32)
    &&& tx.signature.r < num::pow256(32)
    &&& tx.signature.s < num::pow256(32)
    &&& tx.to is Some ==> tx.to->Some_0.len() == 20
    &&& forall|i: int|
        0 <= i < tx.access_list.len() ==> access_entry_fits(#[trigger] tx.access_list[i])
    &&& forall|i: int|
        0 <= i < tx.authorization_list.len() ==> authorization_fits(
            #[trigger] tx.authorization_list[i],
        )
}

/// Whether an access list entry has an address and keys of the right widths.
pub open spec fn access_entry_fits(entry: AccessListItemView) -> bool {
    &&& entry.address.len() == 20
    &&& forall|i: int|
        0 <= i < entry.storage_keys.len() ==> (#[trigger] entry.storage_keys[i]).len() == 32
}

/// Whether an authorization is within the widths its fields are written in.
pub open spec fn authorization_fits(entry: AuthorizationView) -> bool {
    &&& entry.chain_id < num::pow256(32)
    &&& entry.address.len() == 20
    &&& entry.nonce < num::pow256(8)
    &&& entry.signature.r < num::pow256(32)
    &&& entry.signature.s < num::pow256(32)
}

/// Whether `tx` has the fields its type has, and no others.
pub open spec fn fields_of_type(tx: TransactionView) -> bool {
    match tx.tx_type {
        TxType::Legacy => {
            &&& tx.max_priority_fee_per_gas == tx.max_fee_per_gas
            &&& tx.access_list.len() == 0
            &&& tx.authorization_list.len() == 0
            &&& v_of(tx.chain_id, tx.signature.y_parity) < num::pow256(8)
        },
        TxType::AccessList => {
            &&& tx.max_priority_fee_per_gas == tx.max_fee_per_gas
            &&& tx.authorization_list.len() == 0
            &&& tx.chain_id is Some
            &&& tx.chain_id->Some_0 < num::pow256(8)
        },
        TxType::DynamicFee => {
            &&& tx.authorization_list.len() == 0
            &&& tx.chain_id is Some
            &&& tx.chain_id->Some_0 < num::pow256(8)
        },
        TxType::SetCode => {
            &&& tx.to is Some
            &&& tx.chain_id is Some
            &&& tx.chain_id->Some_0 < num::pow256(8)
        },
    }
}

/// One item more in front of what is left to read.
proof fn lemma_step(all: Seq<u8>, front: Seq<u8>, at: Seq<u8>, item: Seq<u8>, rest: Seq<u8>)
    requires
        all == front + at,
        at == item + rest,
    ensures
        all == (front + item) + rest,
{
    assert(all =~= (front + item) + rest);
}

/// A signature that read, behind a number `v`, was its canonical encoding.
proof fn lemma_signature_canonical(at: Seq<u8>, v: nat, signature: SignatureView)
    requires
        rlp::read_uint(at, 8) == Ok::<nat, RlpError>(v),
        rlp::read_uint(rlp::after_item(at), 32) == Ok::<nat, RlpError>(signature.r),
        rlp::read_uint(rlp::after_items(at, 2), 32) == Ok::<nat, RlpError>(signature.s),
        rlp::after_items(at, 3).len() == 0,
    ensures
        at == encode_signature(v, signature),
{
    reveal_with_fuel(rlp::after_items, 4);
    let b1 = rlp::after_item(at);
    let b2 = rlp::after_item(b1);
    let b3 = rlp::after_item(b2);
    rlp::read_uint_is_canonical(at, 8);
    rlp::read_uint_is_canonical(b1, 32);
    rlp::read_uint_is_canonical(b2, 32);
    lemma_step(at, rlp::encode_uint(v), b1, rlp::encode_uint(signature.r), b2);
    lemma_step(
        at,
        rlp::encode_uint(v) + rlp::encode_uint(signature.r),
        b2,
        rlp::encode_uint(signature.s),
        b3,
    );
    assert(at =~= encode_signature(v, signature));
}

/// Keys that read were their canonical encodings.
proof fn lemma_keys_canonical(s: Seq<u8>)
    requires
        tx::read_keys(s) is Ok,
    ensures
        s == encode_keys(tx::read_keys(s)->Ok_0),
    decreases s.len(),
{
    if s.len() > 0 {
        rlp::read_item_is_canonical(s);
        let rest = rlp::after_item(s);
        lemma_keys_canonical(rest);
        let keys = tx::read_keys(s)->Ok_0;
        assert(keys.drop_first() =~= tx::read_keys(rest)->Ok_0);
    }
}

/// An access list entry that read was its canonical encoding.
proof fn lemma_access_entry_canonical(s: Seq<u8>)
    requires
        tx::read_access_entry(s) is Ok,
    ensures
        s == encode_access_entry(tx::read_access_entry(s)->Ok_0) + rlp::after_item(s),
{
    rlp::read_item_is_canonical(s);
    let entry = rlp::read_list(s)->Ok_0;
    rlp::read_item_is_canonical(entry);
    let b1 = rlp::after_item(entry);
    rlp::read_item_is_canonical(b1);
    lemma_keys_canonical(rlp::read_list(b1)->Ok_0);
    let b2 = rlp::after_item(b1);
    assert(b1 =~= rlp::encode_list(rlp::read_list(b1)->Ok_0));
}

/// Access list entries that read were their canonical encodings.
proof fn lemma_access_entries_canonical(s: Seq<u8>)
    requires
        tx::read_access_entries(s) is Ok,
    ensures
        s == encode_access_entries(tx::read_access_entries(s)->Ok_0),
    decreases s.len(),
{
    if s.len() > 0 {
        rlp::item_len_bound(s);
        lemma_access_entry_canonical(s);
        let rest = rlp::after_item(s);
        lemma_access_entries_canonical(rest);
        let entries = tx::read_access_entries(s)->Ok_0;
        assert(entries.drop_first() =~= tx::read_access_entries(rest)->Ok_0);
    }
}

/// An authorization that read, with its parity written as 0 or 1, was its
/// canonical encoding.
proof fn lemma_authorization_canonical(s: Seq<u8>)
    requires
        tx::read_authorization(s) is Ok,
        rlp::read_uint(rlp::after_items(rlp::read_list(s)->Ok_0, 3), 8)->Ok_0 <= 1,
    ensures
        s == encode_authorization(tx::read_authorization(s)->Ok_0) + rlp::after_item(s),
{
    reveal_with_fuel(rlp::after_items, 4);
    rlp::read_item_is_canonical(s);
    let b0 = rlp::read_list(s)->Ok_0;
    let b1 = rlp::after_item(b0);
    let b2 = rlp::after_item(b1);
    let b3 = rlp::after_item(b2);
    rlp::read_uint_is_canonical(b0, 32);
    rlp::read_item_is_canonical(b1);
    rlp::read_uint_is_canonical(b2, 8);
    let entry = tx::read_authorization(s)->Ok_0;
    let parity = parity_number(entry.signature.y_parity);
    lemma_signature_canonical(b3, parity, entry.signature);
    let chain_id = rlp::encode_uint(entry.chain_id);
    let address = rlp::encode_bytes(entry.address);
    lemma_step(b0, chain_id, b1, address, b2);
    lemma_step(b0, chain_id + address, b2, rlp::encode_uint(entry.nonce), b3);
}

/// Authorizations that read, with their parities written as 0 or 1, were their
/// canonical encodings.
proof fn lemma_authorizations_canonical(s: Seq<u8>)
    requires
        tx::read_authorizations(s) is Ok,
        plain_parities(s),
    ensures
        s == encode_authorizations(tx::read_authorizations(s)->Ok_0),
    decreases s.len(),
{
    if s.len() > 0 {
        reveal_with_fuel(rlp::after_items, 4);
        rlp::item_len_bound(s);
        lemma_authorization_canonical(s);
        let rest = rlp::after_item(s);
        lemma_authorizations_canonical(rest);
        let entries = tx::read_authorizations(s)->Ok_0;
        assert(entries.drop_first() =~= tx::read_authorizations(rest)->Ok_0);
    }
}

/// First fields that read were their canonical encoding.
proof fn lemma_typed_head_canonical(tx_type: TxType, body: Seq<u8>)
    requires
        tx::read_typed_head(tx_type, body) is Ok,
    ensures
        body == encode_typed_head(tx_type, tx::read_typed_head(tx_type, body)->Ok_0)
            + rlp::after_items(body, tx::typed_head_items(tx_type)),
{
    reveal_with_fuel(rlp::after_items, 6);
    let head = tx::read_typed_head(tx_type, body)->Ok_0;
    let b1 = rlp::after_item(body);
    let b2 = rlp::after_item(b1);
    let b3 = if tx_type == TxType::AccessList {
        b2
    } else {
        rlp::after_item(b2)
    };
    let b4 = rlp::after_item(b3);
    rlp::read_uint_is_canonical(body, 8);
    rlp::read_uint_is_canonical(b1, 8);
    rlp::read_uint_is_canonical(b2, 16);
    rlp::read_uint_is_canonical(b3, 16);
    rlp::read_uint_is_canonical(b4, 8);
    let b5 = rlp::after_item(b4);
    let chain_id = rlp::encode_uint(head.chain_id);
    let nonce = rlp::encode_uint(head.nonce);
    let priority_fee = rlp::encode_uint(head.max_priority_fee_per_gas);
    let max_fee = rlp::encode_uint(head.max_fee_per_gas);
    let gas_limit = rlp::encode_uint(head.gas_limit);
    lemma_step(body, chain_id, b1, nonce, b2);
    lemma_step(b3, max_fee, b4, gas_limit, b5);
    if tx_type == TxType::AccessList {
        lemma_step(body, chain_id + nonce, b3, max_fee + gas_limit, b5);
    } else {
        lemma_step(body, chain_id + nonce, b2, priority_fee, b3);
        lemma_step(body, chain_id + nonce + priority_fee, b3, max_fee + gas_limit, b5);
    }
}

/// A call that read was its canonical encoding.
proof fn lemma_typed_call_canonical(tx_type: TxType, s: Seq<u8>)
    requires
        tx::read_typed_call(tx_type, s) is Ok,
        tx_type == TxType::SetCode ==> plain_parities(
            rlp::read_list(rlp::after_items(s, 4))->Ok_0,
        ),
    ensures
        s == encode_typed_call(tx_type, tx::read_typed_call(tx_type, s)->Ok_0)
            + rlp::after_items(s, tx::typed_call_items(tx_type)),
{
    reveal_with_fuel(rlp::after_items, 6);
    let call = tx::read_typed_call(tx_type, s)->Ok_0;
    let b1 = rlp::after_item(s);
    let b2 = rlp::after_item(b1);
    let b3 = rlp::after_item(b2);
    let b4 = rlp::after_item(b3);
    rlp::read_item_is_canonical(s);
    rlp::read_uint_is_canonical(b1, 32);
    rlp::read_item_is_canonical(b2);
    rlp::read_item_is_canonical(b3);
    lemma_access_entries_canonical(rlp::read_list(b3)->Ok_0);
    assert(rlp::read_bytes(s)->Ok_0.len() == 0 ==> rlp::read_bytes(s)->Ok_0 =~= Seq::empty());
    assert(s == encode_recipient(call.to) + b1);
    let to = encode_recipient(call.to);
    let value = rlp::encode_uint(call.value);
    let input = rlp::encode_bytes(call.input);
    let access_list = rlp::encode_list(encode_access_entries(call.access_list));
    lemma_step(s, to, b1, value, b2);
    lemma_step(s, to + value, b2, input, b3);
    lemma_step(s, to + value + input, b3, access_list, b4);
    if tx_type == TxType::SetCode {
        rlp::read_item_is_canonical(b4);
        lemma_authorizations_canonical(rlp::read_list(b4)->Ok_0);
        lemma_step(
            s,
            to + value + input + access_list,
            b4,
            rlp::encode_list(encode_authorizations(call.authorization_list)),
            rlp::after_item(b4),
        );
    }
}

/// A typed transaction that read was its canonical encoding.
proof fn lemma_typed_body_canonical(raw: Seq<u8>, tx_type: TxType, body: Seq<u8>)
    requires
        tx_type != TxType::Legacy,
        tx::read_typed_body(raw, tx_type, body) is Ok,
        tx_type == TxType::SetCode ==> plain_parities(
            rlp::read_list(rlp::after_items(rlp::after_items(body, 5), 4))->Ok_0,
        ),
    ensures
        body == encode_body(tx::read_typed_body(raw, tx_type, body)->Ok_0),
        tx::read_typed_body(raw, tx_type, body)->Ok_0.signing_hash == keccak::keccak256(
            signing_payload(tx::read_typed_body(raw, tx_type, body)->Ok_0),
        ),
{
    reveal(tx::read_typed_body);
    let out = tx::read_typed_body(raw, tx_type, body)->Ok_0;
    let call_at = rlp::after_items(body, tx::typed_head_items(tx_type));
    let signature_at = rlp::after_items(call_at, tx::typed_call_items(tx_type));
    lemma_typed_head_canonical(tx_type, body);
    lemma_typed_call_canonical(tx_type, call_at);
    assert(head_of(out) == tx::read_typed_head(tx_type, body)->Ok_0);
    assert(call_of(out) == tx::read_typed_call(tx_type, call_at)->Ok_0);
    assert(body =~= encode_typed_fields(out) + signature_at);
    assert(tx::front_of(body, signature_at) =~= encode_typed_fields(out));
    reveal_with_fuel(rlp::after_items, 4);
    lemma_signature_canonical(
        signature_at,
        parity_number(out.signature.y_parity),
        out.signature,
    );
}

/// A legacy transaction that read was its canonical encoding.
proof fn lemma_legacy_body_canonical(raw: Seq<u8>, body: Seq<u8>)
    requires
        tx::read_legacy_body(raw, body) is Ok,
    ensures
        body == encode_body(tx::read_legacy_body(raw, body)->Ok_0),
        tx::read_legacy_body(raw, body)->Ok_0.signing_hash == keccak::keccak256(
            signing_payload(tx::read_legacy_body(raw, body)->Ok_0),
        ),
{
    reveal(tx::read_legacy_body);
    let out = tx::read_legacy_body(raw, body)->Ok_0;
    let b1 = rlp::after_item(body);
    let b2 = rlp::after_item(b1);
    let b3 = rlp::after_item(b2);
    let b4 = rlp::after_item(b3);
    let b5 = rlp::after_item(b4);
    let b6 = rlp::after_item(b5);
    rlp::read_uint_is_canonical(body, 8);
    rlp::read_uint_is_canonical(b1, 16);
    rlp::read_uint_is_canonical(b2, 8);
    rlp::read_item_is_canonical(b3);
    rlp::read_uint_is_canonical(b4, 32);
    rlp::read_item_is_canonical(b5);
    assert(rlp::read_bytes(b3)->Ok_0.len() == 0 ==> rlp::read_bytes(b3)->Ok_0 =~= Seq::empty());
    assert(b3 == encode_recipient(out.to) + b4);
    assert(v_of(out.chain_id, out.signature.y_parity) == rlp::read_uint(b6, 8)->Ok_0);
    let nonce = rlp::encode_uint(out.nonce);
    let gas_price = rlp::encode_uint(out.max_fee_per_gas);
    let gas_limit = rlp::encode_uint(out.gas_limit);
    let to = encode_recipient(out.to);
    let value = rlp::encode_uint(out.value);
    let input = rlp::encode_bytes(out.input);
    lemma_step(body, nonce, b1, gas_price, b2);
    lemma_step(body, nonce + gas_price, b2, gas_limit, b3);
    lemma_step(body, nonce + gas_price + gas_limit, b3, to, b4);
    lemma_step(body, nonce + gas_price + gas_limit + to, b4, value, b5);
    lemma_step(body, nonce + gas_price + gas_limit + to + value, b5, input, b6);
    assert(body == encode_legacy_fields(out) + b6);
    reveal_with_fuel(rlp::after_items, 4);
    lemma_signature_canonical(
        b6,
        v_of(out.chain_id, out.signature.y_parity),
        out.signature,
    );
    assert(tx::front_of(body, b6) =~= encode_legacy_fields(out));
}

/// Whatever decodes was the canonical encoding of the fields it decoded to,
/// so the transaction's hash is the hash of its fields, and what was signed is
/// their canonical encoding too. An authorization whose parity is written as
/// something other than 0 or 1 is left out: it decodes as an even one.
pub proof fn decoded_is_canonical(raw: Seq<u8>)
    requires
        tx::read_transaction(raw) is Ok,
        tx::read_transaction(raw)->Ok_0.tx_type == TxType::SetCode ==> plain_parities(
            authorizations_in(raw),
        ),
    ensures
        ({
            let tx = tx::read_transaction(raw)->Ok_0;
            &&& encode_transaction(tx) == raw
            &&& tx.raw == raw
            &&& tx.hash == keccak::keccak256(encode_transaction(tx))
            &&& tx.signing_hash == keccak::keccak256(signing_payload(tx))
        }),
{
    reveal(tx::read_legacy_body);
    reveal(tx::read_typed_body);
    if raw[0] >= 0xc0 {
        rlp::read_item_is_canonical(raw);
        let body = tx::read_only_list(raw)->Ok_0;
        lemma_legacy_body_canonical(raw, body);
        assert(raw =~= rlp::encode_list(body));
    } else {
        let envelope = raw.skip(1);
        rlp::read_item_is_canonical(envelope);
        let body = tx::read_only_list(envelope)->Ok_0;
        let tx_type = tx::typed_of_byte(raw[0])->Some_0;
        lemma_typed_body_canonical(raw, tx_type, body);
        assert(envelope =~= rlp::encode_list(body));
        assert(raw =~= seq![raw[0]] + envelope);
    }
}

/// Whether two transactions have the same fields, whatever their hashes and
/// the bytes they were read from.
pub open spec fn same_fields(a: TransactionView, b: TransactionView) -> bool {
    a == (TransactionView { hash: a.hash, signing_hash: a.signing_hash, raw: a.raw, ..b })
}

/// No two byte strings decode to transactions with the same fields, so what a
/// transaction says and the hash it goes by belong to one string of bytes.
pub proof fn decoding_is_injective(a: Seq<u8>, b: Seq<u8>)
    requires
        tx::read_transaction(a) is Ok,
        tx::read_transaction(b) is Ok,
        tx::read_transaction(a)->Ok_0.tx_type == TxType::SetCode ==> plain_parities(
            authorizations_in(a),
        ),
        tx::read_transaction(b)->Ok_0.tx_type == TxType::SetCode ==> plain_parities(
            authorizations_in(b),
        ),
        same_fields(tx::read_transaction(a)->Ok_0, tx::read_transaction(b)->Ok_0),
    ensures
        a == b,
{
    decoded_is_canonical(a);
    decoded_is_canonical(b);
}

/// Two items in front of a tail, one at a time.
proof fn lemma_regroup2(a: Seq<u8>, b: Seq<u8>, tail: Seq<u8>)
    ensures
        (a + b) + tail == a + (b + tail),
{
    assert((a + b) + tail =~= a + (b + tail));
}

/// Three items in front of a tail, one at a time.
proof fn lemma_regroup3(a: Seq<u8>, b: Seq<u8>, c: Seq<u8>, tail: Seq<u8>)
    ensures
        (a + b + c) + tail == a + (b + (c + tail)),
{
    assert((a + b + c) + tail =~= a + (b + (c + tail)));
}

/// Keys of the right width read back.
proof fn lemma_keys_read_back(keys: Seq<Seq<u8>>)
    requires
        forall|i: int| 0 <= i < keys.len() ==> (#[trigger] keys[i]).len() == 32,
    ensures
        tx::read_keys(encode_keys(keys)) == Ok::<Seq<Seq<u8>>, RlpError>(keys),
    decreases keys.len(),
{
    if keys.len() > 0 {
        let rest = keys.drop_first();
        num::lemma_pow256_values();
        rlp::encoded_item_reads_back(Item { is_list: false, payload: keys[0] }, encode_keys(rest));
        lemma_keys_read_back(rest);
        assert(keys =~= seq![keys[0]] + rest);
        assert(encode_keys(keys).len() > 0);
    } else {
        assert(keys =~= Seq::empty());
    }
}

/// An access list entry that fits reads back.
proof fn lemma_access_entry_reads_back(entry: AccessListItemView, tail: Seq<u8>)
    requires
        access_entry_fits(entry),
        encode_access_entry(entry).len() < num::pow256(8),
    ensures
        tx::read_access_entry(encode_access_entry(entry) + tail) == Ok::<
            AccessListItemView,
            RlpError,
        >(entry),
        rlp::after_item(encode_access_entry(entry) + tail) == tail,
        encode_access_entry(entry).len() > 0,
{
    let keys = encode_keys(entry.storage_keys);
    let address = rlp::encode_bytes(entry.address);
    let payload = address + rlp::encode_list(keys);
    rlp::encoded_item_reads_back(Item { is_list: true, payload }, tail);
    num::lemma_pow256_values();
    rlp::encoded_item_reads_back(
        Item { is_list: false, payload: entry.address },
        rlp::encode_list(keys),
    );
    rlp::encoded_item_reads_back(Item { is_list: true, payload: keys }, Seq::empty());
    assert(rlp::encode_list(keys) + Seq::<u8>::empty() =~= rlp::encode_list(keys));
    lemma_keys_read_back(entry.storage_keys);
}

/// Access list entries that fit read back.
proof fn lemma_access_entries_read_back(entries: Seq<AccessListItemView>)
    requires
        forall|i: int| 0 <= i < entries.len() ==> access_entry_fits(#[trigger] entries[i]),
        encode_access_entries(entries).len() < num::pow256(8),
    ensures
        tx::read_access_entries(encode_access_entries(entries)) == Ok::<
            Seq<AccessListItemView>,
            RlpError,
        >(entries),
    decreases entries.len(),
{
    if entries.len() > 0 {
        let rest = entries.drop_first();
        lemma_access_entry_reads_back(entries[0], encode_access_entries(rest));
        lemma_access_entries_read_back(rest);
        assert(entries =~= seq![entries[0]] + rest);
    } else {
        assert(entries =~= Seq::empty());
    }
}

/// A signature that fits reads back, behind a number `v`.
proof fn lemma_signature_reads_back(v: nat, signature: SignatureView)
    requires
        v < num::pow256(8),
        signature.r < num::pow256(32),
        signature.s < num::pow256(32),
    ensures
        ({
            let at = encode_signature(v, signature);
            &&& rlp::read_uint(at, 8) == Ok::<nat, RlpError>(v)
            &&& rlp::read_uint(rlp::after_item(at), 32) == Ok::<nat, RlpError>(signature.r)
            &&& rlp::read_uint(rlp::after_items(at, 2), 32) == Ok::<nat, RlpError>(signature.s)
            &&& rlp::after_items(at, 3).len() == 0
        }),
{
    reveal_with_fuel(rlp::after_items, 4);
    let a = rlp::encode_uint(v);
    let b = rlp::encode_uint(signature.r);
    let c = rlp::encode_uint(signature.s);
    let none = Seq::<u8>::empty();
    lemma_regroup3(a, b, c, none);
    assert((a + b + c) + none =~= a + b + c);
    rlp::encoded_uint_reads_back(v, 8, b + (c + none));
    rlp::encoded_uint_reads_back(signature.r, 32, c + none);
    rlp::encoded_uint_reads_back(signature.s, 32, none);
}

/// An authorization that fits reads back.
proof fn lemma_authorization_reads_back(entry: AuthorizationView, tail: Seq<u8>)
    requires
        authorization_fits(entry),
        encode_authorization(entry).len() < num::pow256(8),
    ensures
        tx::read_authorization(encode_authorization(entry) + tail) == Ok::<
            AuthorizationView,
            RlpError,
        >(entry),
        rlp::after_item(encode_authorization(entry) + tail) == tail,
        encode_authorization(entry).len() > 0,
{
    reveal_with_fuel(rlp::after_items, 4);
    num::lemma_pow256_values();
    let parity = parity_number(entry.signature.y_parity);
    let a = rlp::encode_uint(entry.chain_id);
    let b = rlp::encode_bytes(entry.address);
    let c = rlp::encode_uint(entry.nonce);
    let d = encode_signature(parity, entry.signature);
    rlp::encoded_item_reads_back(Item { is_list: true, payload: a + b + c + d }, tail);
    lemma_regroup3(a, b, c, d);
    rlp::encoded_uint_reads_back(entry.chain_id, 32, b + (c + d));
    rlp::encoded_item_reads_back(Item { is_list: false, payload: entry.address }, c + d);
    rlp::encoded_uint_reads_back(entry.nonce, 8, d);
    lemma_signature_reads_back(parity, entry.signature);
}

/// Authorizations that fit read back.
proof fn lemma_authorizations_read_back(entries: Seq<AuthorizationView>)
    requires
        forall|i: int| 0 <= i < entries.len() ==> authorization_fits(#[trigger] entries[i]),
        encode_authorizations(entries).len() < num::pow256(8),
    ensures
        tx::read_authorizations(encode_authorizations(entries)) == Ok::<
            Seq<AuthorizationView>,
            RlpError,
        >(entries),
    decreases entries.len(),
{
    if entries.len() > 0 {
        let rest = entries.drop_first();
        lemma_authorization_reads_back(entries[0], encode_authorizations(rest));
        lemma_authorizations_read_back(rest);
        assert(entries =~= seq![entries[0]] + rest);
    } else {
        assert(entries =~= Seq::empty());
    }
}

/// First fields that fit read back.
proof fn lemma_typed_head_reads_back(tx: TransactionView, tail: Seq<u8>)
    requires
        fields_fit(tx),
        fields_of_type(tx),
        tx.tx_type != TxType::Legacy,
    ensures
        ({
            let at = encode_typed_head(tx.tx_type, head_of(tx)) + tail;
            &&& tx::read_typed_head(tx.tx_type, at) == Ok::<TypedHeadView, RlpError>(head_of(tx))
            &&& rlp::after_items(at, tx::typed_head_items(tx.tx_type)) == tail
        }),
{
    reveal_with_fuel(rlp::after_items, 6);
    let head = head_of(tx);
    let a = rlp::encode_uint(head.chain_id);
    let b = rlp::encode_uint(head.nonce);
    let c = rlp::encode_uint(head.max_priority_fee_per_gas);
    let d = rlp::encode_uint(head.max_fee_per_gas);
    let e = rlp::encode_uint(head.gas_limit);
    let end = d + (e + tail);
    lemma_regroup2(d, e, tail);
    rlp::encoded_uint_reads_back(head.max_fee_per_gas, 16, e + tail);
    rlp::encoded_uint_reads_back(head.gas_limit, 8, tail);
    if tx.tx_type == TxType::AccessList {
        lemma_regroup3(a, b, d + e, tail);
        rlp::encoded_uint_reads_back(head.chain_id, 8, b + end);
        rlp::encoded_uint_reads_back(head.nonce, 8, end);
    } else {
        lemma_regroup2(a + b + c, d + e, tail);
        lemma_regroup3(a, b, c, end);
        rlp::encoded_uint_reads_back(head.chain_id, 8, b + (c + end));
        rlp::encoded_uint_reads_back(head.nonce, 8, c + end);
        rlp::encoded_uint_reads_back(head.max_priority_fee_per_gas, 16, end);
    }
}

/// A recipient reads back.
proof fn lemma_recipient_reads_back(tx_type: TxType, to: Option<Seq<u8>>, tail: Seq<u8>)
    requires
        to is Some ==> to->Some_0.len() == 20,
        tx_type == TxType::SetCode ==> to is Some,
    ensures
        tx::read_recipient(tx_type, encode_recipient(to) + tail) == Ok::<
            Option<Seq<u8>>,
            RlpError,
        >(to),
        rlp::after_item(encode_recipient(to) + tail) == tail,
{
    num::lemma_pow256_values();
    let payload = match to {
        Some(address) => address,
        None => Seq::empty(),
    };
    rlp::encoded_item_reads_back(Item { is_list: false, payload }, tail);
}

/// A call that fits reads back.
proof fn lemma_typed_call_reads_back(tx: TransactionView, tail: Seq<u8>)
    requires
        fields_fit(tx),
        fields_of_type(tx),
        tx.tx_type != TxType::Legacy,
        encode_typed_call(tx.tx_type, call_of(tx)).len() < num::pow256(8),
    ensures
        ({
            let at = encode_typed_call(tx.tx_type, call_of(tx)) + tail;
            &&& tx::read_typed_call(tx.tx_type, at) == Ok::<TypedCallView, RlpError>(call_of(tx))
            &&& rlp::after_items(at, tx::typed_call_items(tx.tx_type)) == tail
        }),
{
    reveal_with_fuel(rlp::after_items, 6);
    let call = call_of(tx);
    let entries = encode_access_entries(call.access_list);
    let authorizations = encode_authorizations(call.authorization_list);
    let a = encode_recipient(call.to);
    let b = rlp::encode_uint(call.value);
    let c = rlp::encode_bytes(call.input);
    let d = rlp::encode_list(entries);
    let e = rlp::encode_list(authorizations);
    let end = if tx.tx_type == TxType::SetCode {
        e + tail
    } else {
        tail
    };
    lemma_regroup2(a + b + c, d, end);
    lemma_regroup3(a, b, c, d + end);
    lemma_access_entries_read_back(call.access_list);
    rlp::encoded_item_reads_back(Item { is_list: true, payload: entries }, end);
    rlp::encoded_item_reads_back(Item { is_list: false, payload: call.input }, d + end);
    rlp::encoded_uint_reads_back(call.value, 32, c + (d + end));
    lemma_recipient_reads_back(tx.tx_type, call.to, b + (c + (d + end)));
    if tx.tx_type == TxType::SetCode {
        lemma_authorizations_read_back(call.authorization_list);
        rlp::encoded_item_reads_back(Item { is_list: true, payload: authorizations }, tail);
        lemma_regroup2(a + b + c + d, e, tail);
    } else {
        assert(call.authorization_list =~= Seq::empty());
    }
}

/// A transaction whose fields fit decodes from its canonical encoding to just
/// those fields, with the hash of that encoding and the hash of what its
/// sender signed.
pub proof fn canonical_encoding_decodes(tx: TransactionView)
    requires
        fields_fit(tx),
        fields_of_type(tx),
        encode_body(tx).len() < num::pow256(8),
    ensures
        tx::read_transaction(encode_transaction(tx)) == Ok::<TransactionView, tx::TxError>(
            TransactionView {
                hash: keccak::keccak256(encode_transaction(tx)),
                signing_hash: keccak::keccak256(signing_payload(tx)),
                raw: encode_transaction(tx),
                ..tx
            },
        ),
{
    let raw = encode_transaction(tx);
    let body = encode_body(tx);
    let list = rlp::encode_list(body);
    let none = Seq::<u8>::empty();
    rlp::encoded_item_reads_back(Item { is_list: true, payload: body }, none);
    assert(list + none =~= list);
    assert(list.len() > 0 && list[0] >= 0xc0) by {
        num::lemma_be_bytes_len(body.len(), 8);
    }
    if tx.tx_type == TxType::Legacy {
        lemma_legacy_body_reads_back(tx);
    } else {
        assert(raw.skip(1) =~= list);
        lemma_typed_body_reads_back(tx);
    }
}

/// The body of a typed transaction reads back.
proof fn lemma_typed_body_reads_back(tx: TransactionView)
    requires
        fields_fit(tx),
        fields_of_type(tx),
        tx.tx_type != TxType::Legacy,
        encode_body(tx).len() < num::pow256(8),
    ensures
        tx::read_typed_body(encode_transaction(tx), tx.tx_type, encode_body(tx)) == Ok::<
            TransactionView,
            tx::TxError,
        >(
            TransactionView {
                hash: keccak::keccak256(encode_transaction(tx)),
                signing_hash: keccak::keccak256(signing_payload(tx)),
                raw: encode_transaction(tx),
                ..tx
            },
        ),
{
    reveal(tx::read_typed_body);
    reveal_with_fuel(rlp::after_items, 4);
    num::lemma_pow256_values();
    let parity = parity_number(tx.signature.y_parity);
    let head = encode_typed_head(tx.tx_type, head_of(tx));
    let call = encode_typed_call(tx.tx_type, call_of(tx));
    let signature = encode_signature(parity, tx.signature);
    let body = encode_body(tx);
    assert(body =~= head + (call + signature));
    lemma_typed_head_reads_back(tx, call + signature);
    lemma_typed_call_reads_back(tx, signature);
    lemma_signature_reads_back(parity, tx.signature);
    assert(tx::front_of(body, signature) =~= encode_typed_fields(tx));
}

/// The body of a legacy transaction reads back.
proof fn lemma_legacy_body_reads_back(tx: TransactionView)
    requires
        fields_fit(tx),
        fields_of_type(tx),
        tx.tx_type == TxType::Legacy,
        encode_body(tx).len() < num::pow256(8),
    ensures
        tx::read_legacy_body(encode_transaction(tx), encode_body(tx)) == Ok::<
            TransactionView,
            tx::TxError,
        >(
            TransactionView {
                hash: keccak::keccak256(encode_transaction(tx)),
                signing_hash: keccak::keccak256(signing_payload(tx)),
                raw: encode_transaction(tx),
                ..tx
            },
        ),
{
    reveal(tx::read_legacy_body);
    reveal_with_fuel(rlp::after_items, 4);
    let v = v_of(tx.chain_id, tx.signature.y_parity);
    let a = rlp::encode_uint(tx.nonce);
    let b = rlp::encode_uint(tx.max_fee_per_gas);
    let c = rlp::encode_uint(tx.gas_limit);
    let d = encode_recipient(tx.to);
    let e = rlp::encode_uint(tx.value);
    let f = rlp::encode_bytes(tx.input);
    let signature = encode_signature(v, tx.signature);
    let body = encode_body(tx);
    let end = d + (e + (f + signature));
    lemma_regroup2(a + b + c + d + e, f, signature);
    lemma_regroup3(a + b + c, d, e, f + signature);
    lemma_regroup3(a, b, c, end);
    rlp::encoded_uint_reads_back(tx.nonce, 8, b + (c + end));
    rlp::encoded_uint_reads_back(tx.max_fee_per_gas, 16, c + end);
    rlp::encoded_uint_reads_back(tx.gas_limit, 8, end);
    lemma_recipient_reads_back(tx.tx_type, tx.to, e + (f + signature));
    rlp::encoded_uint_reads_back(tx.value, 32, f + signature);
    rlp::encoded_item_reads_back(Item { is_list: false, payload: tx.input }, signature);
    lemma_signature_reads_back(v, tx.signature);
    assert(tx::legacy_v(v) == Some((tx.chain_id, tx.signature.y_parity)));
    assert(tx::front_of(body, signature) =~= encode_legacy_fields(tx));
    assert(tx.access_list =~= Seq::empty());
    assert(tx.authorization_list =~= Seq::empty());
}

/// What decoded has the fields of its type, and all of them fit: no more can be
/// decoded than can be encoded.
pub proof fn decoded_fits(raw: &[u8], out: Result<tx::Transaction, tx::TxError>)
    requires
        call_ensures(tx::Transaction::decode, (raw,), out),
    ensures
        out matches Ok(tx) ==> {
            &&& tx.tx_type == TxType::Legacy || tx.tx_type == TxType::AccessList
                ==> tx.max_priority_fee_per_gas == tx.max_fee_per_gas
            &&& tx.tx_type == TxType::Legacy ==> tx.access_list@.len() == 0
            &&& tx.tx_type != TxType::SetCode ==> tx.authorization_list@.len() == 0
            &&& tx.tx_type == TxType::SetCode ==> tx.to is Some
            &&& tx.tx_type != TxType::Legacy ==> tx.chain_id is Some
            &&& tx.raw@ == raw@
            &&& tx.hash@ == keccak::keccak256(raw@)
        },
{
    reveal(tx::read_legacy_body);
    reveal(tx::read_typed_body);
    if let Ok(tx) = out {
        assert(tx@ == tx::read_transaction(raw@)->Ok_0);
        assert(tx@.access_list.len() == tx.access_list@.len());
        assert(tx@.authorization_list.len() == tx.authorization_list@.len());
    }
}

/// The first byte decides what a transaction is: none is no transaction, a list
/// is a legacy one, 1, 2 and 4 are the types they are numbered as, and anything
/// else is refused by its number.
pub proof fn first_byte_decides(raw: &[u8], out: Result<tx::Transaction, tx::TxError>)
    requires
        call_ensures(tx::Transaction::decode, (raw,), out),
    ensures
        raw@.len() == 0 <==> out == Err::<tx::Transaction, tx::TxError>(tx::TxError::Empty),
        raw@.len() > 0 ==> {
            let byte = raw@[0];
            let known = byte == 1 || byte == 2 || byte == 4 || byte >= 0xc0;
            &&& !known ==> out == Err::<tx::Transaction, tx::TxError>(
                tx::TxError::UnsupportedType(byte),
            )
            &&& known ==> !(out matches Err(tx::TxError::UnsupportedType(_)))
            &&& out matches Ok(tx) ==> {
                &&& tx.tx_type == TxType::Legacy <==> byte >= 0xc0
                &&& tx.tx_type == TxType::AccessList <==> byte == 1
                &&& tx.tx_type == TxType::DynamicFee <==> byte == 2
                &&& tx.tx_type == TxType::SetCode <==> byte == 4
            }
        },
{
    reveal(tx::read_legacy_body);
    reveal(tx::read_typed_body);
    assert(tx::result_view(out) == tx::read_transaction(raw@));
}

/// A type goes by the number that it is announced with; legacy goes by zero.
pub proof fn types_have_their_numbers(tx_type: TxType, byte: u8)
    requires
        call_ensures(TxType::as_byte, (tx_type,), byte),
    ensures
        tx_type == TxType::Legacy <==> byte == 0,
        tx_type == TxType::AccessList <==> byte == 1,
        tx_type == TxType::DynamicFee <==> byte == 2,
        tx_type == TxType::SetCode <==> byte == 4,
{
}

/// A transaction whose encoding is followed by anything is refused.
pub proof fn nothing_may_follow(body: Seq<u8>, byte: u8, tail: Seq<u8>)
    requires
        body.len() < num::pow256(8),
        tail.len() > 0,
        byte == 1 || byte == 2 || byte == 4,
    ensures
        tx::read_transaction(rlp::encode_list(body) + tail) == Err::<TransactionView, tx::TxError>(
            tx::TxError::Rlp(RlpError::TrailingItems),
        ),
        tx::read_transaction(seq![byte] + (rlp::encode_list(body) + tail)) == Err::<
            TransactionView,
            tx::TxError,
        >(tx::TxError::Rlp(RlpError::TrailingItems)),
{
    rlp::encoded_item_reads_back(Item { is_list: true, payload: body }, tail);
    let list = rlp::encode_list(body);
    assert(list.len() > 0 && list[0] >= 0xc0) by {
        num::lemma_be_bytes_len(body.len(), 8);
    }
    assert((list + tail)[0] == list[0]);
    assert((seq![byte] + (list + tail)).skip(1) =~= list + tail);
}

/// A legacy transaction whose `v` is neither 27 nor 28 and below 35 is refused
/// with that `v`.
pub proof fn bad_recovery_id_is_refused(tx: TransactionView, v: nat)
    requires
        fields_fit(tx),
        v < 27 || 28 < v < 35,
        (encode_legacy_fields(tx) + encode_signature(v, tx.signature)).len() < num::pow256(8),
    ensures
        tx::read_transaction(
            rlp::encode_list(encode_legacy_fields(tx) + encode_signature(v, tx.signature)),
        ) == Err::<TransactionView, tx::TxError>(tx::TxError::BadRecoveryId(v as u64)),
{
    reveal(tx::read_legacy_body);
    reveal_with_fuel(rlp::after_items, 4);
    num::lemma_pow256_values();
    let a = rlp::encode_uint(tx.nonce);
    let b = rlp::encode_uint(tx.max_fee_per_gas);
    let c = rlp::encode_uint(tx.gas_limit);
    let d = encode_recipient(tx.to);
    let e = rlp::encode_uint(tx.value);
    let f = rlp::encode_bytes(tx.input);
    let signature = encode_signature(v, tx.signature);
    let body = encode_legacy_fields(tx) + signature;
    let list = rlp::encode_list(body);
    let none = Seq::<u8>::empty();
    rlp::encoded_item_reads_back(Item { is_list: true, payload: body }, none);
    assert(list + none =~= list);
    assert(list.len() > 0 && list[0] >= 0xc0) by {
        num::lemma_be_bytes_len(body.len(), 8);
    }
    let end = d + (e + (f + signature));
    lemma_regroup2(a + b + c + d + e, f, signature);
    lemma_regroup3(a + b + c, d, e, f + signature);
    lemma_regroup3(a, b, c, end);
    rlp::encoded_uint_reads_back(tx.nonce, 8, b + (c + end));
    rlp::encoded_uint_reads_back(tx.max_fee_per_gas, 16, c + end);
    rlp::encoded_uint_reads_back(tx.gas_limit, 8, end);
    lemma_recipient_reads_back(TxType::Legacy, tx.to, e + (f + signature));
    rlp::encoded_uint_reads_back(tx.value, 32, f + signature);
    rlp::encoded_item_reads_back(Item { is_list: false, payload: tx.input }, signature);
    lemma_signature_reads_back(v, tx.signature);
}

/// A typed transaction whose parity is neither 0 nor 1 is refused with that
/// parity.
pub proof fn bad_parity_is_refused(tx: TransactionView, parity: nat)
    requires
        fields_fit(tx),
        fields_of_type(tx),
        tx.tx_type != TxType::Legacy,
        1 < parity < num::pow256(8),
        (encode_typed_fields(tx) + encode_signature(parity, tx.signature)).len() < num::pow256(8),
    ensures
        tx::read_transaction(
            seq![tx::type_byte(tx.tx_type)] + rlp::encode_list(
                encode_typed_fields(tx) + encode_signature(parity, tx.signature),
            ),
        ) == Err::<TransactionView, tx::TxError>(tx::TxError::BadParity(parity as u64)),
{
    reveal(tx::read_typed_body);
    reveal_with_fuel(rlp::after_items, 4);
    let head = encode_typed_head(tx.tx_type, head_of(tx));
    let call = encode_typed_call(tx.tx_type, call_of(tx));
    let signature = encode_signature(parity, tx.signature);
    let body = encode_typed_fields(tx) + signature;
    let list = rlp::encode_list(body);
    let raw = seq![tx::type_byte(tx.tx_type)] + list;
    let none = Seq::<u8>::empty();
    rlp::encoded_item_reads_back(Item { is_list: true, payload: body }, none);
    assert(list + none =~= list);
    assert(raw.skip(1) =~= list);
    assert(body =~= head + (call + signature));
    lemma_typed_head_reads_back(tx, call + signature);
    lemma_typed_call_reads_back(tx, signature);
    lemma_signature_reads_back(parity, tx.signature);
}

/// An authorization reads with all its fields whatever its parity is written
/// as, and only 1 is odd.
pub proof fn only_one_is_odd(entry: AuthorizationView, parity: nat, tail: Seq<u8>)
    requires
        authorization_fits(entry),
        parity < num::pow256(8),
    ensures
        ({
            let fields = rlp::encode_uint(entry.chain_id) + rlp::encode_bytes(entry.address)
                + rlp::encode_uint(entry.nonce) + encode_signature(parity, entry.signature);
            fields.len() < num::pow256(8) ==> tx::read_authorization(
                rlp::encode_list(fields) + tail,
            ) == Ok::<AuthorizationView, RlpError>(
                AuthorizationView {
                    signature: SignatureView { y_parity: parity == 1, ..entry.signature },
                    ..entry
                },
            )
        }),
{
    reveal_with_fuel(rlp::after_items, 4);
    num::lemma_pow256_values();
    let a = rlp::encode_uint(entry.chain_id);
    let b = rlp::encode_bytes(entry.address);
    let c = rlp::encode_uint(entry.nonce);
    let d = encode_signature(parity, entry.signature);
    let fields = a + b + c + d;
    if fields.len() < num::pow256(8) {
        rlp::encoded_item_reads_back(Item { is_list: true, payload: fields }, tail);
        lemma_regroup3(a, b, c, d);
        rlp::encoded_uint_reads_back(entry.chain_id, 32, b + (c + d));
        rlp::encoded_item_reads_back(Item { is_list: false, payload: entry.address }, c + d);
        rlp::encoded_uint_reads_back(entry.nonce, 8, d);
        lemma_signature_reads_back(parity, entry.signature);
    }
}

/// What a transaction's fields are written as: in this order, and with what
/// EIP-155 has signed behind those of a legacy one.
pub proof fn fields_are_written_in_order(tx: TransactionView)
    ensures
        tx.tx_type == TxType::Legacy ==> encode_transaction(tx) == rlp::encode_list(
            encode_legacy_fields(tx) + rlp::encode_uint(
                match tx.chain_id {
                    Some(id) => 35 + 2 * id + if tx.signature.y_parity {
                        1nat
                    } else {
                        0nat
                    },
                    None => if tx.signature.y_parity {
                        28nat
                    } else {
                        27nat
                    },
                } as nat,
            ) + rlp::encode_uint(tx.signature.r) + rlp::encode_uint(tx.signature.s),
        ),
        tx.tx_type == TxType::Legacy ==> signing_payload(tx) == rlp::encode_list(
            encode_legacy_fields(tx) + match tx.chain_id {
                Some(id) => rlp::encode_uint(id) + rlp::encode_uint(0) + rlp::encode_uint(0),
                None => Seq::empty(),
            },
        ),
{
    if tx.tx_type == TxType::Legacy {
        let v = v_of(tx.chain_id, tx.signature.y_parity);
        let fields = encode_legacy_fields(tx);
        let r = rlp::encode_uint(tx.signature.r);
        let s = rlp::encode_uint(tx.signature.s);
        assert(fields + (rlp::encode_uint(v) + r + s) =~= fields + rlp::encode_uint(v) + r + s);
        assert(rlp::encode_uint(0) =~= seq![0x80u8]) by {
            assert(num::be_bytes(0) =~= Seq::empty());
        }
        if let Some(id) = tx.chain_id {
            assert(rlp::encode_uint(id) + seq![0x80u8, 0x80u8] =~= rlp::encode_uint(id)
                + rlp::encode_uint(0) + rlp::encode_uint(0));
        }
    }
}

/// The selector is the first four bytes of the call data, if there are as many.
pub proof fn selector_leads_the_call(tx: &tx::Transaction, out: Option<[u8; 4]>)
    requires
        call_ensures(tx::Transaction::selector, (tx,), out),
    ensures
        out is Some <==> tx.input@.len() >= 4,
        out matches Some(selector) ==> forall|i: int|
            0 <= i < 4 ==> #[trigger] selector@[i] == tx.input@[i],
{
    if let Some(selector) = out {
        assert forall|i: int| 0 <= i < 4 implies #[trigger] selector@[i] == tx.input@[i] by {
            assert(tx.input@.take(4)[i] == tx.input@[i]);
        }
    }
}

/// The items of a legacy transaction, by their place.
pub open spec fn legacy_item(tx: TransactionView, v: nat, place: int) -> Seq<u8> {
    if place == 0 {
        rlp::encode_uint(tx.nonce)
    } else if place == 1 {
        rlp::encode_uint(tx.max_fee_per_gas)
    } else if place == 2 {
        rlp::encode_uint(tx.gas_limit)
    } else if place == 3 {
        encode_recipient(tx.to)
    } else if place == 4 {
        rlp::encode_uint(tx.value)
    } else if place == 5 {
        rlp::encode_bytes(tx.input)
    } else if place == 6 {
        rlp::encode_uint(v)
    } else if place == 7 {
        rlp::encode_uint(tx.signature.r)
    } else {
        rlp::encode_uint(tx.signature.s)
    }
}

/// The items of a legacy transaction from one place up to another, and then
/// `rest`.
pub open spec fn legacy_items(
    tx: TransactionView,
    v: nat,
    from: int,
    to: int,
    rest: Seq<u8>,
) -> Seq<u8>
    decreases to - from,
{
    if from >= to {
        rest
    } else {
        legacy_item(tx, v, from) + legacy_items(tx, v, from + 1, to, rest)
    }
}

/// Why the item at the front of `s` cannot be the one at a place of a legacy
/// transaction, if it cannot.
pub open spec fn legacy_fault(place: int, s: Seq<u8>) -> Option<RlpError> {
    if place == 3 {
        match rlp::read_address_opt(s) {
            Ok(_) => None,
            Err(e) => Some(e),
        }
    } else if place == 5 {
        match rlp::read_bytes(s) {
            Ok(_) => None,
            Err(e) => Some(e),
        }
    } else {
        let width: nat = if place == 0 || place == 2 || place == 6 {
            8
        } else if place == 1 {
            16
        } else {
            32
        };
        match rlp::read_uint(s, width) {
            Ok(_) => None,
            Err(e) => Some(e),
        }
    }
}

/// A legacy transaction is refused for the first of its items that is not what
/// it should be, whatever comes behind, and for any item too many.
pub proof fn first_bad_item_is_the_reason(
    tx: TransactionView,
    v: nat,
    place: int,
    rest: Seq<u8>,
    raw: Seq<u8>,
)
    requires
        fields_fit(tx),
        v < num::pow256(8),
        0 <= place <= 9,
        place < 9 ==> legacy_fault(place, rest) is Some,
        place == 9 ==> rest.len() > 0,
        legacy_items(tx, v, 0, place, rest).len() < num::pow256(8),
        raw == rlp::encode_list(legacy_items(tx, v, 0, place, rest)),
    ensures
        tx::read_transaction(raw) == Err::<TransactionView, tx::TxError>(
            tx::TxError::Rlp(
                if place < 9 {
                    legacy_fault(place, rest)->Some_0
                } else {
                    RlpError::TrailingItems
                },
            ),
        ),
{
    reveal(tx::read_legacy_body);
    num::lemma_pow256_values();
    let body = legacy_items(tx, v, 0, place, rest);
    let none = Seq::<u8>::empty();
    rlp::encoded_item_reads_back(Item { is_list: true, payload: body }, none);
    assert(raw + none =~= raw);
    assert(raw.len() > 0 && raw[0] >= 0xc0) by {
        num::lemma_be_bytes_len(body.len(), 8);
    }
    let at1 = legacy_items(tx, v, 1, place, rest);
    let at2 = legacy_items(tx, v, 2, place, rest);
    let at3 = legacy_items(tx, v, 3, place, rest);
    let at4 = legacy_items(tx, v, 4, place, rest);
    let at5 = legacy_items(tx, v, 5, place, rest);
    let at6 = legacy_items(tx, v, 6, place, rest);
    let at7 = legacy_items(tx, v, 7, place, rest);
    let at8 = legacy_items(tx, v, 8, place, rest);
    let at9 = legacy_items(tx, v, 9, place, rest);
    rlp::encoded_uint_reads_back(tx.nonce, 8, at1);
    rlp::encoded_uint_reads_back(tx.max_fee_per_gas, 16, at2);
    rlp::encoded_uint_reads_back(tx.gas_limit, 8, at3);
    lemma_recipient_reads_back(TxType::Legacy, tx.to, at4);
    rlp::encoded_uint_reads_back(tx.value, 32, at5);
    if place > 5 {
        assert(at5 == rlp::encode_bytes(tx.input) + at6);
        lemma_tail_shorter(tx, v, place, rest);
        rlp::encoded_item_reads_back(Item { is_list: false, payload: tx.input }, at6);
    }
    rlp::encoded_uint_reads_back(v, 8, at7);
    rlp::encoded_uint_reads_back(tx.signature.r, 32, at8);
    rlp::encoded_uint_reads_back(tx.signature.s, 32, at9);
}

/// The call data is no longer than all items together.
proof fn lemma_tail_shorter(tx: TransactionView, v: nat, place: int, rest: Seq<u8>)
    requires
        5 < place <= 9,
    ensures
        tx.input.len() <= legacy_items(tx, v, 0, place, rest).len(),
{
    reveal_with_fuel(legacy_items, 8);
    assert(rlp::encode_bytes(tx.input).len() >= tx.input.len());
}

/// The items of a typed transaction in front of its signature, by their place.
/// One that prices gas with a single field has no item for the tip, and only
/// one that sets code has an item for authorizations.
pub open spec fn typed_item(tx: TransactionView, place: int) -> Seq<u8> {
    let shift: int = if tx.tx_type == TxType::AccessList {
        1
    } else {
        0
    };
    if place == 0 {
        rlp::encode_uint(tx.chain_id->Some_0)
    } else if place == 1 {
        rlp::encode_uint(tx.nonce)
    } else if place == 2 && shift == 0 {
        rlp::encode_uint(tx.max_priority_fee_per_gas)
    } else if place == 3 - shift {
        rlp::encode_uint(tx.max_fee_per_gas)
    } else if place == 4 - shift {
        rlp::encode_uint(tx.gas_limit)
    } else if place == 5 - shift {
        encode_recipient(tx.to)
    } else if place == 6 - shift {
        rlp::encode_uint(tx.value)
    } else if place == 7 - shift {
        rlp::encode_bytes(tx.input)
    } else if place == 8 - shift {
        rlp::encode_list(encode_access_entries(tx.access_list))
    } else {
        rlp::encode_list(encode_authorizations(tx.authorization_list))
    }
}

/// How many items a typed transaction has in front of its signature.
pub open spec fn typed_items_len(tx_type: TxType) -> int {
    if tx_type == TxType::AccessList {
        8
    } else if tx_type == TxType::DynamicFee {
        9
    } else {
        10
    }
}

/// The items of a typed transaction from one place on, and then `rest`.
pub open spec fn typed_items(tx: TransactionView, from: int, rest: Seq<u8>) -> Seq<u8>
    decreases typed_items_len(tx.tx_type) - from,
{
    if from >= typed_items_len(tx.tx_type) {
        rest
    } else {
        typed_item(tx, from) + typed_items(tx, from + 1, rest)
    }
}

/// The fields of a typed transaction are written in their order, each once:
/// what its sender signed is the type and the list of them, and the transaction
/// is the type and the list of them and the signature.
pub proof fn typed_fields_are_written_in_order(tx: TransactionView)
    requires
        tx.tx_type != TxType::Legacy,
    ensures
        signing_payload(tx) == seq![
            if tx.tx_type == TxType::AccessList {
                1u8
            } else if tx.tx_type == TxType::DynamicFee {
                2u8
            } else {
                4u8
            },
        ] + rlp::encode_list(typed_items(tx, 0, Seq::empty())),
        encode_transaction(tx) == seq![
            if tx.tx_type == TxType::AccessList {
                1u8
            } else if tx.tx_type == TxType::DynamicFee {
                2u8
            } else {
                4u8
            },
        ] + rlp::encode_list(
            typed_items(
                tx,
                0,
                rlp::encode_uint(
                    if tx.signature.y_parity {
                        1
                    } else {
                        0
                    },
                ) + rlp::encode_uint(tx.signature.r) + rlp::encode_uint(tx.signature.s),
            ),
        ),
{
    let none = Seq::<u8>::empty();
    let signature = encode_signature(parity_number(tx.signature.y_parity), tx.signature);
    lemma_typed_items(tx, none);
    lemma_typed_items(tx, signature);
    assert(encode_typed_fields(tx) + none =~= encode_typed_fields(tx));
}

proof fn lemma_typed_items(tx: TransactionView, rest: Seq<u8>)
    requires
        tx.tx_type != TxType::Legacy,
    ensures
        encode_typed_fields(tx) + rest == typed_items(tx, 0, rest),
{
    let a = rlp::encode_uint(tx.chain_id->Some_0);
    let b = rlp::encode_uint(tx.nonce);
    let c = rlp::encode_uint(tx.max_priority_fee_per_gas);
    let d = rlp::encode_uint(tx.max_fee_per_gas);
    let e = rlp::encode_uint(tx.gas_limit);
    let f = encode_recipient(tx.to);
    let g = rlp::encode_uint(tx.value);
    let h = rlp::encode_bytes(tx.input);
    let k = rlp::encode_list(encode_access_entries(tx.access_list));
    let l = rlp::encode_list(encode_authorizations(tx.authorization_list));
    let head = encode_typed_head(tx.tx_type, head_of(tx));
    let call = encode_typed_call(tx.tx_type, call_of(tx));
    let end = if tx.tx_type == TxType::SetCode {
        l + rest
    } else {
        rest
    };
    lemma_regroup2(head, call, rest);
    if tx.tx_type == TxType::SetCode {
        lemma_regroup2(f + g + h + k, l, rest);
    }
    lemma_regroup2(f + g + h, k, end);
    lemma_regroup3(f, g, h, k + end);
    assert(call + rest == f + (g + (h + (k + end))));
    let tail = call + rest;
    if tx.tx_type == TxType::AccessList {
        lemma_regroup2(a + b, d + e, tail);
        lemma_regroup2(d, e, tail);
        lemma_regroup2(a, b, d + (e + tail));
        assert(typed_items(tx, 8, rest) == rest);
        assert(typed_items(tx, 7, rest) == k + rest);
        assert(typed_items(tx, 6, rest) == h + (k + rest));
        assert(typed_items(tx, 5, rest) == g + (h + (k + rest)));
        assert(typed_items(tx, 4, rest) == tail);
        assert(typed_items(tx, 3, rest) == e + tail);
        assert(typed_items(tx, 2, rest) == d + (e + tail));
        assert(typed_items(tx, 1, rest) == b + (d + (e + tail)));
    } else {
        lemma_regroup2(a + b + c, d + e, tail);
        lemma_regroup2(d, e, tail);
        lemma_regroup3(a, b, c, d + (e + tail));
        if tx.tx_type == TxType::SetCode {
            assert(typed_items(tx, 10, rest) == rest);
        }
        assert(typed_items(tx, 9, rest) == end);
        assert(typed_items(tx, 8, rest) == k + end);
        assert(typed_items(tx, 7, rest) == h + (k + end));
        assert(typed_items(tx, 6, rest) == g + (h + (k + end)));
        assert(typed_items(tx, 5, rest) == tail);
        assert(typed_items(tx, 4, rest) == e + tail);
        assert(typed_items(tx, 3, rest) == d + (e + tail));
        assert(typed_items(tx, 2, rest) == c + (d + (e + tail)));
        assert(typed_items(tx, 1, rest) == b + (c + (d + (e + tail))));
    }
}

/// The fields of a legacy transaction are written in their order, each once.
pub proof fn legacy_fields_are_written_in_order(tx: TransactionView, v: nat)
    ensures
        encode_legacy_fields(tx) == legacy_items(tx, v, 0, 6, Seq::empty()),
        encode_legacy_fields(tx) + encode_signature(v, tx.signature) == legacy_items(
            tx,
            v,
            0,
            9,
            Seq::empty(),
        ),
{
    let none = Seq::<u8>::empty();
    lemma_legacy_items(tx, v, 6, none);
    assert(encode_legacy_fields(tx) + none =~= encode_legacy_fields(tx));
    let r = rlp::encode_uint(tx.signature.r);
    let s = rlp::encode_uint(tx.signature.s);
    let signature = encode_signature(v, tx.signature);
    lemma_regroup2(rlp::encode_uint(v), r, s);
    assert(legacy_items(tx, v, 9, 9, none) == none);
    assert(legacy_items(tx, v, 8, 9, none) == s + none);
    assert(s + none =~= s);
    assert(legacy_items(tx, v, 7, 9, none) == r + s);
    assert(legacy_items(tx, v, 6, 9, none) == signature);
    lemma_legacy_items(tx, v, 9, none);
}

proof fn lemma_legacy_items(tx: TransactionView, v: nat, to: int, rest: Seq<u8>)
    requires
        6 <= to,
    ensures
        legacy_items(tx, v, 0, to, rest) == encode_legacy_fields(tx) + legacy_items(
            tx,
            v,
            6,
            to,
            rest,
        ),
{
    let a = rlp::encode_uint(tx.nonce);
    let b = rlp::encode_uint(tx.max_fee_per_gas);
    let c = rlp::encode_uint(tx.gas_limit);
    let d = encode_recipient(tx.to);
    let e = rlp::encode_uint(tx.value);
    let f = rlp::encode_bytes(tx.input);
    let tail = legacy_items(tx, v, 6, to, rest);
    lemma_regroup2(a + b + c + d + e, f, tail);
    lemma_regroup3(a + b + c, d, e, f + tail);
    lemma_regroup3(a, b, c, d + (e + (f + tail)));
    assert(legacy_items(tx, v, 5, to, rest) == f + tail);
    assert(legacy_items(tx, v, 4, to, rest) == e + (f + tail));
    assert(legacy_items(tx, v, 3, to, rest) == d + (e + (f + tail)));
    assert(legacy_items(tx, v, 2, to, rest) == c + (d + (e + (f + tail))));
    assert(legacy_items(tx, v, 1, to, rest) == b + (c + (d + (e + (f + tail)))));
}

/// The items of a typed transaction by their place, its signature and all.
pub open spec fn signed_item(tx: TransactionView, place: int) -> Seq<u8> {
    let len = typed_items_len(tx.tx_type);
    if place < len {
        typed_item(tx, place)
    } else if place == len {
        rlp::encode_uint(parity_number(tx.signature.y_parity))
    } else if place == len + 1 {
        rlp::encode_uint(tx.signature.r)
    } else {
        rlp::encode_uint(tx.signature.s)
    }
}

/// The items of a typed transaction from one place up to another, and then
/// `rest`.
pub open spec fn signed_items(tx: TransactionView, from: int, to: int, rest: Seq<u8>) -> Seq<u8>
    decreases to - from,
{
    if from >= to {
        rest
    } else {
        signed_item(tx, from) + signed_items(tx, from + 1, to, rest)
    }
}

/// What is wrong with a number that has to fit in `width` bytes.
pub open spec fn uint_fault(s: Seq<u8>, width: nat) -> Option<tx::TxError> {
    match rlp::read_uint(s, width) {
        Ok(_) => None,
        Err(e) => Some(tx::TxError::Rlp(e)),
    }
}

/// Why the item at the front of `s` cannot be the one at a place of a typed
/// transaction, if it cannot; behind the last place, there cannot be any.
pub open spec fn typed_fault(tx_type: TxType, place: int, s: Seq<u8>) -> Option<tx::TxError> {
    let shift: int = if tx_type == TxType::AccessList {
        1
    } else {
        0
    };
    let len = typed_items_len(tx_type);
    if place == 0 || place == 1 || place == 4 - shift {
        uint_fault(s, 8)
    } else if place == 2 || place == 3 - shift {
        uint_fault(s, 16)
    } else if place == 5 - shift {
        match tx::read_recipient(tx_type, s) {
            Ok(_) => None,
            Err(e) => Some(tx::TxError::Rlp(e)),
        }
    } else if place == 6 - shift || place == len + 1 || place == len + 2 {
        uint_fault(s, 32)
    } else if place == 7 - shift {
        match rlp::read_bytes(s) {
            Ok(_) => None,
            Err(e) => Some(tx::TxError::Rlp(e)),
        }
    } else if place == 8 - shift {
        match tx::read_access_list(s) {
            Ok(_) => None,
            Err(e) => Some(tx::TxError::Rlp(e)),
        }
    } else if place < len {
        match tx::read_authorization_list(s) {
            Ok(_) => None,
            Err(e) => Some(tx::TxError::Rlp(e)),
        }
    } else if place == len {
        match rlp::read_uint(s, 8) {
            Ok(parity) => if parity > 1 {
                Some(tx::TxError::BadParity(parity as u64))
            } else {
                None
            },
            Err(e) => Some(tx::TxError::Rlp(e)),
        }
    } else if s.len() > 0 {
        Some(tx::TxError::Rlp(RlpError::TrailingItems))
    } else {
        None
    }
}

/// A typed transaction is refused for the first of its items that is not what
/// it should be, whatever comes behind, and for any item too many.
pub proof fn first_bad_typed_item_is_the_reason(
    tx: TransactionView,
    place: int,
    rest: Seq<u8>,
    raw: Seq<u8>,
)
    requires
        fields_fit(tx),
        fields_of_type(tx),
        tx.tx_type != TxType::Legacy,
        0 <= place <= typed_items_len(tx.tx_type) + 3,
        typed_fault(tx.tx_type, place, rest) is Some,
        signed_items(tx, 0, place, rest).len() < num::pow256(8),
        raw == seq![tx::type_byte(tx.tx_type)] + rlp::encode_list(
            signed_items(tx, 0, place, rest),
        ),
    ensures
        tx::read_transaction(raw) == Err::<TransactionView, tx::TxError>(
            typed_fault(tx.tx_type, place, rest)->Some_0,
        ),
{
    reveal(tx::read_typed_body);
    num::lemma_pow256_values();
    let body = signed_items(tx, 0, place, rest);
    let list = rlp::encode_list(body);
    let none = Seq::<u8>::empty();
    rlp::encoded_item_reads_back(Item { is_list: true, payload: body }, none);
    assert(list + none =~= list);
    assert(raw.skip(1) =~= list);
    let tx_type = tx.tx_type;
    let head_len: int = if tx_type == TxType::AccessList {
        4
    } else {
        5
    };
    let len = typed_items_len(tx_type);
    if place < head_len {
        lemma_head_fault(tx, place, rest);
    } else {
        lemma_head_passes(tx, place, rest);
        let call_at = signed_items(tx, head_len, place, rest);
        assert(call_at.len() <= body.len());
        if place < len {
            lemma_call_fault(tx, head_len, place, rest);
        } else {
            lemma_call_passes(tx, head_len, place, rest);
            lemma_signature_fault(tx, len, place, rest);
        }
    }
}

proof fn lemma_signed_step(tx: TransactionView, from: int, place: int, rest: Seq<u8>)
    ensures
        from < place ==> signed_items(tx, from, place, rest) == signed_item(tx, from)
            + signed_items(tx, from + 1, place, rest),
        from >= place ==> signed_items(tx, from, place, rest) == rest,
{
}

proof fn lemma_head_fault(tx: TransactionView, place: int, rest: Seq<u8>)
    requires
        fields_fit(tx),
        fields_of_type(tx),
        tx.tx_type != TxType::Legacy,
        0 <= place,
        tx.tx_type == TxType::AccessList ==> place < 4,
        place < 5,
        typed_fault(tx.tx_type, place, rest) is Some,
    ensures
        tx::read_typed_head(tx.tx_type, signed_items(tx, 0, place, rest)) is Err,
        typed_fault(tx.tx_type, place, rest) == Some(
            tx::TxError::Rlp(
                tx::read_typed_head(tx.tx_type, signed_items(tx, 0, place, rest))->Err_0,
            ),
        ),
{
    num::lemma_pow256_values();
    let at1 = signed_items(tx, 1, place, rest);
    let at2 = signed_items(tx, 2, place, rest);
    let at3 = signed_items(tx, 3, place, rest);
    let at4 = signed_items(tx, 4, place, rest);
    lemma_signed_step(tx, 0, place, rest);
    lemma_signed_step(tx, 1, place, rest);
    lemma_signed_step(tx, 2, place, rest);
    lemma_signed_step(tx, 3, place, rest);
    lemma_signed_step(tx, 4, place, rest);
    rlp::encoded_uint_reads_back(tx.chain_id->Some_0, 8, at1);
    rlp::encoded_uint_reads_back(tx.nonce, 8, at2);
    rlp::encoded_uint_reads_back(tx.max_priority_fee_per_gas, 16, at3);
    rlp::encoded_uint_reads_back(tx.max_fee_per_gas, 16, at3);
    rlp::encoded_uint_reads_back(tx.max_fee_per_gas, 16, at4);
}

proof fn lemma_head_passes(tx: TransactionView, place: int, rest: Seq<u8>)
    requires
        fields_fit(tx),
        fields_of_type(tx),
        tx.tx_type != TxType::Legacy,
        tx.tx_type == TxType::AccessList ==> place >= 4,
        tx.tx_type != TxType::AccessList ==> place >= 5,
    ensures
        tx::read_typed_head(tx.tx_type, signed_items(tx, 0, place, rest)) is Ok,
        rlp::after_items(
            signed_items(tx, 0, place, rest),
            tx::typed_head_items(tx.tx_type),
        ) == signed_items(
            tx,
            if tx.tx_type == TxType::AccessList {
                4
            } else {
                5
            },
            place,
            rest,
        ),
        signed_items(
            tx,
            if tx.tx_type == TxType::AccessList {
                4
            } else {
                5
            },
            place,
            rest,
        ).len() <= signed_items(tx, 0, place, rest).len(),
{
    reveal_with_fuel(rlp::after_items, 6);
    num::lemma_pow256_values();
    let at1 = signed_items(tx, 1, place, rest);
    let at2 = signed_items(tx, 2, place, rest);
    let at3 = signed_items(tx, 3, place, rest);
    let at4 = signed_items(tx, 4, place, rest);
    let at5 = signed_items(tx, 5, place, rest);
    lemma_signed_step(tx, 0, place, rest);
    lemma_signed_step(tx, 1, place, rest);
    lemma_signed_step(tx, 2, place, rest);
    lemma_signed_step(tx, 3, place, rest);
    lemma_signed_step(tx, 4, place, rest);
    rlp::encoded_uint_reads_back(tx.chain_id->Some_0, 8, at1);
    rlp::encoded_uint_reads_back(tx.nonce, 8, at2);
    if tx.tx_type == TxType::AccessList {
        rlp::encoded_uint_reads_back(tx.max_fee_per_gas, 16, at3);
        rlp::encoded_uint_reads_back(tx.gas_limit, 8, at4);
    } else {
        rlp::encoded_uint_reads_back(tx.max_priority_fee_per_gas, 16, at3);
        rlp::encoded_uint_reads_back(tx.max_fee_per_gas, 16, at4);
        rlp::encoded_uint_reads_back(tx.gas_limit, 8, at5);
    }
}

proof fn lemma_call_fault(tx: TransactionView, from: int, place: int, rest: Seq<u8>)
    requires
        fields_fit(tx),
        fields_of_type(tx),
        tx.tx_type != TxType::Legacy,
        from == if tx.tx_type == TxType::AccessList {
            4int
        } else {
            5
        },
        from <= place < typed_items_len(tx.tx_type),
        typed_fault(tx.tx_type, place, rest) is Some,
        signed_items(tx, from, place, rest).len() < num::pow256(8),
    ensures
        tx::read_typed_call(tx.tx_type, signed_items(tx, from, place, rest)) is Err,
        typed_fault(tx.tx_type, place, rest) == Some(
            tx::TxError::Rlp(
                tx::read_typed_call(tx.tx_type, signed_items(tx, from, place, rest))->Err_0,
            ),
        ),
{
    num::lemma_pow256_values();
    let at1 = signed_items(tx, from + 1, place, rest);
    let at2 = signed_items(tx, from + 2, place, rest);
    let at3 = signed_items(tx, from + 3, place, rest);
    let at4 = signed_items(tx, from + 4, place, rest);
    lemma_signed_step(tx, from, place, rest);
    lemma_signed_step(tx, from + 1, place, rest);
    lemma_signed_step(tx, from + 2, place, rest);
    lemma_signed_step(tx, from + 3, place, rest);
    lemma_signed_step(tx, from + 4, place, rest);
    if place > from {
        lemma_recipient_reads_back(tx.tx_type, tx.to, at1);
    }
    if place > from + 1 {
        rlp::encoded_uint_reads_back(tx.value, 32, at2);
    }
    if place > from + 2 {
        rlp::encoded_item_reads_back(Item { is_list: false, payload: tx.input }, at3);
    }
    if place > from + 3 {
        let entries = encode_access_entries(tx.access_list);
        lemma_access_entries_read_back(tx.access_list);
        rlp::encoded_item_reads_back(Item { is_list: true, payload: entries }, at4);
    }
}

proof fn lemma_call_passes(tx: TransactionView, from: int, place: int, rest: Seq<u8>)
    requires
        fields_fit(tx),
        fields_of_type(tx),
        tx.tx_type != TxType::Legacy,
        from == if tx.tx_type == TxType::AccessList {
            4int
        } else {
            5
        },
        typed_items_len(tx.tx_type) <= place,
        signed_items(tx, from, place, rest).len() < num::pow256(8),
    ensures
        tx::read_typed_call(tx.tx_type, signed_items(tx, from, place, rest)) is Ok,
        rlp::after_items(
            signed_items(tx, from, place, rest),
            tx::typed_call_items(tx.tx_type),
        ) == signed_items(tx, typed_items_len(tx.tx_type), place, rest),
{
    reveal_with_fuel(rlp::after_items, 6);
    num::lemma_pow256_values();
    let at1 = signed_items(tx, from + 1, place, rest);
    let at2 = signed_items(tx, from + 2, place, rest);
    let at3 = signed_items(tx, from + 3, place, rest);
    let at4 = signed_items(tx, from + 4, place, rest);
    let at5 = signed_items(tx, from + 5, place, rest);
    lemma_signed_step(tx, from, place, rest);
    lemma_signed_step(tx, from + 1, place, rest);
    lemma_signed_step(tx, from + 2, place, rest);
    lemma_signed_step(tx, from + 3, place, rest);
    lemma_recipient_reads_back(tx.tx_type, tx.to, at1);
    rlp::encoded_uint_reads_back(tx.value, 32, at2);
    rlp::encoded_item_reads_back(Item { is_list: false, payload: tx.input }, at3);
    let entries = encode_access_entries(tx.access_list);
    lemma_access_entries_read_back(tx.access_list);
    rlp::encoded_item_reads_back(Item { is_list: true, payload: entries }, at4);
    if tx.tx_type == TxType::SetCode {
        lemma_signed_step(tx, from + 4, place, rest);
        let authorizations = encode_authorizations(tx.authorization_list);
        lemma_authorizations_read_back(tx.authorization_list);
        rlp::encoded_item_reads_back(Item { is_list: true, payload: authorizations }, at5);
    }
}

proof fn lemma_signature_fault(tx: TransactionView, from: int, place: int, rest: Seq<u8>)
    requires
        fields_fit(tx),
        tx.tx_type != TxType::Legacy,
        from == typed_items_len(tx.tx_type),
        from <= place <= from + 3,
        typed_fault(tx.tx_type, place, rest) is Some,
    ensures
        tx::read_typed_signature(signed_items(tx, from, place, rest)) == Err::<
            SignatureView,
            tx::TxError,
        >(typed_fault(tx.tx_type, place, rest)->Some_0),
{
    num::lemma_pow256_values();
    let at1 = signed_items(tx, from + 1, place, rest);
    let at2 = signed_items(tx, from + 2, place, rest);
    let at3 = signed_items(tx, from + 3, place, rest);
    lemma_signed_step(tx, from, place, rest);
    lemma_signed_step(tx, from + 1, place, rest);
    lemma_signed_step(tx, from + 2, place, rest);
    lemma_signed_step(tx, from + 3, place, rest);
    if place > from {
        rlp::encoded_uint_reads_back(parity_number(tx.signature.y_parity), 8, at1);
    }
    if place > from + 1 {
        rlp::encoded_uint_reads_back(tx.signature.r, 32, at2);
    }
    if place > from + 2 {
        rlp::encoded_uint_reads_back(tx.signature.s, 32, at3);
    }
}

} // verus!
