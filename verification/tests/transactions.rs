use earshot::{RlpError, Transaction, TxError, TxType};

const LEGACY: &str = "f86c098504a817c800825208943535353535353535353535353535353535353535880de0b6b3a76400008025a028ef61340bd939bc2195fe537567866003e1a15d3c71ff63e1590620aa636276a067cbe9d8997f761aecb703304b3800ccf555c9f3dc64214b297fb1966a3b6d83";
const UNPROTECTED: &str = "f86c098504a817c800825208943535353535353535353535353535353535353535880de0b6b3a7640000801ba0f01d6b9018ab421dd410404cb869072065522bf85734008f105cf385a023a80fa0120a185438d6aeb3279f3e0b39773d80afd51a9da53048bc4b15299f7204bc02";
const ACCESS_LIST: &str = "01f8c88212378007830186a08080856001600255f872f85994aaaaaaaaaaaaaaaaaaaaaaaaaaaaaaaaaaaaaaaaf842a0000102030405060708090a0b0c0d0e0f101112131415161718191a1b1c1d1e1fa0ffffffffffffffffffffffffffffffffffffffffffffffffffffffffffffffffd694bbbbbbbbbbbbbbbbbbbbbbbbbbbbbbbbbbbbbbbbc001a0e1fe434d345bf33083abb6280f4f44ac5fb22934977813c20c015f2b43d3fab8a06449b6ca60745f598d12b283791df4a559c3ed91eeaea01868032a53d731c4e2";
const DYNAMIC_FEE: &str = "02f87082123781ff018506fc23ac008252089435353535353535353535353535353535353535350586a9059cbb0011c001a00789dee922a809e21365f515c10b61bdc44f18eb5cf7e4f71d492ac8be157576a05194571dc05071fceb150c7e88f16fa2823cacba25489a914e85615bb5856caa";
const SET_CODE: &str = "04f89e82123701020382c3509435353535353535353535353535353535353535358080c0f838da8094cccccccccccccccccccccccccccccccccccccccc03010506dc82123794dddddddddddddddddddddddddddddddddddddddd8080070801a09680241112d370b56da22eb535745d9e314380e568229e09f7241066003bc471a0448aa229bb0d92762400f66c8bf96bde814ebe5738b817535a24b7f2a2ac74b1";

/// Whose key signed every transaction above.
const SENDER: &str = "0x9d8a62f656a8d1615c1294fd71e9cfb3e4855a4f";

fn bytes(text: &str) -> Vec<u8> {
    const_hex::decode(text).unwrap()
}

fn decode(text: &str) -> Transaction {
    Transaction::decode(&bytes(text)).unwrap()
}

fn refused(text: &str) -> TxError {
    Transaction::decode(&bytes(text)).unwrap_err()
}

#[test]
fn legacy_with_chain_id() {
    let tx = decode(LEGACY);
    assert_eq!(tx.tx_type, TxType::Legacy);
    assert_eq!(tx.chain_id, Some(1));
    assert_eq!(tx.nonce, 9);
    assert_eq!(tx.max_fee_per_gas, 20_000_000_000);
    assert_eq!(tx.max_priority_fee_per_gas, 20_000_000_000);
    assert_eq!(tx.gas_limit, 21_000);
    assert_eq!(
        tx.to.unwrap().to_string(),
        "0x3535353535353535353535353535353535353535"
    );
    assert_eq!(tx.value.to_string(), "1000000000000000000");
    assert_eq!(tx.input.as_slice(), b"");
    assert!(!tx.signature.y_parity);
    assert_eq!(
        tx.signature.r.to_lower_hex(false),
        "28ef61340bd939bc2195fe537567866003e1a15d3c71ff63e1590620aa636276"
    );
    assert_eq!(
        tx.hash.to_string(),
        "0x33469b22e9f636356c4160a87eb19df52b7412e8eac32a4a55ffe88ea8350788"
    );
    assert_eq!(
        tx.signing_hash.to_string(),
        "0xdaf5a779ae972f972197303d7b574746c7ef83eadac0f2791ad23db92e4c8e53"
    );
    assert_eq!(tx.raw.as_slice(), bytes(LEGACY).as_slice());
    assert_eq!(tx.recover_sender().unwrap().to_string(), SENDER);
}

#[test]
fn legacy_without_chain_id() {
    let tx = decode(UNPROTECTED);
    assert_eq!(tx.tx_type, TxType::Legacy);
    assert_eq!(tx.chain_id, None);
    assert_eq!(
        tx.hash.to_string(),
        "0x4eeafb0e5a36af42fd32c00b456be862244e87b3227bd87b222698ef989f4bd5"
    );
    assert_eq!(
        tx.signing_hash.to_string(),
        "0xf9e36c28c8cb35adba138005c02ab7aa7fbcd891f3139cb2eeed052a51cd2713"
    );
    assert_eq!(tx.recover_sender().unwrap().to_string(), SENDER);
}

#[test]
fn access_list_transaction() {
    let tx = decode(ACCESS_LIST);
    assert_eq!(tx.tx_type, TxType::AccessList);
    assert_eq!(tx.chain_id, Some(4663));
    assert_eq!(tx.nonce, 0);
    assert_eq!(tx.max_fee_per_gas, 7);
    assert_eq!(tx.max_priority_fee_per_gas, 7);
    assert_eq!(tx.gas_limit, 100_000);
    assert_eq!(tx.to, None);
    assert!(tx.value.is_zero());
    assert_eq!(tx.selector(), Some([0x60, 0x01, 0x60, 0x02]));
    assert_eq!(tx.access_list.len(), 2);
    assert_eq!(tx.access_list[0].address.0, [0xaa; 20]);
    assert_eq!(tx.access_list[0].storage_keys.len(), 2);
    assert_eq!(tx.access_list[0].storage_keys[0].0[31], 0x1f);
    assert_eq!(tx.access_list[0].storage_keys[1].0, [0xff; 32]);
    assert_eq!(tx.access_list[1].address.0, [0xbb; 20]);
    assert!(tx.access_list[1].storage_keys.is_empty());
    assert!(tx.signature.y_parity);
    assert_eq!(
        tx.hash.to_string(),
        "0x526d69d63b740c58403d1c975a886501225e8918280053d451463c729ade68b8"
    );
    assert_eq!(
        tx.signing_hash.to_string(),
        "0x3cf0ae00edc2c4cb87be85227028f1564a7c56ee508354b74bc44fa6fe638552"
    );
    assert_eq!(tx.recover_sender().unwrap().to_string(), SENDER);
}

#[test]
fn dynamic_fee_transaction() {
    let tx = decode(DYNAMIC_FEE);
    assert_eq!(tx.tx_type, TxType::DynamicFee);
    assert_eq!(tx.nonce, 255);
    assert_eq!(tx.max_priority_fee_per_gas, 1);
    assert_eq!(tx.max_fee_per_gas, 30_000_000_000);
    assert_eq!(tx.value.to_u128(), Some(5));
    assert_eq!(tx.selector(), Some([0xa9, 0x05, 0x9c, 0xbb]));
    assert!(tx.access_list.is_empty());
    assert!(tx.authorization_list.is_empty());
    assert_eq!(
        tx.hash.to_string(),
        "0x8fdec173234fbbec07354132da959a849e77e5c6756db6afba81a208e46c098a"
    );
    assert_eq!(
        tx.signing_hash.to_string(),
        "0x0fe191f653a34d2ef01265dcc042a0a16cff24eef4435bd08547d16af57ad0a4"
    );
    assert_eq!(tx.recover_sender().unwrap().to_string(), SENDER);
}

#[test]
fn set_code_transaction() {
    let tx = decode(SET_CODE);
    assert_eq!(tx.tx_type, TxType::SetCode);
    assert_eq!(tx.gas_limit, 50_000);
    assert_eq!(tx.authorization_list.len(), 2);
    let first = &tx.authorization_list[0];
    assert!(first.chain_id.is_zero());
    assert_eq!(first.address.0, [0xcc; 20]);
    assert_eq!(first.nonce, 3);
    assert!(first.signature.y_parity);
    assert_eq!(first.signature.r.to_u128(), Some(5));
    assert_eq!(first.signature.s.to_u128(), Some(6));
    let second = &tx.authorization_list[1];
    assert_eq!(second.chain_id.to_u128(), Some(4663));
    assert!(!second.signature.y_parity);
    assert_eq!(
        tx.hash.to_string(),
        "0x3dba7089a7d227bea08c6f64f40113b34b3eda708d17bd8d621b62a8be746c6e"
    );
    assert_eq!(
        tx.signing_hash.to_string(),
        "0x75e74d1be01c6e08341ee8a0528939960a7817c7672c6511c65bcf6c4caf7e17"
    );
    assert_eq!(tx.recover_sender().unwrap().to_string(), SENDER);
}

#[test]
fn authorization_with_another_parity_counts_as_even() {
    let odd = SET_CODE.replace("03010506", "03050506");
    let tx = decode(&odd);
    assert!(!tx.authorization_list[0].signature.y_parity);
    assert_ne!(tx.hash, decode(SET_CODE).hash);
}

#[test]
fn type_bytes() {
    assert_eq!(TxType::Legacy.as_byte(), 0x00);
    assert_eq!(TxType::AccessList.as_byte(), 0x01);
    assert_eq!(TxType::DynamicFee.as_byte(), 0x02);
    assert_eq!(TxType::SetCode.as_byte(), 0x04);
}

#[test]
fn short_input_has_no_selector() {
    assert_eq!(decode(LEGACY).selector(), None);
}

#[test]
fn signature_that_does_not_recover() {
    let mut tx = decode(LEGACY);
    tx.signature.r = earshot::U256::zero();
    assert_eq!(tx.recover_sender(), None);
    let mut tx = decode(LEGACY);
    tx.signature.s = earshot::U256::zero();
    assert_eq!(tx.recover_sender(), None);
}

#[test]
fn another_signing_hash_recovers_another_sender() {
    let mut tx = decode(LEGACY);
    tx.signing_hash.0[0] ^= 1;
    assert_ne!(
        tx.recover_sender().map(|sender| sender.to_string()),
        Some(SENDER.to_owned())
    );
}

#[test]
fn address_of_a_key() {
    // The key whose private half is one: the generator of the curve.
    let mut key = [0u8; 65];
    let point = bytes("0479be667ef9dcbbac55a06295ce870b07029bfcdb2dce28d959f2815b16f81798483ada7726a3c4655da4fbfc0e1108a8fd17b448a68554199c47d08ffb10d4b8");
    key.copy_from_slice(&point);
    assert_eq!(
        earshot::recover::address_of_key(&key).to_string(),
        "0x7e5f4552091a69125d5dfcb7b8c2659029395bdf"
    );
}

#[test]
fn empty_payload_is_refused() {
    assert_eq!(refused(""), TxError::Empty);
}

#[test]
fn unknown_types_are_refused() {
    assert_eq!(refused("03c0"), TxError::UnsupportedType(3));
    assert_eq!(refused("00"), TxError::UnsupportedType(0));
    assert_eq!(refused("bf"), TxError::UnsupportedType(0xbf));
}

#[test]
fn malformed_bodies_are_refused() {
    // Cut short.
    assert_eq!(
        refused(&LEGACY[..LEGACY.len() - 2]),
        TxError::Rlp(RlpError::Truncated)
    );
    // One byte too many behind the list.
    assert_eq!(
        refused(&format!("{LEGACY}00")),
        TxError::Rlp(RlpError::TrailingItems)
    );
    // A nonce with a leading zero.
    assert_eq!(refused("c3820001"), TxError::Rlp(RlpError::NonCanonical));
    // A nonce that is a list.
    assert_eq!(refused("c1c0"), TxError::Rlp(RlpError::ExpectedString));
    // A nonce of nine bytes.
    assert_eq!(
        refused("ca89010203040506070809"),
        TxError::Rlp(RlpError::IntegerTooWide)
    );
    // A typed transaction that is no list.
    assert_eq!(refused("0280"), TxError::Rlp(RlpError::ExpectedList));
    // A recipient of one byte.
    assert_eq!(refused("c480808001"), TxError::Rlp(RlpError::BadLength));
}

#[test]
fn out_of_range_signatures_are_refused() {
    // nonce, price, limit, to, value, input, then v, r, s.
    assert_eq!(refused("c98080808080801d0101"), TxError::BadRecoveryId(29));
    assert_eq!(refused("c9808080808080220101"), TxError::BadRecoveryId(34));
    assert_eq!(refused("02cc8080808080808080c0020101"), TxError::BadParity(2));
}

#[test]
fn the_last_legacy_v_is_decoded() {
    // v = 2^64 - 1: the chain id is as large as it gets, and the parity even.
    let tx = decode("d180808080808088ffffffffffffffff0101");
    assert_eq!(tx.chain_id, Some((u64::MAX - 35) / 2));
    assert!(!tx.signature.y_parity);
    // v = 28: no chain id, and the parity odd.
    let tx = decode("c98080808080801c0101");
    assert_eq!(tx.chain_id, None);
    assert!(tx.signature.y_parity);
}

#[test]
fn changing_any_byte_changes_the_hash_or_fails() {
    let raw = bytes(DYNAMIC_FEE);
    let tx = Transaction::decode(&raw).unwrap();
    for i in 0..raw.len() {
        let mut other = raw.clone();
        other[i] ^= 1;
        if let Ok(changed) = Transaction::decode(&other) {
            assert_ne!(changed.hash, tx.hash);
            assert_eq!(changed.raw.as_slice(), other.as_slice());
        }
    }
}

#[test]
fn decoding_errors_in_words() {
    assert_eq!(refused("").to_string(), "empty transaction payload");
    assert_eq!(
        refused("03c0").to_string(),
        "unsupported transaction type 0x03"
    );
    assert_eq!(
        refused("c1c0").to_string(),
        "malformed transaction RLP: expected an RLP byte string, found a list"
    );
    assert_eq!(
        refused("c98080808080801d0101").to_string(),
        "legacy transaction has an out-of-range v: 29"
    );
    assert_eq!(
        refused("02cc8080808080808080c0020101").to_string(),
        "yParity must be 0 or 1, got 2"
    );
    assert_eq!(RlpError::Truncated.to_string(), "RLP input ended mid-item");
    assert_eq!(
        RlpError::NonCanonical.to_string(),
        "RLP item is not canonically encoded"
    );
    assert_eq!(
        RlpError::ExpectedList.to_string(),
        "expected an RLP list, found a byte string"
    );
    assert_eq!(
        RlpError::IntegerTooWide.to_string(),
        "RLP integer is too wide for its field"
    );
    assert_eq!(
        RlpError::BadLength.to_string(),
        "RLP item has the wrong length for a fixed-width field"
    );
    assert_eq!(
        RlpError::TrailingItems.to_string(),
        "RLP list has trailing items"
    );
}
