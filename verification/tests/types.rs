use earshot::{Address, Bytes, B256, U256};

#[test]
fn addresses() {
    let address = Address::from_slice(&[0xab; 20]).unwrap();
    assert_eq!(
        address.to_string(),
        "0xabababababababababababababababababababab"
    );
    assert_eq!(
        address.to_lower_hex(false),
        "abababababababababababababababababababab"
    );
    assert_eq!(
        address.to_lower_hex(true),
        "0xabababababababababababababababababababab"
    );
    assert_eq!(Address::from_slice(&[0; 19]), None);
    assert_eq!(Address::from_slice(&[0; 21]), None);
    assert_eq!(Address::zero().0, [0; 20]);
}

#[test]
fn hashes() {
    let mut bytes = [0u8; 32];
    bytes[31] = 0x0f;
    let hash = B256::from_slice(&bytes).unwrap();
    assert_eq!(
        hash.to_string(),
        "0x000000000000000000000000000000000000000000000000000000000000000f"
    );
    assert_eq!(B256::from_slice(&[0; 20]), None);
    assert_eq!(B256::zero().0, [0; 32]);
}

#[test]
fn numbers_in_decimal_and_hex() {
    assert_eq!(U256::zero().to_string(), "0");
    assert_eq!(U256::zero().to_lower_hex(false), "0");
    assert_eq!(U256::zero().to_lower_hex(true), "0x0");
    assert_eq!(U256::from(255u128).to_lower_hex(true), "0xff");
    assert_eq!(U256::from(256u128).to_lower_hex(false), "100");
    assert_eq!(
        U256::from(u128::MAX).to_string(),
        "340282366920938463463374607431768211455"
    );
    assert_eq!(
        U256::from_be_slice(&[0xff; 32]).unwrap().to_string(),
        "115792089237316195423570985008687907853269984665640564039457584007913129639935"
    );
    // One that needs zeros inside its decimal chunks.
    assert_eq!(
        U256::from(10_000_000_000_000_000_000_000u128).to_string(),
        "10000000000000000000000"
    );
}

#[test]
fn numbers_keep_their_value() {
    let n = U256::from_be_slice(&[1, 2, 3]).unwrap();
    assert_eq!(n.to_u128(), Some(0x010203));
    assert_eq!(n, U256::from(0x010203u128));
    assert_eq!(U256::from_be_slice(&n.to_be_bytes()), Some(n));
    assert_eq!(n.to_be_bytes()[29..], [1, 2, 3]);
    assert_eq!(U256::from_be_slice(&[]), Some(U256::zero()));
    assert_eq!(U256::from_be_slice(&[0; 33]), None);
    assert!(U256::from_be_slice(&[0; 5]).unwrap().is_zero());
    assert!(!n.is_zero());
    let mut wide = [0u8; 17];
    wide[0] = 1;
    assert_eq!(U256::from_be_slice(&wide).unwrap().to_u128(), None);
    assert_eq!(
        U256::from_be_slice(&[0xff; 16]).unwrap().to_u128(),
        Some(u128::MAX)
    );
}

#[test]
fn byte_strings() {
    let bytes = Bytes::from(vec![1u8, 0xff]);
    assert_eq!(bytes.to_string(), "0x01ff");
    assert_eq!(bytes.as_slice(), &[1, 0xff]);
    assert_eq!(bytes.len(), 2);
    assert_eq!(Bytes::from(&[7u8][..]).to_string(), "0x07");
    assert_eq!(Bytes::from(Vec::new()).to_string(), "0x");
}

#[test]
fn numbers_are_ordered_by_value() {
    let mut last = U256::default();
    assert_eq!(last, U256::zero());
    for n in [1u128, 255, 256, 1 << 64, u128::MAX] {
        let next = U256::from(n);
        assert!(last < next);
        last = next;
    }
    assert!(last < U256::from_be_slice(&[0xff; 32]).unwrap());
}

#[test]
fn debug_output_is_text() {
    let address = Address([0xab; 20]);
    assert_eq!(format!("{address:?}"), format!("0x{}", "ab".repeat(20)));
    let mut hash = B256([0; 32]);
    hash.0[31] = 0x0f;
    assert_eq!(format!("{hash:?}"), format!("0x{}0f", "00".repeat(31)));
    let number = U256::from_be_slice(&[1, 0]).unwrap();
    assert_eq!(format!("{number:?}"), "256");
    assert_eq!(format!("{:?}", U256::zero()), "0");
    assert_eq!(format!("{:?}", Bytes(vec![])), "0x");
    assert_eq!(format!("{:?}", Bytes(vec![0, 1, 0xff])), "0x0001ff");
    // Longer than what is turned into digits at a time.
    for len in [1_023, 1_024, 1_025, 5_000] {
        let bytes: Vec<u8> = (0..len).map(|i| (i % 251) as u8).collect();
        let text: String = bytes.iter().map(|byte| format!("{byte:02x}")).collect();
        assert_eq!(format!("{:?}", Bytes(bytes)), format!("0x{text}"));
    }
    // As a part of something else.
    assert_eq!(format!("{:?}", Some(Bytes(vec![7]))), "Some(0x07)");
    assert_eq!(format!("{:#?}", Some(Bytes(vec![7]))), "Some(\n    0x07,\n)");
}
