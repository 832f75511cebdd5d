use earshot::wire::{read_address, read_hash, read_quantity, read_signed};
use earshot::{Address, B256, U256};

#[test]
fn addresses_and_hashes_from_hex() {
    let digits = "aB".repeat(20);
    assert_eq!(read_address(&digits).unwrap().0, [0xab; 20]);
    assert_eq!(read_address(&format!("0x{digits}")).unwrap().0, [0xab; 20]);
    assert_eq!(read_address(&format!("0X{digits}")).unwrap().0, [0xab; 20]);
    assert_eq!(
        read_address(&format!("0x0x{digits}")).unwrap().0,
        [0xab; 20]
    );
    assert_eq!(read_address(&format!("0x0x0x{digits}")), None);
    assert_eq!(read_address("0x"), None);
    assert_eq!(read_address(&"ab".repeat(19)), None);
    assert_eq!(read_address(&"ab".repeat(21)), None);
    assert_eq!(read_address(&"ag".repeat(20)), None);
    assert_eq!(read_address(&"é".repeat(20)), None);
    assert_eq!(
        read_hash(&format!("0x{}", "01".repeat(32))).unwrap().0,
        [1; 32]
    );
    assert_eq!(read_hash(&digits), None);
}

#[test]
fn quantities() {
    assert_eq!(read_quantity("0"), Some(0));
    assert_eq!(read_quantity("0012"), Some(12));
    assert_eq!(read_quantity("+7"), Some(7));
    assert_eq!(read_quantity("0xfF"), Some(255));
    assert_eq!(read_quantity("0x+a"), Some(10));
    assert_eq!(
        read_quantity("340282366920938463463374607431768211455"),
        Some(u128::MAX)
    );
    assert_eq!(
        read_quantity("340282366920938463463374607431768211456"),
        None
    );
    assert_eq!(
        read_quantity(&format!("0x{}", "f".repeat(32))),
        Some(u128::MAX)
    );
    assert_eq!(
        read_quantity(&format!("0x0{}", "f".repeat(32))),
        Some(u128::MAX)
    );
    assert_eq!(read_quantity(&format!("0x1{}", "0".repeat(32))), None);
    for text in ["", "+", "0x", "0x+", "-1", "-0", "1 ", " 1", "1_0", "0X1", "a", "++1", "٣"] {
        assert_eq!(read_quantity(text), None);
    }
}

#[test]
fn quantities_agree_with_std() {
    for text in ["", "0", "9", "+", "+0", "-0", "00", "1a", "18446744073709551616", "1\u{0}"] {
        assert_eq!(read_quantity(text), text.parse::<u128>().ok());
        assert_eq!(
            read_quantity(&format!("0x{text}")),
            u128::from_str_radix(text, 16).ok()
        );
    }
}

#[test]
fn signed_quantities() {
    assert_eq!(read_signed(0), Some(0));
    assert_eq!(read_signed(i64::MAX), Some(i64::MAX as u128));
    assert_eq!(read_signed(-1), None);
}

#[test]
fn what_is_written_reads_back() {
    let mut bytes = [0u8; 32];
    for (i, byte) in bytes.iter_mut().enumerate() {
        *byte = (i * 37) as u8;
    }
    let hash = B256(bytes);
    assert_eq!(read_hash(&hash.to_string()), Some(hash));
    assert_eq!(read_hash(&hash.to_lower_hex(false)), Some(hash));
    let address = Address([0xc0; 20]);
    assert_eq!(read_address(&address.to_string()), Some(address));
    for n in [0u128, 9, 10, 4663, u128::MAX] {
        assert_eq!(read_quantity(&U256::from(n).to_string()), Some(n));
        assert_eq!(read_quantity(&U256::from(n).to_lower_hex(true)), Some(n));
    }
}
