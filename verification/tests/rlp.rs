use earshot::rlp::{encode_list_header, encode_u64, Rlp};
use earshot::RlpError;

#[test]
fn items_are_read_in_order() {
    let buf = [0x05, 0x82, 0x01, 0x00, 0xc2, 0x01, 0x02, 0x80];
    let mut rlp = Rlp::new(&buf);
    assert_eq!(rlp.next_u64(), Ok(5));
    assert_eq!(rlp.consumed(), 1);
    assert_eq!(rlp.next_u64(), Ok(256));
    assert_eq!(rlp.consumed(), 4);
    let mut list = rlp.next_list().ok().unwrap();
    assert_eq!(list.next_u64(), Ok(1));
    assert_eq!(list.next_u128(), Ok(2));
    assert!(list.is_empty());
    assert_eq!(list.finish(), Ok(()));
    assert_eq!(rlp.finish(), Err(RlpError::TrailingItems));
    assert_eq!(rlp.next_bytes(), Ok(&[][..]));
    assert!(rlp.is_empty());
    assert_eq!(rlp.next_bytes(), Err(RlpError::Truncated));
}

#[test]
fn long_forms() {
    let mut buf = vec![0xb8, 56];
    buf.extend_from_slice(&[7u8; 56]);
    assert_eq!(Rlp::new(&buf).next_bytes(), Ok(&[7u8; 56][..]));
    // A length the short form can express.
    let mut short = vec![0xb8, 55];
    short.extend_from_slice(&[7u8; 55]);
    assert_eq!(Rlp::new(&short).next_bytes(), Err(RlpError::NonCanonical));
    // A length with a leading zero.
    let mut padded = vec![0xb9, 0, 56];
    padded.extend_from_slice(&[7u8; 56]);
    assert_eq!(Rlp::new(&padded).next_bytes(), Err(RlpError::NonCanonical));
    // A length that runs past the end, and one that is itself cut short.
    assert_eq!(
        Rlp::new(&[0xb8, 57, 1]).next_bytes(),
        Err(RlpError::Truncated)
    );
    assert_eq!(Rlp::new(&[0xb9, 1]).next_bytes(), Err(RlpError::Truncated));
}

#[test]
fn lone_bytes_carry_no_header() {
    assert_eq!(Rlp::new(&[0x7f]).next_bytes(), Ok(&[0x7f][..]));
    assert_eq!(
        Rlp::new(&[0x81, 0x7f]).next_bytes(),
        Err(RlpError::NonCanonical)
    );
    assert_eq!(Rlp::new(&[0x81, 0x80]).next_bytes(), Ok(&[0x80][..]));
}

#[test]
fn fixed_width_fields() {
    let mut hash = vec![0xa0];
    hash.extend_from_slice(&[9u8; 32]);
    assert_eq!(Rlp::new(&hash).next_b256().unwrap().0, [9u8; 32]);
    assert_eq!(Rlp::new(&[0x80]).next_b256(), Err(RlpError::BadLength));
    let mut address = vec![0x94];
    address.extend_from_slice(&[3u8; 20]);
    assert_eq!(Rlp::new(&address).next_address().unwrap().0, [3u8; 20]);
    assert_eq!(
        Rlp::new(&address).next_address_opt().unwrap().unwrap().0,
        [3u8; 20]
    );
    assert_eq!(Rlp::new(&[0x80]).next_address_opt(), Ok(None));
    assert_eq!(Rlp::new(&[0x80]).next_address(), Err(RlpError::BadLength));
    assert_eq!(
        Rlp::new(&[0x82, 1, 2]).next_address_opt(),
        Err(RlpError::BadLength)
    );
}

#[test]
fn integers_at_their_widest() {
    let buf = [0x88, 255, 255, 255, 255, 255, 255, 255, 255];
    assert_eq!(Rlp::new(&buf).next_u64(), Ok(u64::MAX));
    let mut wide = vec![0x90];
    wide.extend_from_slice(&[255u8; 16]);
    assert_eq!(Rlp::new(&wide).next_u128(), Ok(u128::MAX));
    assert_eq!(Rlp::new(&wide).next_u64(), Err(RlpError::IntegerTooWide));
    let mut widest = vec![0xa0];
    widest.extend_from_slice(&[255u8; 32]);
    assert_eq!(
        Rlp::new(&widest).next_u256().unwrap().to_be_bytes(),
        [255u8; 32]
    );
    assert_eq!(Rlp::new(&[0x00]).next_u64(), Err(RlpError::NonCanonical));
    assert_eq!(Rlp::new(&[0x80]).next_u64(), Ok(0));
}

#[test]
fn numbers_written_read_back() {
    for value in [0, 1, 127, 128, 255, 256, 65_535, 65_536, u64::MAX] {
        let mut out = Vec::new();
        encode_u64(value, &mut out);
        let mut rlp = Rlp::new(&out);
        assert_eq!(rlp.next_u64(), Ok(value));
        assert!(rlp.is_empty());
    }
    let mut out = Vec::new();
    encode_u64(1024, &mut out);
    assert_eq!(out, vec![0x82, 0x04, 0x00]);
}

#[test]
fn list_headers() {
    for (len, header) in [
        (0usize, vec![0xc0u8]),
        (55, vec![0xf7]),
        (56, vec![0xf8, 56]),
        (256, vec![0xf9, 1, 0]),
    ] {
        let mut out = Vec::new();
        encode_list_header(len, &mut out);
        assert_eq!(out, header);
        out.extend(std::iter::repeat(0u8).take(len));
        let list = Rlp::new(&out).next_list().ok().unwrap();
        assert_eq!(list.buf().len(), len);
    }
}
