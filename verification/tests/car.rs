use firehose::car::{cid_prefix_len, decode_varint, read_varint, CarError, Cursor};

fn make_cid_v1() -> Vec<u8> {
    let mut cid = vec![0x01, 0x71, 0x12, 0x20];
    cid.extend_from_slice(&[0u8; 32]);
    cid
}

#[test]
fn test_decode_varint_single_byte() {
    let (val, consumed) = decode_varint(&[0x2A]).unwrap();
    assert_eq!(val, 42);
    assert_eq!(consumed, 1);
}

#[test]
fn test_decode_varint_two_bytes() {
    let (val, consumed) = decode_varint(&[0x8A, 0x01]).unwrap();
    assert_eq!(val, 138);
    assert_eq!(consumed, 2);
}

#[test]
fn test_decode_varint_unterminated_returns_error() {
    assert!(decode_varint(&[0x80, 0x80, 0x80]).is_err());
}

#[test]
fn test_read_varint_advances_cursor() {
    let data = [0x2A, 0x01];
    let mut cursor = Cursor::new(data.as_ref());
    assert_eq!(read_varint(&mut cursor).unwrap(), 42);
    assert_eq!(read_varint(&mut cursor).unwrap(), 1);
}

#[test]
fn test_cid_prefix_len_typical() {
    assert_eq!(cid_prefix_len(&make_cid_v1()).unwrap(), 36);
}

#[test]
fn test_cid_prefix_len_points_to_cbor_start() {
    let cbor = b"\xA1\x64text\x65hello";
    let mut data = make_cid_v1();
    data.extend_from_slice(cbor);
    let len = cid_prefix_len(&data).unwrap();
    assert_eq!(&data[len..], cbor.as_ref());
}

#[test]
fn decode_varint_empty_is_not_terminated() {
    assert_eq!(decode_varint(&[]), Err(CarError::VarintNotTerminated));
}

#[test]
fn decode_varint_ignores_trailing_bytes() {
    assert_eq!(decode_varint(&[0x8A, 0x01, 0xFF, 0x07]), Ok((138, 2)));
    assert_eq!(decode_varint(&[0x2A, 0x2B]), Ok((42, 1)));
}

#[test]
fn decode_varint_three_bytes() {
    assert_eq!(decode_varint(&[0xE0, 0xA7, 0x12]), Ok((300_000, 3)));
}

#[test]
fn decode_varint_ten_bytes_truncates_to_64_bits() {
    let mut data = vec![0xFFu8; 9];
    data.push(0x01);
    assert_eq!(decode_varint(&data), Ok((u64::MAX, 10)));
    let mut high = vec![0xFFu8; 9];
    high.push(0x7F);
    assert_eq!(decode_varint(&high), Ok((u64::MAX, 10)));
}

#[test]
fn decode_varint_ten_continuation_bytes_at_end_is_error() {
    assert_eq!(decode_varint(&[0x80u8; 10]), Err(CarError::VarintNotTerminated));
}

#[test]
fn read_varint_at_end_fails_and_stays() {
    let data = [0x2A];
    let mut cursor = Cursor::new(data.as_ref());
    assert_eq!(read_varint(&mut cursor), Ok(42));
    assert_eq!(cursor.position(), 1);
    assert_eq!(read_varint(&mut cursor), Err(CarError::UnexpectedEof));
    assert_eq!(cursor.position(), 1);
}

#[test]
fn read_varint_running_out_moves_to_end() {
    let data = [0x01, 0x80, 0x80];
    let mut cursor = Cursor::new(data.as_ref());
    cursor.set_position(1);
    assert_eq!(read_varint(&mut cursor), Err(CarError::UnexpectedEof));
    assert_eq!(cursor.position(), 3);
}

#[test]
fn read_varint_past_end_fails_and_stays() {
    let data = [0x01];
    let mut cursor = Cursor::new(data.as_ref());
    cursor.set_position(7);
    assert_eq!(read_varint(&mut cursor), Err(CarError::UnexpectedEof));
    assert_eq!(cursor.position(), 7);
    assert_eq!(cursor.get_ref(), &[0x01]);
}

#[test]
fn read_varint_multi_byte_moves_past_it() {
    let data = [0x8A, 0x01, 0x05];
    let mut cursor = Cursor::new(data.as_ref());
    assert_eq!(read_varint(&mut cursor), Ok(138));
    assert_eq!(cursor.position(), 2);
    assert_eq!(read_varint(&mut cursor), Ok(5));
    assert_eq!(cursor.position(), 3);
}

#[test]
fn cid_prefix_len_multi_byte_fields() {
    // version 1, codec 0x0129 (two bytes), hash 0x12, digest length 3
    let data = [0x01, 0xA9, 0x02, 0x12, 0x03, 0xAA, 0xBB, 0xCC, 0xDD];
    assert_eq!(cid_prefix_len(&data), Ok(8));
}

#[test]
fn cid_prefix_len_may_reach_past_the_end() {
    assert_eq!(cid_prefix_len(&[0x01, 0x71, 0x12, 0x20]), Ok(36));
}

#[test]
fn cid_prefix_len_truncated_field_is_error() {
    assert_eq!(cid_prefix_len(&[0x01, 0x71, 0x92]), Err(CarError::VarintNotTerminated));
    assert_eq!(cid_prefix_len(&[]), Err(CarError::VarintNotTerminated));
}

#[test]
fn decode_varint_minimal_leb128_values() {
    assert_eq!(decode_varint(&[0xE5, 0x8E, 0x26]), Ok((624_485, 3)));
    assert_eq!(decode_varint(&[0x7F]), Ok((127, 1)));
    assert_eq!(decode_varint(&[0x80, 0x01]), Ok((128, 2)));
    assert_eq!(
        decode_varint(&[0xFF, 0xFF, 0xFF, 0xFF, 0xFF, 0xFF, 0xFF, 0xFF, 0xFF, 0x01]),
        Ok((u64::MAX, 10))
    );
}
