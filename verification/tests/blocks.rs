use firehose::blocks::{checked_parse_car, parse_car, Blocks};
use firehose::car::CarError;
use firehose::record::{Follow, Record};

fn cid_v1() -> Vec<u8> {
    let mut cid = vec![0x01, 0x71, 0x12, 0x20];
    cid.extend_from_slice(&[7u8; 32]);
    cid
}

fn block(payload: &[u8]) -> Vec<u8> {
    let mut b = vec![(36 + payload.len()) as u8];
    b.extend_from_slice(&cid_v1());
    b.extend_from_slice(payload);
    b
}

fn car(blocks: &[&[u8]]) -> Vec<u8> {
    let mut c = vec![0x02, 0xA0, 0xA0];
    for b in blocks {
        c.extend_from_slice(&block(b));
    }
    c
}

#[test]
fn parse_car_returns_payloads_in_order() {
    let data = car(&[b"\xA1\x61a\x01", b"\xF6"]);
    let payloads = parse_car(&data).unwrap();
    assert_eq!(payloads, vec![b"\xA1\x61a\x01".to_vec(), b"\xF6".to_vec()]);
}

#[test]
fn parse_car_empty_header_only() {
    assert_eq!(parse_car(&[0x01, 0x00]), Ok(vec![]));
}

#[test]
fn parse_car_missing_header_is_error() {
    assert_eq!(parse_car(&[]), Err(CarError::UnexpectedEof));
    assert_eq!(parse_car(&[0x80]), Err(CarError::UnexpectedEof));
}

#[test]
fn parse_car_header_past_end_gives_no_blocks() {
    assert_eq!(parse_car(&[0x05, 0x00]), Ok(vec![]));
}

#[test]
fn parse_car_stops_at_zero_length() {
    let mut data = car(&[b"\x01"]);
    data.push(0x00);
    data.extend_from_slice(&block(b"\x02"));
    assert_eq!(parse_car(&data), Ok(vec![vec![0x01]]));
}

#[test]
fn parse_car_stops_at_block_past_end() {
    let mut data = car(&[b"\x01"]);
    data.push(0x7F);
    data.extend_from_slice(&[0x01, 0x02]);
    assert_eq!(parse_car(&data), Ok(vec![vec![0x01]]));
}

#[test]
fn parse_car_truncated_cid_is_error() {
    // block of two bytes whose CID prefix does not terminate
    let data = vec![0x00, 0x02, 0x01, 0x80];
    assert_eq!(parse_car(&data), Err(CarError::VarintNotTerminated));
}

#[test]
fn checked_parse_car_reports_overlong_header_varint() {
    let mut data = vec![0x80u8; 10];
    data.push(0x01);
    assert_eq!(checked_parse_car(&data), None);
}

#[test]
fn checked_parse_car_reports_cid_longer_than_block() {
    // block of 4 bytes whose CID says its digest is 32 bytes long
    let data = vec![0x00, 0x04, 0x01, 0x71, 0x12, 0x20];
    assert_eq!(checked_parse_car(&data), None);
}

#[test]
fn checked_parse_car_agrees_with_parse_car() {
    let data = car(&[b"\x0A\x0B"]);
    assert_eq!(checked_parse_car(&data), Some(Ok(vec![vec![0x0A, 0x0B]])));
}

#[test]
fn from_decoded_skips_undecoded_blocks() {
    let follow = |s: &str| {
        Some(Record::Follow(Follow { subject: s.to_string(), created_at: "t".to_string() }))
    };
    let blocks = Blocks::from_decoded(vec![None, follow("did:a"), None, Some(Record::Unknown), follow("did:b")]);
    assert_eq!(blocks.0.len(), 3);
    match &blocks.0[0] {
        Record::Follow(f) => assert_eq!(f.subject, "did:a"),
        other => panic!("unexpected {:?}", other),
    }
    assert!(matches!(blocks.0[1], Record::Unknown));
    match &blocks.0[2] {
        Record::Follow(f) => assert_eq!(f.subject, "did:b"),
        other => panic!("unexpected {:?}", other),
    }
}

#[test]
fn from_decoded_of_nothing_is_empty() {
    assert!(Blocks::from_decoded(vec![None, None]).0.is_empty());
}

#[test]
fn parse_car_header_content_is_skipped() {
    let mut long = vec![0x05, 0x01, 0x02, 0x03, 0x04, 0x05];
    let mut empty = vec![0x00];
    let body = block(b"\x11\x22");
    long.extend_from_slice(&body);
    empty.extend_from_slice(&body);
    assert_eq!(parse_car(&long), parse_car(&empty));
    assert_eq!(parse_car(&long), Ok(vec![vec![0x11, 0x22]]));
}

#[test]
fn parse_car_block_runs_concatenate() {
    let both = car(&[b"\x01", b"\x02", b"\x03"]);
    let first = car(&[b"\x01"]);
    let second = car(&[b"\x02", b"\x03"]);
    let mut expected = parse_car(&first).unwrap();
    expected.extend(parse_car(&second).unwrap());
    assert_eq!(parse_car(&both), Ok(expected));
}

#[test]
fn parse_car_zero_length_ignores_garbage_after_it() {
    let mut data = car(&[b"\x09"]);
    data.extend_from_slice(&[0x00, 0xFF, 0xFF, 0x80]);
    assert_eq!(parse_car(&data), parse_car(&car(&[b"\x09"])));
}
