use firehose::deserialize_cid::deserialize;

const CID: [u8; 36] = [
    0x01, 0x71, 0x12, 0x20, 0x39, 0xc5, 0x9f, 0xbb, 0x5b, 0x28, 0x3d, 0x07, 0x79, 0x92, 0xe8, 0xe8,
    0x3e, 0xc9, 0x44, 0x43, 0x5b, 0x92, 0xde, 0x6f, 0xd4, 0x5c, 0x46, 0x81, 0x26, 0x07, 0x9f, 0xf3,
    0xea, 0x67, 0x4f, 0xc7,
];
const LINK: &str = "bafyreibzywp3wwzihudxtexi5a7msrcdlojn436ulrdicjqht7z6uz2py4";

#[test]
fn deserialize_strips_identity_prefix_and_encodes() {
    let mut tagged = vec![0x00];
    tagged.extend_from_slice(&CID);
    assert_eq!(deserialize(Some(&tagged)), Some(LINK.to_string()));
}

#[test]
fn deserialize_without_prefix_gives_same_link() {
    assert_eq!(deserialize(Some(&CID)), Some(LINK.to_string()));
}

#[test]
fn deserialize_absent_cid() {
    assert_eq!(deserialize(None), None);
}

#[test]
fn deserialize_short_values() {
    assert_eq!(deserialize(Some(&[0x00, 0x01, 0x71, 0x12, 0x20])), Some("bafyreia".to_string()));
    assert_eq!(deserialize(Some(&[0x00])), Some("b".to_string()));
    assert_eq!(deserialize(Some(&[])), Some("b".to_string()));
}
