//! CIDs that DAG-CBOR carries under tag 42, turned into their link strings.
use vstd::prelude::*;
use vstd::arithmetic::power2::pow2;

verus! {

/// The largest input that the base32 encoder accepts: its output length is
/// computed for inputs of at most `usize::MAX / 512` bytes and asserted so.
pub open spec fn max_encode_len() -> nat {
    (usize::MAX / 512) as nat
}

/// Bit `k` of `bytes`, most significant bit of each byte first; 0 past the end.
pub open spec fn bit_at(bytes: Seq<u8>, k: nat) -> nat {
    if k < 8 * bytes.len() {
        (bytes[(k / 8) as int] as nat / pow2((7 - k % 8) as nat)) % 2
    } else {
        0
    }
}

/// The `j`-th group of five bits of `bytes`, padded with zero bits at the end.
pub open spec fn quintet(bytes: Seq<u8>, j: nat) -> nat {
    16 * bit_at(bytes, 5 * j) + 8 * bit_at(bytes, 5 * j + 1) + 4 * bit_at(bytes, 5 * j + 2) + 2 * bit_at(
        bytes,
        5 * j + 3,
    ) + bit_at(bytes, 5 * j + 4)
}

/// The RFC 4648 base32 alphabet in lower case: `a`..`z` then `2`..`7`.
pub open spec fn base32_lower_char(v: nat) -> char {
    if v < 26 {
        (97 + v) as char
    } else {
        (24 + v) as char
    }
}

/// RFC 4648 base32 of `bytes`, lower case, without padding: one character for
/// each group of five bits, ceil(8n/5) characters for n bytes.
pub open spec fn base32_lower(bytes: Seq<u8>) -> Seq<char> {
    Seq::new((8 * bytes.len() + 4) / 5, |j: int| base32_lower_char(quintet(bytes, j as nat)))
}

/// Calls `multibase::encode` with `Base::Base32Lower`. Its source puts the base's
/// code `'b'` in front of the RFC 4648 base32 encoding of the bytes, lower case
/// and without padding (the alphabet `abcdefghijklmnopqrstuvwxyz234567` that its
/// documentation gives). The encoder asserts that the input holds at most
/// `usize::MAX / 512` bytes, so larger inputs are left out.
#[verifier::external_body]
fn encode_base32_lower(bytes: &[u8]) -> (s: String)
    requires
        bytes@.len() <= max_encode_len(),
    ensures
        s@ == seq!['b'] + base32_lower(bytes@),
{
    multibase::encode(multibase::Base::Base32Lower, bytes)
}

/// The CID bytes without the leading `0x00` (multibase identity prefix) that
/// CBOR tag 42 puts in front of them; bytes without that prefix stay as they are.
pub open spec fn strip_identity_prefix(bytes: Seq<u8>) -> Seq<u8> {
    if bytes.len() > 0 && bytes[0] == 0 {
        bytes.drop_first()
    } else {
        bytes
    }
}

/// Turns the bytes of a tag-42 CID, where a field has one, into its base32lower
/// multibase link string (`"bafy..."`).
pub fn deserialize(cid_bytes: Option<&[u8]>) -> (r: Option<String>)
    requires
        cid_bytes matches Some(b) ==> strip_identity_prefix(b@).len() <= max_encode_len(),
    ensures
        match cid_bytes {
            None => r is None,
            Some(b) => r matches Some(s) && s@ == seq!['b'] + base32_lower(strip_identity_prefix(b@))
                && s@.len() == 1 + (8 * strip_identity_prefix(b@).len() + 4) / 5 && s@[0] == 'b',
        },
{
    match cid_bytes {
        None => None,
        Some(bytes) => {
            // CBOR tag 42 prepends a 0x00 multibase identity prefix — strip it
            let raw = if bytes.len() > 0 && bytes[0] == 0 {
                vstd::slice::slice_subrange(bytes, 1, bytes.len())
            } else {
                bytes
            };
            proof {
                if bytes@.len() > 0 && bytes@[0] == 0 {
                    assert(raw@ =~= bytes@.drop_first());
                }
            }
            Some(encode_base32_lower(raw))
        },
    }
}

/// The identity prefix that tag 42 adds is the only thing taken away: a CID
/// (whose first byte, its version, is not 0) has the same bytes, and so the
/// same link, whether it comes with the prefix or without it.
pub proof fn law_tag42_prefix_is_stripped(cid: Seq<u8>)
    requires
        cid.len() == 0 || cid[0] != 0,
    ensures
        strip_identity_prefix(seq![0u8] + cid) == cid,
        strip_identity_prefix(cid) == cid,
{
    assert((seq![0u8] + cid).drop_first() =~= cid);
}

} // verus!
