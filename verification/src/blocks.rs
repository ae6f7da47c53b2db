//! The records that a commit frame's CAR blob carries.
use crate::car::{
    cid_prefix_len_checked, cid_prefix_outcome, law_leb128_round_trip,
    law_varint_ignores_trailing_bytes, leb128, lemma_read_varint_advances, read_varint_checked,
    read_varint_outcome, varint_outcome, CarError, Cursor, Outcome,
};
use crate::record::Record;
use vstd::prelude::*;

verus! {

/// The records decoded from a commit's `blocks` field, in the order of their blocks.
#[derive(Debug)]
pub struct Blocks(pub Vec<Record>);

/// The CBOR payloads of the blocks from position `pos` on: each block is a
/// varint length followed by that many bytes, of which a CID prefix comes first
/// and the record's DAG-CBOR the rest. The walk stops at a zero length, at a
/// length that does not parse, or at a block that runs past the end.
pub open spec fn car_blocks_from(s: Seq<u8>, pos: nat) -> Outcome<Result<Seq<Seq<u8>>, CarError>>
    decreases s.len() - pos,
{
    match read_varint_outcome(s, pos) {
        Outcome::Panics => Outcome::Panics,
        Outcome::Returns((Err(_), _)) => Outcome::Returns(Ok(Seq::empty())),
        Outcome::Returns((Ok(block_len), start)) => {
            let len = block_len as usize;
            if block_len == 0 {
                Outcome::Returns(Ok(Seq::empty()))
            } else if start + len > usize::MAX {
                Outcome::Panics
            } else if start + len > s.len() {
                Outcome::Returns(Ok(Seq::empty()))
            } else {
                let block = s.subrange(start as int, start + len);
                match cid_prefix_outcome(block) {
                    Outcome::Panics => Outcome::Panics,
                    Outcome::Returns(Err(e)) => Outcome::Returns(Err(e)),
                    Outcome::Returns(Ok(cid_len)) => {
                        if cid_len > block.len() {
                            Outcome::Panics
                        } else {
                            proof {
                                lemma_read_varint_advances(s, pos);
                            }
                            prefixed(
                                seq![block.skip(cid_len as int)],
                                car_blocks_from(s, (start + len) as nat),
                            )
                        }
                    },
                }
            }
        },
    }
}

/// `o` with `prefix` put before the payloads it returns.
pub open spec fn prefixed(prefix: Seq<Seq<u8>>, o: Outcome<Result<Seq<Seq<u8>>, CarError>>) -> Outcome<
    Result<Seq<Seq<u8>>, CarError>,
> {
    match o {
        Outcome::Returns(Ok(rest)) => Outcome::Returns(Ok(prefix + rest)),
        other => other,
    }
}

/// What parsing a CAR blob gives: the header is a varint length followed by
/// that many bytes, which are skipped; the blocks follow.
pub open spec fn car_outcome(s: Seq<u8>) -> Outcome<Result<Seq<Seq<u8>>, CarError>> {
    match read_varint_outcome(s, 0) {
        Outcome::Panics => Outcome::Panics,
        Outcome::Returns((Err(e), _)) => Outcome::Returns(Err(e)),
        Outcome::Returns((Ok(header_len), header_start)) => {
            let body = header_start + (header_len as usize);
            if body > usize::MAX {
                Outcome::Panics
            } else {
                car_blocks_from(s, body as nat)
            }
        },
    }
}

/// The view of a parse result: the payload bytes of each block.
pub open spec fn payloads_view(r: Result<Vec<Vec<u8>>, CarError>) -> Result<Seq<Seq<u8>>, CarError> {
    match r {
        Ok(v) => Ok(v.deep_view()),
        Err(e) => Err(e),
    }
}

/// Parses a CAR byte slice into the DAG-CBOR payloads of its blocks, in order.
///
/// Skips the CAR header, then iterates over varint-prefixed blocks; each
/// block's CID prefix is stripped. `None` on the inputs on which the
/// arithmetic of the walk overflows or a CID prefix reaches past its block.
pub fn checked_parse_car(car_bytes: &[u8]) -> (r: Option<Result<Vec<Vec<u8>>, CarError>>)
    ensures
        match car_outcome(car_bytes@) {
            Outcome::Panics => r is None,
            Outcome::Returns(res) => r matches Some(x) && payloads_view(x) == res,
        },
{
    let ghost s = car_bytes@;
    let mut cursor = Cursor::new(car_bytes);
    let mut payloads: Vec<Vec<u8>> = Vec::new();

    // skip CAR header
    let header_len: usize = match read_varint_checked(&mut cursor) {
        None => {
            return None;
        },
        Some(Err(e)) => {
            return Some(Err(e));
        },
        Some(Ok(n)) => #[verifier::truncate] (n as usize),
    };
    let header_start = cursor.position();
    let body = match header_start.checked_add(header_len) {
        None => {
            return None;
        },
        Some(b) => b,
    };
    cursor.set_position(body);
    assert(payloads.deep_view() =~= Seq::<Seq<u8>>::empty());
    assert(prefixed(Seq::empty(), car_blocks_from(s, body as nat)) == car_blocks_from(s, body as nat));

    // read blocks until EOF
    loop
        invariant_except_break
            car_outcome(s) == prefixed(payloads.deep_view(), car_blocks_from(s, cursor.pos())),
        invariant
            cursor.bytes() == s,
            s == car_bytes@,
        ensures
            car_outcome(s) == Outcome::<Result<Seq<Seq<u8>>, CarError>>::Returns(Ok(payloads.deep_view())),
        decreases if cursor.pos() <= s.len() { s.len() - cursor.pos() } else { 0 },
    {
        let ghost pos = cursor.pos();
        proof {
            lemma_read_varint_advances(s, pos);
        }
        let block_len: usize = match read_varint_checked(&mut cursor) {
            None => {
                return None;
            },
            Some(Err(_)) => {
                assert(payloads.deep_view() + Seq::<Seq<u8>>::empty() =~= payloads.deep_view());
                break;
            },
            Some(Ok(0)) => {
                assert(payloads.deep_view() + Seq::<Seq<u8>>::empty() =~= payloads.deep_view());
                break;
            },
            Some(Ok(n)) => #[verifier::truncate] (n as usize),
        };
        let start = cursor.position();
        let end = match start.checked_add(block_len) {
            None => {
                return None;
            },
            Some(e) => e,
        };
        if end > car_bytes.len() {
            assert(payloads.deep_view() + Seq::<Seq<u8>>::empty() =~= payloads.deep_view());
            break;
        }
        let block_data = vstd::slice::slice_subrange(car_bytes, start, end);

        // skip CID prefix, keep the CBOR record bytes
        let cid_len = match cid_prefix_len_checked(block_data) {
            None => {
                return None;
            },
            Some(Err(e)) => {
                return Some(Err(e));
            },
            Some(Ok(c)) => c,
        };
        if cid_len > block_data.len() {
            return None;
        }
        let cbor = vstd::slice::slice_to_vec(vstd::slice::slice_subrange(block_data, cid_len, block_data.len()));
        let ghost old_payloads = payloads.deep_view();
        let ghost old_vec = payloads@;
        let ghost cbor_bytes = cbor@;
        proof {
            assert(cbor.deep_view() =~= cbor@);
        }
        payloads.push(cbor);
        proof {
            assert(payloads@ == old_vec.push(cbor));
            assert(block_data@.skip(cid_len as int) =~= block_data@.subrange(cid_len as int, block_data@.len() as int));
            assert(cbor_bytes =~= block_data@.skip(cid_len as int));
            assert(payloads.deep_view() =~= old_payloads + seq![block_data@.skip(cid_len as int)]);
            assert(old_payloads + (seq![block_data@.skip(cid_len as int)] + Seq::<Seq<u8>>::empty()) =~= old_payloads + seq![block_data@.skip(cid_len as int)]);
        }
        cursor.set_position(end);
        proof {
            lemma_prefixed_assoc(old_payloads, seq![block_data@.skip(cid_len as int)], car_blocks_from(s, end as nat));
        }
    }
    Some(Ok(payloads))
}

proof fn lemma_prefixed_assoc(a: Seq<Seq<u8>>, b: Seq<Seq<u8>>, o: Outcome<Result<Seq<Seq<u8>>, CarError>>)
    ensures
        prefixed(a, prefixed(b, o)) == prefixed(a + b, o),
{
    if let Outcome::Returns(Ok(rest)) = o {
        assert(a + (b + rest) =~= (a + b) + rest);
    }
}

/// Parses a CAR byte slice into the DAG-CBOR payloads of its blocks, in order.
///
/// Skips the CAR header, then iterates over varint-prefixed blocks; each
/// block has a CID prefix (stripped) followed by DAG-CBOR bytes (kept).
pub fn parse_car(car_bytes: &[u8]) -> (r: Result<Vec<Vec<u8>>, CarError>)
    requires
        !(car_outcome(car_bytes@) is Panics),
    ensures
        car_outcome(car_bytes@) == Outcome::Returns(payloads_view(r)),
{
    checked_parse_car(car_bytes).unwrap()
}

/// The records among `decoded`, in order: the blocks that did not decode as a
/// record are left out.
pub open spec fn decoded_records(decoded: Seq<Option<Record>>) -> Seq<Record>
    decreases decoded.len(),
{
    if decoded.len() == 0 {
        Seq::empty()
    } else {
        let rest = decoded_records(decoded.drop_first());
        match decoded[0] {
            Some(r) => seq![r] + rest,
            None => rest,
        }
    }
}

impl Blocks {
    /// Collects the records that a CAR blob's blocks decoded to. Blocks that
    /// don't match a known record type (`None`) are silently skipped.
    pub fn from_decoded(decoded: Vec<Option<Record>>) -> (b: Blocks)
        ensures
            b.0@ == decoded_records(decoded@),
    {
        let mut decoded = decoded;
        let ghost all = decoded@;
        let mut records: Vec<Record> = Vec::new();
        while decoded.len() > 0
            invariant
                records@ + decoded_records(decoded@) == decoded_records(all),
            decreases decoded@.len(),
        {
            let ghost before = decoded@;
            let item = decoded.remove(0);
            proof {
                assert(decoded@ =~= before.drop_first());
            }
            match item {
                Some(record) => {
                    let ghost old_records = records@;
                    records.push(record);
                    assert(records@ + decoded_records(decoded@) =~= old_records + (seq![record] + decoded_records(decoded@)));
                },
                None => {},
            }
        }
        assert(records@ + decoded_records(decoded@) =~= records@);
        Blocks(records)
    }
}

/// `p` is a contiguous run of the bytes of `s`.
pub open spec fn is_slice_of(p: Seq<u8>, s: Seq<u8>) -> bool {
    exists|a: int, b: int| 0 <= a <= b <= s.len() && p == #[trigger] s.subrange(a, b)
}

/// Every payload of the walk from `pos` on is a run of bytes of the input.
proof fn lemma_blocks_from_are_slices(s: Seq<u8>, pos: nat)
    ensures
        car_blocks_from(s, pos) matches Outcome::Returns(Ok(ps)) ==> forall|i: int|
            0 <= i < ps.len() ==> is_slice_of(#[trigger] ps[i], s),
    decreases s.len() - pos,
{
    lemma_read_varint_advances(s, pos);
    if let Outcome::Returns((Ok(block_len), start)) = read_varint_outcome(s, pos) {
        let len = block_len as usize;
        if block_len != 0 && start + len <= usize::MAX && start + len <= s.len() {
            let block = s.subrange(start as int, start + len);
            if let Outcome::Returns(Ok(cid_len)) = cid_prefix_outcome(block) {
                if cid_len <= block.len() {
                    let next = (start + len) as nat;
                    lemma_blocks_from_are_slices(s, next);
                    if let Outcome::Returns(Ok(ps)) = car_blocks_from(s, pos) {
                        let first = block.skip(cid_len as int);
                        assert(first =~= s.subrange(start + cid_len, start + len));
                        assert(is_slice_of(first, s));
                        if let Outcome::Returns(Ok(rest)) = car_blocks_from(s, next) {
                            assert(ps == seq![first] + rest);
                            assert forall|i: int| 0 <= i < ps.len() implies is_slice_of(#[trigger] ps[i], s) by {
                                if i > 0 {
                                    assert(ps[i] == rest[i - 1]);
                                }
                            }
                        }
                    }
                }
            }
        }
    }
}

/// Each payload that a CAR parse returns is a contiguous run of the input's
/// bytes: the parse copies bytes out of the blob and makes none up.
pub proof fn law_payloads_are_slices_of_input(s: Seq<u8>)
    ensures
        car_outcome(s) matches Outcome::Returns(Ok(ps)) ==> forall|i: int|
            0 <= i < ps.len() ==> is_slice_of(#[trigger] ps[i], s),
{
    if let Outcome::Returns((Ok(header_len), header_start)) = read_varint_outcome(s, 0) {
        let body = header_start + (header_len as usize);
        if body <= usize::MAX {
            lemma_blocks_from_are_slices(s, body as nat);
        }
    }
}

/// A CAR header: the LEB128 length of the header bytes `h`, then `h`.
pub open spec fn car_header(h: Seq<u8>) -> Seq<u8> {
    leb128(h.len() as u64) + h
}

/// A CAR block: the LEB128 length of the block bytes `b`, then `b`.
pub open spec fn car_block(b: Seq<u8>) -> Seq<u8> {
    leb128(b.len() as u64) + b
}

/// A block that the walk takes whole: not empty, with a CID prefix that parses
/// and ends within the block.
pub open spec fn well_formed_block(b: Seq<u8>) -> bool {
    &&& b.len() >= 1
    &&& cid_prefix_outcome(b) matches Outcome::Returns(Ok(p)) && p <= b.len()
}

/// The bytes of a block after its CID prefix.
pub open spec fn block_payload(b: Seq<u8>) -> Seq<u8> {
    match cid_prefix_outcome(b) {
        Outcome::Returns(Ok(p)) => b.skip(p as int),
        _ => Seq::empty(),
    }
}

/// The blocks `bs`, one after another, each with its length in front.
pub open spec fn blocks_bytes(bs: Seq<Seq<u8>>) -> Seq<u8>
    decreases bs.len(),
{
    if bs.len() == 0 {
        Seq::empty()
    } else {
        car_block(bs[0]) + blocks_bytes(bs.drop_first())
    }
}

/// The payloads of the blocks `bs`, in order.
pub open spec fn blocks_payloads(bs: Seq<Seq<u8>>) -> Seq<Seq<u8>> {
    bs.map_values(|b: Seq<u8>| block_payload(b))
}

/// Every block of `bs` is well formed.
pub open spec fn all_well_formed(bs: Seq<Seq<u8>>) -> bool {
    forall|i: int| 0 <= i < bs.len() ==> well_formed_block(#[trigger] bs[i])
}

/// Reading where a LEB128 encoding starts gives its value and moves past it.
proof fn lemma_read_leb128(x: Seq<u8>, v: u64, z: Seq<u8>)
    ensures
        read_varint_outcome(x + leb128(v) + z, x.len()) == Outcome::<(Result<u64, CarError>, nat)>::Returns(
            (Ok(v), x.len() + leb128(v).len()),
        ),
{
    let s = x + leb128(v) + z;
    law_leb128_round_trip(v);
    law_varint_ignores_trailing_bytes(leb128(v), z);
    assert(s.skip(x.len() as int) =~= leb128(v) + z);
}

proof fn lemma_prefixed_empty(o: Outcome<Result<Seq<Seq<u8>>, CarError>>)
    ensures
        prefixed(Seq::empty(), o) == o,
{
    if let Outcome::Returns(Ok(rest)) = o {
        assert(Seq::<Seq<u8>>::empty() + rest =~= rest);
    }
}

/// One step of the walk over a complete block: its payload, then the walk
/// from the end of the block.
proof fn lemma_walk_one_block(x: Seq<u8>, b: Seq<u8>, z: Seq<u8>)
    requires
        well_formed_block(b),
        (x + car_block(b) + z).len() <= usize::MAX,
    ensures
        car_blocks_from(x + car_block(b) + z, x.len()) == prefixed(
            seq![block_payload(b)],
            car_blocks_from(x + car_block(b) + z, x.len() + car_block(b).len()),
        ),
{
    let s = x + car_block(b) + z;
    let n = b.len();
    let lb = leb128(n as u64);
    law_leb128_round_trip(n as u64);
    assert(s =~= x + lb + (b + z));
    lemma_read_leb128(x, n as u64, b + z);
    let start = x.len() + lb.len();
    assert(s.subrange(start as int, (start + n) as int) =~= b);
    assert(x.len() + car_block(b).len() == start + n);
}

/// Walking over complete blocks gives their payloads and ends right after them.
proof fn lemma_walk_blocks(x: Seq<u8>, bs: Seq<Seq<u8>>, y: Seq<u8>)
    requires
        all_well_formed(bs),
        (x + blocks_bytes(bs) + y).len() <= usize::MAX,
    ensures
        car_blocks_from(x + blocks_bytes(bs) + y, x.len()) == prefixed(
            blocks_payloads(bs),
            car_blocks_from(x + blocks_bytes(bs) + y, x.len() + blocks_bytes(bs).len()),
        ),
    decreases bs.len(),
{
    let s = x + blocks_bytes(bs) + y;
    if bs.len() == 0 {
        assert(blocks_payloads(bs) =~= Seq::<Seq<u8>>::empty());
        assert(blocks_bytes(bs).len() == 0);
        lemma_prefixed_empty(car_blocks_from(s, x.len()));
    } else {
        let b = bs[0];
        let rest = bs.drop_first();
        assert(well_formed_block(bs[0]));
        let x2 = x + car_block(b);
        assert(blocks_bytes(bs) == car_block(b) + blocks_bytes(rest));
        assert(s =~= x + car_block(b) + (blocks_bytes(rest) + y));
        lemma_walk_one_block(x, b, blocks_bytes(rest) + y);
        assert(s =~= x2 + blocks_bytes(rest) + y);
        assert forall|i: int| 0 <= i < rest.len() implies well_formed_block(#[trigger] rest[i]) by {
            assert(rest[i] == bs[i + 1]);
        }
        lemma_walk_blocks(x2, rest, y);
        let o = car_blocks_from(s, x2.len() + blocks_bytes(rest).len());
        lemma_prefixed_assoc(seq![block_payload(b)], blocks_payloads(rest), o);
        assert(blocks_payloads(bs) =~= seq![block_payload(b)] + blocks_payloads(rest));
        assert(x2.len() + blocks_bytes(rest).len() == x.len() + blocks_bytes(bs).len());
    }
}

/// A CAR of a header and complete blocks, then anything: its outcome is the
/// blocks' payloads put before what the walk does from the end of the blocks.
proof fn lemma_car_with_tail(h: Seq<u8>, bs: Seq<Seq<u8>>, y: Seq<u8>)
    requires
        all_well_formed(bs),
        (car_header(h) + blocks_bytes(bs) + y).len() <= usize::MAX,
    ensures
        car_outcome(car_header(h) + blocks_bytes(bs) + y) == prefixed(
            blocks_payloads(bs),
            car_blocks_from(
                car_header(h) + blocks_bytes(bs) + y,
                car_header(h).len() + blocks_bytes(bs).len(),
            ),
        ),
{
    let hd = car_header(h);
    let s = hd + blocks_bytes(bs) + y;
    law_leb128_round_trip(h.len() as u64);
    assert(s =~= Seq::<u8>::empty() + leb128(h.len() as u64) + (h + blocks_bytes(bs) + y));
    lemma_read_leb128(Seq::empty(), h.len() as u64, h + blocks_bytes(bs) + y);
    assert(car_outcome(s) == car_blocks_from(s, hd.len()));
    lemma_walk_blocks(hd, bs, y);
}

/// A CAR made of a header and complete blocks parses to the payloads of its
/// blocks, in block order: none lost, none added, none duplicated.
pub proof fn law_blocks_parse_in_order(h: Seq<u8>, bs: Seq<Seq<u8>>)
    requires
        all_well_formed(bs),
        (car_header(h) + blocks_bytes(bs)).len() <= usize::MAX,
    ensures
        car_outcome(car_header(h) + blocks_bytes(bs)) == Outcome::<Result<Seq<Seq<u8>>, CarError>>::Returns(
            Ok(blocks_payloads(bs)),
        ),
{
    let s = car_header(h) + blocks_bytes(bs);
    assert(s + Seq::<u8>::empty() =~= s);
    lemma_car_with_tail(h, bs, Seq::empty());
    assert(blocks_payloads(bs) + Seq::<Seq<u8>>::empty() =~= blocks_payloads(bs));
}

proof fn lemma_blocks_bytes_concat(a: Seq<Seq<u8>>, b: Seq<Seq<u8>>)
    ensures
        blocks_bytes(a + b) == blocks_bytes(a) + blocks_bytes(b),
    decreases a.len(),
{
    if a.len() == 0 {
        assert(a + b =~= b);
        assert(Seq::<u8>::empty() + blocks_bytes(b) =~= blocks_bytes(b));
    } else {
        lemma_blocks_bytes_concat(a.drop_first(), b);
        assert((a + b).drop_first() =~= a.drop_first() + b);
        assert((a + b)[0] == a[0]);
        assert(blocks_bytes(a + b) =~= blocks_bytes(a) + blocks_bytes(b));
    }
}

/// The payloads of two runs of blocks under one header concatenate: parsing
/// the header with both runs gives the payloads of the first run followed by
/// those of the second, each as the header with that run alone gives them.
pub proof fn law_block_runs_concatenate(h: Seq<u8>, bs1: Seq<Seq<u8>>, bs2: Seq<Seq<u8>>)
    requires
        all_well_formed(bs1),
        all_well_formed(bs2),
        (car_header(h) + blocks_bytes(bs1) + blocks_bytes(bs2)).len() <= usize::MAX,
    ensures
        car_outcome(car_header(h) + blocks_bytes(bs1)) == Outcome::<Result<Seq<Seq<u8>>, CarError>>::Returns(
            Ok(blocks_payloads(bs1)),
        ),
        car_outcome(car_header(h) + blocks_bytes(bs2)) == Outcome::<Result<Seq<Seq<u8>>, CarError>>::Returns(
            Ok(blocks_payloads(bs2)),
        ),
        car_outcome(car_header(h) + blocks_bytes(bs1) + blocks_bytes(bs2)) == Outcome::<
            Result<Seq<Seq<u8>>, CarError>,
        >::Returns(Ok(blocks_payloads(bs1) + blocks_payloads(bs2))),
{
    let bs = bs1 + bs2;
    assert forall|i: int| 0 <= i < bs.len() implies well_formed_block(#[trigger] bs[i]) by {
        if i < bs1.len() {
            assert(bs[i] == bs1[i]);
        } else {
            assert(bs[i] == bs2[i - bs1.len()]);
        }
    }
    lemma_blocks_bytes_concat(bs1, bs2);
    assert(car_header(h) + blocks_bytes(bs) =~= car_header(h) + blocks_bytes(bs1) + blocks_bytes(bs2));
    law_blocks_parse_in_order(h, bs);
    law_blocks_parse_in_order(h, bs1);
    law_blocks_parse_in_order(h, bs2);
    assert(blocks_payloads(bs) =~= blocks_payloads(bs1) + blocks_payloads(bs2));
}

/// A zero block length ends the list of blocks: whatever follows it is ignored.
pub proof fn law_zero_length_ends_blocks(h: Seq<u8>, bs: Seq<Seq<u8>>, rest: Seq<u8>)
    requires
        all_well_formed(bs),
        (car_header(h) + blocks_bytes(bs) + seq![0u8] + rest).len() <= usize::MAX,
    ensures
        car_outcome(car_header(h) + blocks_bytes(bs) + seq![0u8] + rest) == car_outcome(
            car_header(h) + blocks_bytes(bs),
        ),
{
    let x = car_header(h) + blocks_bytes(bs);
    let s = x + seq![0u8] + rest;
    assert(s =~= car_header(h) + blocks_bytes(bs) + (seq![0u8] + rest));
    lemma_car_with_tail(h, bs, seq![0u8] + rest);
    assert(leb128(0) == seq![0u8]);
    lemma_read_leb128(x, 0, rest);
    assert(car_blocks_from(s, x.len()) == Outcome::<Result<Seq<Seq<u8>>, CarError>>::Returns(Ok(Seq::empty())));
    law_blocks_parse_in_order(h, bs);
    assert(blocks_payloads(bs) + Seq::<Seq<u8>>::empty() =~= blocks_payloads(bs));
}

/// A trailing block whose declared length runs past the end of the input is
/// dropped without an error, and the blocks before it are kept.
pub proof fn law_overrunning_block_is_dropped(h: Seq<u8>, bs: Seq<Seq<u8>>, len: u64, t: Seq<u8>)
    requires
        all_well_formed(bs),
        0 < len,
        t.len() < len,
        (car_header(h) + blocks_bytes(bs) + leb128(len) + t).len() + len <= usize::MAX,
    ensures
        car_outcome(car_header(h) + blocks_bytes(bs) + leb128(len) + t) == car_outcome(
            car_header(h) + blocks_bytes(bs),
        ),
{
    let x = car_header(h) + blocks_bytes(bs);
    let s = x + leb128(len) + t;
    assert(s =~= car_header(h) + blocks_bytes(bs) + (leb128(len) + t));
    lemma_car_with_tail(h, bs, leb128(len) + t);
    lemma_read_leb128(x, len, t);
    assert(car_blocks_from(s, x.len()) == Outcome::<Result<Seq<Seq<u8>>, CarError>>::Returns(Ok(Seq::empty())));
    law_blocks_parse_in_order(h, bs);
    assert(blocks_payloads(bs) + Seq::<Seq<u8>>::empty() =~= blocks_payloads(bs));
}

/// The walk depends on the bytes after a prefix alone: moving them behind a
/// shorter prefix gives the same result, where the walk behind the longer
/// prefix does not overflow.
proof fn lemma_walk_shift(p1: Seq<u8>, p2: Seq<u8>, r: Seq<u8>, i: nat)
    requires
        p2.len() <= p1.len(),
    ensures
        !(car_blocks_from(p1 + r, p1.len() + i) is Panics) ==> car_blocks_from(p1 + r, p1.len() + i)
            == car_blocks_from(p2 + r, p2.len() + i),
    decreases r.len() - i,
{
    let s1 = p1 + r;
    let s2 = p2 + r;
    if i < r.len() {
        assert(s1.skip((p1.len() + i) as int) =~= r.skip(i as int));
        assert(s2.skip((p2.len() + i) as int) =~= r.skip(i as int));
        lemma_read_varint_advances(s1, p1.len() + i);
        if let Outcome::Returns(Ok((v, n))) = varint_outcome(r.skip(i as int)) {
            let len = v as usize;
            let j = i + n + len;
            if v != 0 && p1.len() + i + n + len <= usize::MAX && i + n + len <= r.len() {
                assert(s1.subrange(p1.len() + i + n, p1.len() + i + n + len) =~= r.subrange(
                    i + n,
                    i + n + len,
                ));
                assert(s2.subrange(p2.len() + i + n, p2.len() + i + n + len) =~= r.subrange(
                    i + n,
                    i + n + len,
                ));
                lemma_walk_shift(p1, p2, r, j as nat);
                assert(p1.len() + i + n + len == p1.len() + j);
                assert(p2.len() + i + n + len == p2.len() + j);
            }
        }
    }
}

/// The CAR header is skipped, never read as a block: whatever its length and
/// content, the result is that of an empty header before the same bytes
/// (where the longer input does not overflow the walk's arithmetic).
pub proof fn law_header_is_skipped(h: Seq<u8>, rest: Seq<u8>)
    requires
        (car_header(h) + rest).len() <= usize::MAX,
        !(car_outcome(car_header(h) + rest) is Panics),
    ensures
        car_outcome(car_header(h) + rest) == car_outcome(seq![0u8] + rest),
{
    let hd = car_header(h);
    let s1 = hd + rest;
    let s2 = seq![0u8] + rest;
    law_leb128_round_trip(h.len() as u64);
    assert(s1 =~= Seq::<u8>::empty() + leb128(h.len() as u64) + (h + rest));
    lemma_read_leb128(Seq::empty(), h.len() as u64, h + rest);
    assert(car_outcome(s1) == car_blocks_from(s1, hd.len()));
    assert(leb128(0) == seq![0u8]);
    assert(s2 =~= Seq::<u8>::empty() + leb128(0) + rest);
    lemma_read_leb128(Seq::empty(), 0, rest);
    assert(car_outcome(s2) == car_blocks_from(s2, 1));
    lemma_walk_shift(hd, seq![0u8], rest, 0);
    assert(hd.len() + 0 == hd.len());
}

/// Keeping the decoded records is compositional and drops nothing that
/// decoded: no block gives nothing, a block that decoded to `r` gives `r`
/// (whatever kind of record it is), one that did not decode gives nothing, and
/// two runs of blocks give the records of the first run followed by those of
/// the second. Together these fix the result as the `Some` values, in order.
pub proof fn law_decoded_records_keep_every_record(r: Record, a: Seq<Option<Record>>, b: Seq<Option<Record>>)
    ensures
        decoded_records(Seq::empty()) == Seq::<Record>::empty(),
        decoded_records(seq![Some(r)]) == seq![r],
        decoded_records(seq![None::<Record>]) == Seq::<Record>::empty(),
        decoded_records(a + b) == decoded_records(a) + decoded_records(b),
{
    assert(seq![Some(r)].drop_first() =~= Seq::<Option<Record>>::empty());
    assert(seq![None::<Record>].drop_first() =~= Seq::<Option<Record>>::empty());
    assert(seq![r] + Seq::<Record>::empty() =~= seq![r]);
    lemma_decoded_records_concat(a, b);
}

proof fn lemma_decoded_records_concat(a: Seq<Option<Record>>, b: Seq<Option<Record>>)
    ensures
        decoded_records(a + b) == decoded_records(a) + decoded_records(b),
    decreases a.len(),
{
    if a.len() == 0 {
        assert(a + b =~= b);
        assert(Seq::<Record>::empty() + decoded_records(b) =~= decoded_records(b));
    } else {
        lemma_decoded_records_concat(a.drop_first(), b);
        assert((a + b).drop_first() =~= a.drop_first() + b);
        assert((a + b)[0] == a[0]);
        match a[0] {
            Some(x) => {
                assert(seq![x] + (decoded_records(a.drop_first()) + decoded_records(b)) =~= (seq![x]
                    + decoded_records(a.drop_first())) + decoded_records(b));
            },
            None => {},
        }
    }
}

/// Every record that a block decoded to is among those kept: the record at
/// position `i` of the decoded blocks appears in the result.
pub proof fn law_decoded_record_is_kept(decoded: Seq<Option<Record>>, i: int)
    requires
        0 <= i < decoded.len(),
        decoded[i] is Some,
    ensures
        decoded_records(decoded).contains(decoded[i]->Some_0),
{
    let a = decoded.subrange(0, i);
    let m = seq![decoded[i]];
    let c = decoded.subrange(i + 1, decoded.len() as int);
    assert(decoded =~= a + m + c);
    law_decoded_records_keep_every_record(decoded[i]->Some_0, a + m, c);
    law_decoded_records_keep_every_record(decoded[i]->Some_0, a, m);
    let r = decoded[i]->Some_0;
    let res = decoded_records(a) + seq![r] + decoded_records(c);
    assert(res[decoded_records(a).len() as int] == r);
}

} // verus!
