//! Low-level CAR format primitives.
//!
//! CAR (Content Addressable aRchive) is the packaging format in which Bluesky
//! bundles repo blocks in firehose commit events. Each block is prefixed by a
//! varint length and a CID.
use vstd::prelude::*;
use vstd::arithmetic::power2::*;
use vstd::arithmetic::mul::*;
use vstd::arithmetic::div_mod::*;
use vstd::bits::*;

verus! {

/// Errors of the CAR primitives.
#[derive(Debug, Clone, Copy, PartialEq, Eq, Structural)]
pub enum CarError {
    /// A cursor ran out of bytes before a varint was complete.
    UnexpectedEof,
    /// A byte slice ended before its varint was complete.
    VarintNotTerminated,
}

/// What a CAR operation does on a given input: it returns a value, or its
/// arithmetic overflows or a slice bound falls outside the bytes (`Panics`).
/// The functions on these inputs exclude such inputs by their `requires`, or
/// report them as `None`.
pub enum Outcome<T> {
    Returns(T),
    Panics,
}

/// Number of bytes that the varint at the start of `s` occupies: all bytes up to
/// and including the first one whose high bit is clear. `None` when no byte of
/// `s` has a clear high bit.
pub open spec fn varint_len(s: Seq<u8>) -> Option<nat>
    decreases s.len(),
{
    if s.len() == 0 {
        None
    } else if s[0] < 0x80 {
        Some(1)
    } else {
        match varint_len(s.drop_first()) {
            Some(n) => Some(n + 1),
            None => None,
        }
    }
}

/// The number that the first `n` bytes of `s` spell: each byte contributes
/// its low seven bits, least significant group first.
pub open spec fn varint_digits(s: Seq<u8>, n: nat) -> nat
    decreases n,
{
    if n == 0 {
        0
    } else {
        varint_digits(s, (n - 1) as nat) + (s[n - 1] % 128) as nat * pow2(7 * (n - 1) as nat)
    }
}

/// The 64-bit value of a varint of `n` bytes: its digits, truncated to 64 bits.
pub open spec fn varint_value(s: Seq<u8>, n: nat) -> u64 {
    (varint_digits(s, n) % pow2(64)) as u64
}

/// A varint whose first ten bytes all carry the continuation bit and which goes
/// on past them: decoding it would shift a group by 70 bits, which overflows.
pub open spec fn varint_overlong(s: Seq<u8>) -> bool {
    &&& s.len() > 10
    &&& forall|i: int| 0 <= i < 10 ==> #[trigger] s[i] >= 0x80
}

/// What decoding a varint from the start of `s` gives: the value and the number
/// of bytes consumed, or an error when the bytes run out first.
pub open spec fn varint_outcome(s: Seq<u8>) -> Outcome<Result<(u64, usize), CarError>> {
    if varint_overlong(s) {
        Outcome::Panics
    } else {
        match varint_len(s) {
            Some(n) => Outcome::Returns(Ok((varint_value(s, n), n as usize))),
            None => Outcome::Returns(Err(CarError::VarintNotTerminated)),
        }
    }
}

/// Skipping a run of continuation bytes moves the end of the varint by as many bytes.
proof fn lemma_varint_len_skip(s: Seq<u8>, i: int)
    requires
        0 <= i <= s.len(),
        forall|j: int| 0 <= j < i ==> s[j] >= 0x80,
    ensures
        varint_len(s) == match varint_len(s.skip(i)) {
            Some(n) => Some(n + i as nat),
            None => None::<nat>,
        },
    decreases i,
{
    if i > 0 {
        let t = s.drop_first();
        assert forall|j: int| 0 <= j < i - 1 implies t[j] >= 0x80 by {
            assert(t[j] == s[j + 1]);
        }
        lemma_varint_len_skip(t, i - 1);
        assert(t.skip(i - 1) =~= s.skip(i));
    } else {
        assert(s.skip(0) =~= s);
    }
}

/// A varint that does not panic is at most ten bytes long.
proof fn lemma_varint_len_at_most_ten(s: Seq<u8>)
    requires
        !varint_overlong(s),
    ensures
        varint_len(s) matches Some(n) ==> 1 <= n <= 10 && n <= s.len(),
{
    if let Some(n) = varint_len(s) {
        lemma_varint_len_bounds(s);
        if n > 10 {
            lemma_varint_len_prefix_continues(s);
            assert(forall|i: int| 0 <= i < 10 ==> #[trigger] s[i] >= 0x80);
        }
    }
}

/// The varint's length lies between one and the length of its bytes.
proof fn lemma_varint_len_bounds(s: Seq<u8>)
    ensures
        varint_len(s) matches Some(n) ==> 1 <= n <= s.len(),
    decreases s.len(),
{
    if s.len() > 0 && s[0] >= 0x80 {
        lemma_varint_len_bounds(s.drop_first());
    }
}

/// Every byte of a varint but its last carries the continuation bit; the last does not.
proof fn lemma_varint_len_prefix_continues(s: Seq<u8>)
    ensures
        varint_len(s) matches Some(n) ==> (forall|i: int| 0 <= i < n - 1 ==> #[trigger] s[i] >= 0x80)
            && s[n - 1] < 0x80,
    decreases s.len(),
{
    lemma_varint_len_bounds(s);
    if s.len() > 0 && s[0] >= 0x80 {
        let t = s.drop_first();
        lemma_varint_len_prefix_continues(t);
        lemma_varint_len_bounds(t);
        if let Some(n) = varint_len(s) {
            assert forall|i: int| 0 <= i < n - 1 implies #[trigger] s[i] >= 0x80 by {
                if i > 0 {
                    assert(s[i] == t[i - 1]);
                }
            }
        }
    }
}

/// The digits of `k` bytes are below 2^(7k).
proof fn lemma_varint_digits_bound(s: Seq<u8>, k: nat)
    ensures
        varint_digits(s, k) < pow2(7 * k),
    decreases k,
{
    if k == 0 {
        lemma2_to64();
    } else {
        let j = (k - 1) as nat;
        lemma_varint_digits_bound(s, j);
        let p = pow2(7 * j);
        let d = (s[j as int] % 128) as nat;
        lemma_mul_inequality(d as int, 127, p as int);
        lemma_pow2_adds(7 * j, 7);
        lemma2_to64();
        assert(7 * k == 7 * j + 7);
        assert(pow2(7 * k) == p * 128);
    }
}

/// One step of the decoding loop: or-ing the next group in at bit 7k adds its digit.
proof fn lemma_varint_step(s: Seq<u8>, k: nat, r: u64)
    requires
        k < 10,
        r == varint_value(s, k),
    ensures
        (r | (((s[k as int] & 0x7f) as u64) << ((7 * k) as u64))) == varint_value(s, k + 1),
        k + 1 < 10 ==> varint_digits(s, k + 1) < pow2(63),
{
    let b = s[k as int];
    let x = (b & 0x7f) as u64;
    assert(b & 0x7f == b % 128) by (bit_vector);
    let sh = (7 * k) as u64;
    lemma2_to64();
    lemma2_to64_rest();
    lemma_varint_digits_bound(s, k);
    lemma_varint_digits_bound(s, k + 1);
    lemma_pow2_pos(7 * k);
    // the digits so far fit below 2^(7k) <= 2^63, so r holds them exactly
    if k < 9 {
        lemma_pow2_increases(7 * k, 56);
        lemma_pow2_increases(7 * (k + 1), 63);
    }
    lemma_pow2_increases(7 * k, 63);
    lemma_small_mod(varint_digits(s, k), pow2(64));
    assert(r == varint_digits(s, k));
    lemma_u64_shl_is_mul(1, sh);
    assert(r < (1u64 << sh));
    assert(r & (x << sh) == 0 && (r | (x << sh)) == r + (x << sh)) by (bit_vector)
        requires
            r < (1u64 << sh),
            sh < 64,
    ;
    if k < 9 {
        lemma_mul_inequality(x as int, 127, pow2(7 * k) as int);
        lemma_u64_shl_is_mul(x, sh);
        assert(varint_digits(s, k + 1) == varint_digits(s, k) + x * pow2(7 * k));
        lemma_small_mod(varint_digits(s, k + 1), pow2(64));
    } else {
        assert(sh == 63);
        let h = x % 2;
        assert((x << 63u64) == (h << 63u64)) by (bit_vector)
            requires
                h == x % 2,
        ;
        lemma_u64_shl_is_mul(h, 63);
        let q = x / 2;
        assert(x * pow2(63) == q * pow2(64) + h * pow2(63)) by (nonlinear_arith)
            requires
                x == 2 * q + h,
                pow2(64) == 2 * pow2(63),
        ;
        let lo = varint_digits(s, k) + h * pow2(63);
        assert(varint_digits(s, k + 1) == pow2(64) * q + lo);
        lemma_mod_multiples_vanish(q as int, lo as int, pow2(64) as int);
        lemma_small_mod(lo as nat, pow2(64));
    }
}

proof fn lemma_pow2_increases(a: nat, b: nat)
    requires
        a <= b,
    ensures
        pow2(a) <= pow2(b),
{
    if a < b {
        lemma_pow2_strictly_increases(a, b);
    }
}

/// Decodes the varint that starts at `start`; `None` where the decoding would
/// overflow its shift.
pub(crate) fn decode_varint_at(data: &[u8], start: usize) -> (r: Option<Result<(u64, usize), CarError>>)
    requires
        start <= data@.len(),
    ensures
        match varint_outcome(data@.skip(start as int)) {
            Outcome::Panics => r is None,
            Outcome::Returns(v) => r == Some(v),
        },
        r matches Some(Ok((v, n))) ==> 1 <= n <= data@.len() - start,
{
    let ghost s = data@.skip(start as int);
    let mut result: u64 = 0;
    let mut shift: u64 = 0;
    let mut i: usize = start;
    proof {
        lemma2_to64();
    }
    while i < data.len()
        invariant
            start <= i <= data@.len(),
            s == data@.skip(start as int),
            i - start <= 10,
            shift == 7 * (i - start),
            forall|j: int| 0 <= j < i - start ==> s[j] >= 0x80,
            result == varint_value(s, (i - start) as nat),
        decreases data@.len() - i,
    {
        if i - start == 10 {
            assert(varint_overlong(s));
            return None;
        }
        let byte = data[i];
        proof {
            assert(byte == s[i - start]);
            lemma_varint_step(s, (i - start) as nat, result);
        }
        result = result | (((byte & 0x7f) as u64) << shift);
        if byte & 0x80 == 0 {
            proof {
                assert(byte & 0x80 == 0 ==> byte < 0x80) by (bit_vector);
                lemma_varint_len_skip(s, i - start);
                assert(s.skip(i - start)[0] == byte);
                assert(!varint_overlong(s));
                lemma_varint_len_bounds(s);
            }
            return Some(Ok((result, i - start + 1)));
        }
        proof {
            assert(byte & 0x80 != 0 ==> byte >= 0x80) by (bit_vector);
        }
        shift = shift + 7;
        i = i + 1;
    }
    proof {
        lemma_varint_len_skip(s, i - start);
        assert(s.skip(i - start).len() == 0);
        if varint_overlong(s) {
            assert(i - start == 10);
        }
    }
    Some(Err(CarError::VarintNotTerminated))
}

/// Decodes a varint from a plain byte slice.
/// Returns `(value, bytes_consumed)`.
///
/// Layout: each byte contributes 7 bits. High bit = more bytes follow.
///   0x2A        → 42
///   0x8A 0x01   → 138
pub fn decode_varint(data: &[u8]) -> (r: Result<(u64, usize), CarError>)
    requires
        !varint_overlong(data@),
    ensures
        varint_outcome(data@) == Outcome::Returns(r),
        r matches Ok((v, n)) ==> varint_len(data@) == Some(n as nat) && v == varint_value(data@, n as nat),
        r is Err <==> varint_len(data@) is None,
        r matches Err(e) ==> e == CarError::VarintNotTerminated,
{
    proof {
        assert(data@.skip(0) =~= data@);
        lemma_varint_len_at_most_ten(data@);
    }
    decode_varint_at(data, 0).unwrap()
}

/// A cursor over a byte slice: the bytes and a position into them. The position
/// may be set past the end; reads there find no bytes.
pub struct Cursor<'a> {
    data: &'a [u8],
    pos: usize,
}

impl<'a> Cursor<'a> {
    /// The bytes under the cursor.
    pub closed spec fn bytes(&self) -> Seq<u8> {
        self.data@
    }

    /// The cursor's position.
    pub closed spec fn pos(&self) -> nat {
        self.pos as nat
    }

    /// A cursor at the start of `data`.
    pub fn new(data: &'a [u8]) -> (c: Self)
        ensures
            c.bytes() == data@,
            c.pos() == 0,
    {
        Cursor { data, pos: 0 }
    }

    /// The current position.
    pub fn position(&self) -> (p: usize)
        ensures
            p == self.pos(),
    {
        self.pos
    }

    /// Moves the cursor to `pos`, which may lie past the end.
    pub fn set_position(&mut self, pos: usize)
        ensures
            final(self).bytes() == old(self).bytes(),
            final(self).pos() == pos,
    {
        self.pos = pos;
    }

    /// The bytes under the cursor.
    pub fn get_ref(&self) -> (r: &'a [u8])
        ensures
            r@ == self.bytes(),
    {
        self.data
    }
}

/// What reading a varint at position `pos` of `s` gives: the result and the
/// position afterwards. A read at or past the end fails and leaves the position;
/// a read that runs out of bytes fails with the position at the end.
pub open spec fn read_varint_outcome(s: Seq<u8>, pos: nat) -> Outcome<(Result<u64, CarError>, nat)> {
    if pos >= s.len() {
        Outcome::Returns((Err(CarError::UnexpectedEof), pos))
    } else {
        match varint_outcome(s.skip(pos as int)) {
            Outcome::Panics => Outcome::Panics,
            Outcome::Returns(Ok((v, n))) => Outcome::Returns((Ok(v), pos + n as nat)),
            Outcome::Returns(Err(_)) => Outcome::Returns((Err(CarError::UnexpectedEof), s.len())),
        }
    }
}

/// Reads a varint at the cursor; `None` where the decoding would overflow its shift,
/// and then the cursor is left as it was.
pub(crate) fn read_varint_checked(cursor: &mut Cursor) -> (r: Option<Result<u64, CarError>>)
    ensures
        final(cursor).bytes() == old(cursor).bytes(),
        match read_varint_outcome(old(cursor).bytes(), old(cursor).pos()) {
            Outcome::Panics => r is None && final(cursor).pos() == old(cursor).pos(),
            Outcome::Returns((res, p)) => r == Some(res) && final(cursor).pos() == p,
        },
{
    if cursor.pos >= cursor.data.len() {
        return Some(Err(CarError::UnexpectedEof));
    }
    match decode_varint_at(cursor.data, cursor.pos) {
        None => None,
        Some(Ok((v, n))) => {
            cursor.pos = cursor.pos + n;
            Some(Ok(v))
        },
        Some(Err(_)) => {
            cursor.pos = cursor.data.len();
            Some(Err(CarError::UnexpectedEof))
        },
    }
}

/// Reads an unsigned variable-length integer (varint) from a cursor and moves
/// the cursor past it.
///
/// Layout: each byte contributes 7 bits. High bit = more bytes follow.
///   0x2A        → 42
///   0x8A 0x01   → 138
pub fn read_varint(cursor: &mut Cursor) -> (r: Result<u64, CarError>)
    requires
        !(read_varint_outcome(old(cursor).bytes(), old(cursor).pos()) is Panics),
    ensures
        final(cursor).bytes() == old(cursor).bytes(),
        read_varint_outcome(old(cursor).bytes(), old(cursor).pos()) == Outcome::Returns(
            (r, final(cursor).pos()),
        ),
{
    read_varint_checked(cursor).unwrap()
}

/// A read that succeeds moves the position forward and stays within the bytes.
pub proof fn lemma_read_varint_advances(s: Seq<u8>, pos: nat)
    ensures
        read_varint_outcome(s, pos) matches Outcome::Returns((Ok(_), p)) ==> pos < p <= s.len(),
{
    if pos < s.len() {
        let t = s.skip(pos as int);
        lemma_varint_len_bounds(t);
        lemma_varint_len_at_most_ten_or_panics(t);
    }
}

/// Outside the panicking inputs, a varint is at most ten bytes long.
proof fn lemma_varint_len_at_most_ten_or_panics(s: Seq<u8>)
    ensures
        !varint_overlong(s) ==> (varint_len(s) matches Some(n) ==> 1 <= n <= 10 && n <= s.len()),
{
    if !varint_overlong(s) {
        lemma_varint_len_at_most_ten(s);
    }
}

/// Reads `k` varints back to back from position `pos` of `s`: the position
/// after them and the last value read.
pub open spec fn varints_from(s: Seq<u8>, pos: nat, k: nat) -> Outcome<Result<(nat, u64), CarError>>
    decreases k,
{
    if k == 0 {
        Outcome::Returns(Ok((pos, 0)))
    } else {
        match varints_from(s, pos, (k - 1) as nat) {
            Outcome::Returns(Ok((p, _))) => match varint_outcome(s.skip(p as int)) {
                Outcome::Returns(Ok((v, n))) => Outcome::Returns(Ok((p + n as nat, v))),
                Outcome::Returns(Err(e)) => Outcome::Returns(Err(e)),
                Outcome::Panics => Outcome::Panics,
            },
            other => other,
        }
    }
}

/// Once a run of reads has failed or panicked, reading further does not change that.
proof fn lemma_varints_from_stuck(s: Seq<u8>, pos: nat, k: nat, m: nat)
    requires
        k <= m,
        !(varints_from(s, pos, k) is Returns && varints_from(s, pos, k)->Returns_0 is Ok),
    ensures
        varints_from(s, pos, m) == varints_from(s, pos, k),
    decreases m - k,
{
    if k < m {
        lemma_varints_from_stuck(s, pos, k, (m - 1) as nat);
    }
}

/// The length of the CIDv1 prefix at the start of `s`: the four varints
/// (version, codec, hash function, digest length) followed by as many digest
/// bytes as the last of them says. The length may reach past the end of `s`.
pub open spec fn cid_prefix_outcome(s: Seq<u8>) -> Outcome<Result<usize, CarError>> {
    match varints_from(s, 0, 4) {
        Outcome::Returns(Ok((p, digest_len))) => {
            let total = p + (digest_len as usize);
            if total > usize::MAX {
                Outcome::Panics
            } else {
                Outcome::Returns(Ok(total as usize))
            }
        },
        Outcome::Returns(Err(e)) => Outcome::Returns(Err(e)),
        Outcome::Panics => Outcome::Panics,
    }
}

/// The CIDv1 prefix length; `None` where adding the digest length overflows.
pub(crate) fn cid_prefix_len_checked(data: &[u8]) -> (r: Option<Result<usize, CarError>>)
    ensures
        match cid_prefix_outcome(data@) {
            Outcome::Panics => r is None,
            Outcome::Returns(v) => r == Some(v),
        },
{
    let mut pos: usize = 0;
    let mut last: u64 = 0;
    let mut k: usize = 0;
    while k < 4
        invariant
            k <= 4,
            pos <= data@.len(),
            varints_from(data@, 0, k as nat) == Outcome::<Result<(nat, u64), CarError>>::Returns(
                Ok((pos as nat, last)),
            ),
        decreases 4 - k,
    {
        let r = decode_varint_at(data, pos);
        match r {
            None => {
                proof {
                    lemma_varints_from_stuck(data@, 0, (k + 1) as nat, 4);
                }
                return None;
            },
            Some(Err(e)) => {
                proof {
                    lemma_varints_from_stuck(data@, 0, (k + 1) as nat, 4);
                }
                return Some(Err(e));
            },
            Some(Ok((v, n))) => {
                assert(n <= data@.len() - pos);
                assert(data@.len() == data.len());
                pos = pos + n;
                last = v;
            },
        }
        k = k + 1;
    }
    let digest_len: usize = #[verifier::truncate] (last as usize);
    match pos.checked_add(digest_len) {
        Some(total) => Some(Ok(total)),
        None => None,
    }
}

/// Returns how many bytes the CIDv1 prefix occupies at the start of a block.
///
/// CIDv1 layout:
///   [version: varint] [codec: varint] [hash-fn: varint] [digest-len: varint] [digest: bytes]
///
/// Typical SHA2-256 DAG-CBOR CID = 36 bytes:
///   0x01 0x71 0x12 0x20 [32 bytes]
pub fn cid_prefix_len(data: &[u8]) -> (r: Result<usize, CarError>)
    requires
        !(cid_prefix_outcome(data@) is Panics),
    ensures
        cid_prefix_outcome(data@) == Outcome::Returns(r),
{
    cid_prefix_len_checked(data).unwrap()
}

/// The digits of the first `n` bytes depend on those bytes alone.
proof fn lemma_varint_digits_prefix(s: Seq<u8>, t: Seq<u8>, n: nat)
    requires
        n <= s.len(),
    ensures
        varint_digits(s + t, n) == varint_digits(s, n),
    decreases n,
{
    if n > 0 {
        lemma_varint_digits_prefix(s, t, (n - 1) as nat);
        assert((s + t)[n - 1] == s[n - 1]);
    }
}

/// The length of a complete varint does not depend on what follows it.
proof fn lemma_varint_len_prefix(s: Seq<u8>, t: Seq<u8>)
    requires
        varint_len(s) is Some,
    ensures
        varint_len(s + t) == varint_len(s),
    decreases s.len(),
{
    assert((s + t)[0] == s[0]);
    if s[0] >= 0x80 {
        lemma_varint_len_prefix(s.drop_first(), t);
        assert((s + t).drop_first() =~= s.drop_first() + t);
    }
}

/// Decoding a varint ignores the bytes that follow it: where the bytes `s`
/// decode to a value, `s` followed by anything decodes to the same value and
/// consumes the same number of bytes.
pub proof fn law_varint_ignores_trailing_bytes(s: Seq<u8>, t: Seq<u8>)
    ensures
        varint_outcome(s) matches Outcome::Returns(Ok(x)) ==> varint_outcome(s + t) == varint_outcome(s),
{
    if let Outcome::Returns(Ok((v, n))) = varint_outcome(s) {
        lemma_varint_len_prefix(s, t);
        lemma_varint_len_at_most_ten(s);
        lemma_varint_digits_prefix(s, t, n as nat);
        lemma_varint_len_prefix_continues(s);
        if varint_overlong(s + t) {
            assert(s[n - 1] < 0x80);
            assert((s + t)[n - 1] == s[n - 1]);
        }
    }
}

/// Each byte contributes seven bits: a varint of fewer than ten bytes holds a
/// value below 2^(7n), and its value is exactly its digits.
pub proof fn law_varint_value_fits_its_bytes(s: Seq<u8>, n: nat)
    requires
        n < 10,
    ensures
        varint_value(s, n) == varint_digits(s, n),
        varint_value(s, n) < pow2(7 * n),
{
    lemma_varint_digits_bound(s, n);
    lemma2_to64();
    lemma2_to64_rest();
    lemma_pow2_increases(7 * n, 64);
    lemma_pow2_pos(64);
    lemma_small_mod(varint_digits(s, n), pow2(64));
}

/// Reading a varint from a cursor agrees with decoding the cursor's remaining
/// bytes: the same value, and the cursor moves past as many bytes as the
/// decoding consumes.
pub proof fn law_read_varint_is_decode_of_rest(s: Seq<u8>, pos: nat)
    requires
        pos < s.len(),
    ensures
        match varint_outcome(s.skip(pos as int)) {
            Outcome::Returns(Ok((v, n))) => read_varint_outcome(s, pos) == Outcome::Returns(
                (Ok::<u64, CarError>(v), pos + n as nat),
            ),
            Outcome::Returns(Err(_)) => read_varint_outcome(s, pos) == Outcome::Returns(
                (Err::<u64, CarError>(CarError::UnexpectedEof), s.len()),
            ),
            Outcome::Panics => read_varint_outcome(s, pos) is Panics,
        },
{
}

/// A CID whose version, codec, hash function and digest length each fit in one
/// byte occupies those four bytes and the digest: `4 + digest_len` bytes,
/// whatever follows. (The typical SHA2-256 DAG-CBOR CID, `01 71 12 20` and a
/// 32-byte digest, is 36 bytes.)
pub proof fn law_cid_prefix_of_single_byte_fields(version: u8, codec: u8, hash_fn: u8, digest_len: u8, rest: Seq<u8>)
    requires
        version < 0x80,
        codec < 0x80,
        hash_fn < 0x80,
        digest_len < 0x80,
    ensures
        cid_prefix_outcome(seq![version, codec, hash_fn, digest_len] + rest) == Outcome::<
            Result<usize, CarError>,
        >::Returns(Ok((4 + digest_len) as usize)),
{
    let s = seq![version, codec, hash_fn, digest_len] + rest;
    assert(s.skip(0) =~= s);
    lemma_single_byte_varint(s.skip(0));
    lemma_single_byte_varint(s.skip(1));
    lemma_single_byte_varint(s.skip(2));
    lemma_single_byte_varint(s.skip(3));
    assert(varints_from(s, 0, 0) == Outcome::<Result<(nat, u64), CarError>>::Returns(Ok((0nat, 0u64))));
    assert(varints_from(s, 0, 1) == Outcome::<Result<(nat, u64), CarError>>::Returns(Ok((1nat, version as u64))));
    assert(varints_from(s, 0, 2) == Outcome::<Result<(nat, u64), CarError>>::Returns(Ok((2nat, codec as u64))));
    assert(varints_from(s, 0, 3) == Outcome::<Result<(nat, u64), CarError>>::Returns(Ok((3nat, hash_fn as u64))));
    assert(varints_from(s, 0, 4) == Outcome::<Result<(nat, u64), CarError>>::Returns(Ok((4nat, digest_len as u64))));
}

/// A byte with a clear high bit is a whole varint, whose value is the byte.
proof fn lemma_single_byte_varint(t: Seq<u8>)
    requires
        t.len() >= 1,
        t[0] < 0x80,
    ensures
        varint_outcome(t) == Outcome::<Result<(u64, usize), CarError>>::Returns(Ok((t[0] as u64, 1usize))),
{
    reveal_with_fuel(varint_digits, 2);
    lemma2_to64();
    lemma2_to64_rest();
    assert(varint_digits(t, 1) == (t[0] % 128) as nat * pow2(0));
    lemma_small_mod(varint_digits(t, 1), pow2(64));
}

/// The minimal unsigned LEB128 encoding of `v`: seven bits per byte, least
/// significant group first, the high bit set on every byte but the last.
pub open spec fn leb128(v: u64) -> Seq<u8>
    decreases v,
{
    if v < 128 {
        seq![v as u8]
    } else {
        seq![(v % 128 + 128) as u8] + leb128(v / 128)
    }
}

/// The digits of a byte put in front of `t`: its low seven bits, then the
/// digits of `t` shifted up by seven bits.
proof fn lemma_varint_digits_cons(b: u8, t: Seq<u8>, n: nat)
    requires
        n <= t.len(),
    ensures
        varint_digits(seq![b] + t, n + 1) == (b % 128) as nat + 128 * varint_digits(t, n),
    decreases n,
{
    let s = seq![b] + t;
    lemma2_to64();
    if n == 0 {
        assert(s[0] == b);
        assert(varint_digits(s, 1) == varint_digits(s, 0) + (s[0] % 128) as nat * pow2(0));
    } else {
        lemma_varint_digits_cons(b, t, (n - 1) as nat);
        assert(s[n as int] == t[n - 1]);
        let x = (t[n - 1] % 128) as nat;
        let p = pow2(7 * (n - 1) as nat);
        lemma_pow2_adds(7 * (n - 1) as nat, 7);
        assert(7 * n == 7 * (n - 1) as nat + 7);
        assert(pow2(7 * n) == p * 128);
        assert(x * pow2(7 * n) == 128 * (x * p)) by (nonlinear_arith)
            requires
                pow2(7 * n) == p * 128,
        ;
        assert(varint_digits(s, n + 1) == varint_digits(s, n) + (s[n as int] % 128) as nat * pow2(
            7 * n,
        ));
        assert(varint_digits(t, n) == varint_digits(t, (n - 1) as nat) + x * p);
    }
}

/// The encoding of a value below 2^(7k) takes at most `k` bytes, and every byte
/// but the last carries the continuation bit.
proof fn lemma_leb128_shape(v: u64, k: nat)
    requires
        k >= 1,
        v < pow2(7 * k),
    ensures
        1 <= leb128(v).len() <= k,
        varint_len(leb128(v)) == Some(leb128(v).len()),
        varint_digits(leb128(v), leb128(v).len()) == v,
    decreases v,
{
    lemma2_to64();
    let e = leb128(v);
    if v < 128 {
        assert(e[0] == v as u8);
        assert(e.drop_first().len() == 0);
        assert(varint_digits(e, 1) == varint_digits(e, 0) + (e[0] % 128) as nat * pow2(0));
    } else {
        let w = v / 128;
        let b = (v % 128 + 128) as u8;
        if k == 1 {
            assert(false);
        }
        lemma_pow2_adds(7 * (k - 1) as nat, 7);
        assert(7 * k == 7 * (k - 1) as nat + 7);
        assert(w < pow2(7 * (k - 1) as nat)) by (nonlinear_arith)
            requires
                v < pow2(7 * (k - 1) as nat) * 128,
                w == v / 128,
        ;
        lemma_leb128_shape(w, (k - 1) as nat);
        let t = leb128(w);
        assert(e == seq![b] + t);
        assert(e[0] == b);
        assert(e.drop_first() =~= t);
        lemma_varint_digits_cons(b, t, t.len());
        assert(v == v % 128 + 128 * w);
    }
}

/// Decoding the minimal LEB128 encoding of `v` gives back `v`, consuming all
/// of its bytes, of which there are one to ten.
pub proof fn law_leb128_round_trip(v: u64)
    ensures
        1 <= leb128(v).len() <= 10,
        varint_outcome(leb128(v)) == Outcome::<Result<(u64, usize), CarError>>::Returns(
            Ok((v, leb128(v).len() as usize)),
        ),
{
    lemma2_to64();
    lemma2_to64_rest();
    lemma_pow2_adds(64, 6);
    lemma_pow2_pos(6);
    assert(pow2(70) == pow2(64) * 64);
    lemma_leb128_shape(v, 10);
    let e = leb128(v);
    lemma_small_mod(v as nat, pow2(64));
}

} // verus!
