//! The decisions of the firehose client: where to connect, when to retry,
//! when to flush the buffer, and what a commit frame records.
use crate::frame::CommitFrame;
use vstd::prelude::*;
use vstd::arithmetic::power2::{lemma2_to64, lemma_pow2_strictly_increases, lemma_pow2_unfold, pow2};

verus! {

/// The wait before the first reconnection, in seconds.
pub const INIT_BACKOFF_SECS: u64 = 5;

/// The longest wait between reconnections, in seconds.
pub const MAX_BACKOFF_SECS: u64 = 60;

/// The number of frames kept in memory before the buffer is flushed.
pub const MAX_BUF_SIZE: usize = 100;

/// The character of the decimal digit `d`.
pub open spec fn digit_char(d: nat) -> char {
    (48 + d) as char
}

/// The decimal representation of `n`, most significant digit first.
pub open spec fn decimal(n: nat) -> Seq<char>
    decreases n,
{
    if n < 10 {
        seq![digit_char(n)]
    } else {
        decimal(n / 10).push(digit_char(n % 10))
    }
}

/// The firehose endpoint.
pub open spec fn firehose_base() -> Seq<char> {
    "wss://bsky.network/xrpc/com.atproto.sync.subscribeRepos"@
}

/// The URL to connect to: the endpoint, resuming after sequence number `seq`
/// where one is given.
pub open spec fn firehose_url_spec(cursor: Option<u64>) -> Seq<char> {
    match cursor {
        Some(seq) => firehose_base() + "?cursor="@ + decimal(seq as nat),
        None => firehose_base(),
    }
}

fn digit_str(d: u64) -> (s: &'static str)
    requires
        d < 10,
    ensures
        s@ == seq![digit_char(d as nat)],
{
    proof {
        reveal_strlit("0");
        reveal_strlit("1");
        reveal_strlit("2");
        reveal_strlit("3");
        reveal_strlit("4");
        reveal_strlit("5");
        reveal_strlit("6");
        reveal_strlit("7");
        reveal_strlit("8");
        reveal_strlit("9");
    }
    let s = if d == 0 {
        "0"
    } else if d == 1 {
        "1"
    } else if d == 2 {
        "2"
    } else if d == 3 {
        "3"
    } else if d == 4 {
        "4"
    } else if d == 5 {
        "5"
    } else if d == 6 {
        "6"
    } else if d == 7 {
        "7"
    } else if d == 8 {
        "8"
    } else {
        "9"
    };
    assert(s@ =~= seq![digit_char(d as nat)]);
    s
}

/// The decimal representation of `n`.
pub fn decimal_string(n: u64) -> (s: String)
    ensures
        s@ == decimal(n as nat),
    decreases n,
{
    if n < 10 {
        String::from_str(digit_str(n))
    } else {
        let mut s = decimal_string(n / 10);
        s.append(digit_str(n % 10));
        s
    }
}

/// The firehose URL, resuming after sequence number `cursor` where one is given.
pub fn firehose_url(cursor: Option<u64>) -> (url: String)
    ensures
        url@ == firehose_url_spec(cursor),
{
    // Bluesky firehose WebSocket endpoint
    let mut url = String::from_str("wss://bsky.network/xrpc/com.atproto.sync.subscribeRepos");
    match cursor {
        Some(seq) => {
            url.append("?cursor=");
            let digits = decimal_string(seq);
            url.append(digits.as_str());
        },
        None => {},
    }
    url
}

/// The wait that follows `secs` after another failed connection: twice as
/// long, capped at `MAX_BACKOFF_SECS`.
pub open spec fn next_backoff(secs: u64) -> u64 {
    if 2 * secs <= MAX_BACKOFF_SECS {
        (2 * secs) as u64
    } else {
        MAX_BACKOFF_SECS
    }
}

/// Where the client stands between connections: the last sequence number it
/// saw, from which it resumes, and the wait before the next reconnection.
pub struct StreamState {
    pub last_seq: Option<u64>,
    pub backoff_secs: u64,
}

impl StreamState {
    /// The wait lies between the first one and the cap.
    pub open spec fn wf(&self) -> bool {
        INIT_BACKOFF_SECS <= self.backoff_secs <= MAX_BACKOFF_SECS
    }

    /// No sequence number seen yet, and the first wait.
    pub fn new() -> (s: Self)
        ensures
            s.last_seq is None,
            s.backoff_secs == INIT_BACKOFF_SECS,
            s.wf(),
    {
        StreamState { last_seq: None, backoff_secs: INIT_BACKOFF_SECS }
    }

    /// The URL to connect to: resuming after the last sequence number seen.
    pub fn url(&self) -> (url: String)
        ensures
            url@ == firehose_url_spec(self.last_seq),
    {
        firehose_url(self.last_seq)
    }

    /// A connection succeeded: the wait goes back to the first one.
    pub fn on_connected(&mut self)
        ensures
            final(self).last_seq == old(self).last_seq,
            final(self).backoff_secs == INIT_BACKOFF_SECS,
            final(self).wf(),
    {
        self.backoff_secs = INIT_BACKOFF_SECS;
    }

    /// A commit frame with sequence number `seq` was handled.
    pub fn on_commit(&mut self, seq: u64)
        ensures
            final(self).last_seq == Some(seq),
            final(self).backoff_secs == old(self).backoff_secs,
    {
        self.last_seq = Some(seq);
    }

    /// The connection closed or failed: returns how long to wait before the
    /// next attempt, and doubles the wait after that, up to the cap.
    pub fn on_disconnected(&mut self) -> (wait_secs: u64)
        requires
            old(self).wf(),
        ensures
            wait_secs == old(self).backoff_secs,
            final(self).backoff_secs == next_backoff(old(self).backoff_secs),
            final(self).last_seq == old(self).last_seq,
            final(self).wf(),
    {
        let wait_secs = self.backoff_secs;
        // Exponential backoff with a maximum cap
        let doubled = self.backoff_secs * 2;
        self.backoff_secs = if doubled <= MAX_BACKOFF_SECS {
            doubled
        } else {
            MAX_BACKOFF_SECS
        };
        wait_secs
    }
}

/// Whether a buffer holding `buffered` frames is to be flushed.
pub fn should_flush(buffered: usize) -> (b: bool)
    ensures
        b == (buffered > MAX_BUF_SIZE),
{
    buffered > MAX_BUF_SIZE
}

/// Keeps a commit frame in the buffer and returns its sequence number.
pub fn record_commit(buf: &mut Vec<CommitFrame>, commit: CommitFrame) -> (seq: u64)
    ensures
        final(buf)@ == old(buf)@.push(commit),
        seq == commit.seq,
{
    let seq = commit.seq;
    buf.push(commit);
    seq
}

/// The number that a run of decimal digits spells.
pub open spec fn decimal_value(s: Seq<char>) -> nat
    decreases s.len(),
{
    if s.len() == 0 {
        0
    } else {
        decimal_value(s.drop_last()) * 10 + (s.last() as nat - 48) as nat
    }
}

/// The resume cursor carries the sequence number exactly: the decimal
/// representation of `n` is a non-empty run of the digits `0`..`9` that reads
/// back as `n`.
pub proof fn law_decimal_reads_back(n: nat)
    ensures
        decimal_value(decimal(n)) == n,
        decimal(n).len() >= 1,
        forall|i: int| 0 <= i < decimal(n).len() ==> '0' <= #[trigger] decimal(n)[i] <= '9',
    decreases n,
{
    assert(n == (n / 10) * 10 + n % 10);
    assert(digit_char(n % 10) as nat == 48 + n % 10);
    if n >= 10 {
        law_decimal_reads_back(n / 10);
        let d = decimal(n);
        assert(d.drop_last() =~= decimal(n / 10));
        assert(d.last() == digit_char(n % 10));
        assert(decimal_value(d) == decimal_value(d.drop_last()) * 10 + (d.last() as nat - 48) as nat);
    } else {
        let d = decimal(n);
        assert(d.drop_last() =~= Seq::<char>::empty());
        assert(decimal_value(d) == decimal_value(d.drop_last()) * 10 + (d.last() as nat - 48) as nat);
        assert forall|i: int| 0 <= i < d.len() implies '0' <= #[trigger] d[i] <= '9' by {
            if i < d.len() - 1 {
                assert(d[i] == decimal(n / 10)[i]);
            }
        }
    }
}

/// The wait after `k` failed connections in a row, counted from a fresh
/// connection.
pub open spec fn backoff_after(k: nat) -> u64
    decreases k,
{
    if k == 0 {
        INIT_BACKOFF_SECS
    } else {
        next_backoff(backoff_after((k - 1) as nat))
    }
}

/// Exponential backoff with a cap: after `k` failures in a row the client waits
/// 5 * 2^k seconds, or 60 once that would be longer.
pub proof fn law_backoff_doubles_up_to_cap(k: nat)
    ensures
        backoff_after(k) == if 5 * pow2(k) <= 60 { 5 * pow2(k) } else { 60 },
    decreases k,
{
    lemma2_to64();
    if k > 0 {
        law_backoff_doubles_up_to_cap((k - 1) as nat);
        lemma_pow2_unfold(k);
        if k - 1 > 4 {
            lemma_pow2_strictly_increases(4, (k - 1) as nat);
        }
    }
}

/// The resume URL carries every sequence number: for `Some(seq)` it is the
/// endpoint, then `?cursor=`, then a non-empty run of decimal digits that reads
/// back as `seq`; for `None` it is the bare endpoint. So distinct sequence
/// numbers give distinct URLs, and none of them is the bare endpoint.
pub proof fn law_resume_url_carries_seq(seq: u64, other: u64)
    ensures
        firehose_url_spec(None) == firehose_base(),
        ({
            let u = firehose_url_spec(Some(seq));
            let k = firehose_base().len() + 8;
            &&& u.len() > k
            &&& u.subrange(0, k as int) == firehose_base() + "?cursor="@
            &&& decimal_value(u.skip(k as int)) == seq
            &&& forall|i: int| k <= i < u.len() ==> '0' <= #[trigger] u[i] <= '9'
        }),
        firehose_url_spec(Some(seq)) != firehose_url_spec(None),
        firehose_url_spec(Some(seq)) == firehose_url_spec(Some(other)) ==> seq == other,
{
    reveal_strlit("?cursor=");
    let b = firehose_base();
    let c = "?cursor="@;
    assert(c.len() == 8);
    let k = b.len() + 8;
    law_decimal_reads_back(seq as nat);
    law_decimal_reads_back(other as nat);
    let u = firehose_url_spec(Some(seq));
    let d = decimal(seq as nat);
    assert(u == b + c + d);
    assert(u.subrange(0, k as int) =~= b + c);
    assert(u.skip(k as int) =~= d);
    assert forall|i: int| k <= i < u.len() implies '0' <= #[trigger] u[i] <= '9' by {
        assert(u[i] == d[i - k]);
    }
    let v = firehose_url_spec(Some(other));
    assert(v.skip(k as int) =~= decimal(other as nat));
    if u == v {
        assert(u.skip(k as int) == v.skip(k as int));
    }
    assert(u.len() != b.len());
}

} // verus!
