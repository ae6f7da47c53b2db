use firehose::blocks::Blocks;
use firehose::frame::{CborHeader, CommitFrame};
use firehose::stream::{
    decimal_string, firehose_url, record_commit, should_flush, StreamState, INIT_BACKOFF_SECS,
    MAX_BACKOFF_SECS,
};

fn commit(seq: u64) -> CommitFrame {
    CommitFrame {
        blocks: Blocks(vec![]),
        ops: vec![],
        prev_data: None,
        rebase: false,
        repo: "did:plc:c2siiyz4tk2srtljtrihlm7b".to_string(),
        rev: "3mmt4qdtkog2j".to_string(),
        seq,
        since: "3mmt4q7vy3k2u".to_string(),
        time: "2026-05-27T08:48:23.072Z".to_string(),
        too_big: false,
    }
}

#[test]
fn url_without_cursor() {
    assert_eq!(firehose_url(None), "wss://bsky.network/xrpc/com.atproto.sync.subscribeRepos");
}

#[test]
fn url_with_cursor() {
    assert_eq!(
        firehose_url(Some(30391757702)),
        "wss://bsky.network/xrpc/com.atproto.sync.subscribeRepos?cursor=30391757702"
    );
    assert_eq!(
        firehose_url(Some(0)),
        "wss://bsky.network/xrpc/com.atproto.sync.subscribeRepos?cursor=0"
    );
}

#[test]
fn decimal_string_values() {
    assert_eq!(decimal_string(0), "0");
    assert_eq!(decimal_string(9), "9");
    assert_eq!(decimal_string(10), "10");
    assert_eq!(decimal_string(u64::MAX), u64::MAX.to_string());
}

#[test]
fn header_is_commit() {
    let h = CborHeader { event_type: Some("#commit".to_string()), op: 1 };
    assert!(h.is_commit());
    let h = CborHeader { event_type: Some("#identity".to_string()), op: 1 };
    assert!(!h.is_commit());
    let h = CborHeader { event_type: None, op: -1 };
    assert!(!h.is_commit());
}

#[test]
fn backoff_doubles_up_to_cap_and_resets() {
    let mut s = StreamState::new();
    assert_eq!(s.backoff_secs, INIT_BACKOFF_SECS);
    let waits: Vec<u64> = (0..6).map(|_| s.on_disconnected()).collect();
    assert_eq!(waits, vec![5, 10, 20, 40, 60, 60]);
    assert_eq!(s.backoff_secs, MAX_BACKOFF_SECS);
    s.on_connected();
    assert_eq!(s.backoff_secs, 5);
}

#[test]
fn state_resumes_from_last_commit() {
    let mut s = StreamState::new();
    assert_eq!(s.url(), firehose_url(None));
    s.on_commit(42);
    assert_eq!(s.last_seq, Some(42));
    assert_eq!(s.url(), firehose_url(Some(42)));
}

#[test]
fn flush_only_above_limit() {
    assert!(!should_flush(0));
    assert!(!should_flush(100));
    assert!(should_flush(101));
}

#[test]
fn record_commit_keeps_frame_and_returns_seq() {
    let mut buf = vec![commit(1)];
    assert_eq!(record_commit(&mut buf, commit(30391757702)), 30391757702);
    assert_eq!(buf.len(), 2);
    assert_eq!(buf[1].seq, 30391757702);
}
