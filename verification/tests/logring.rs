//! The log buffer.

use hc32_firmware::logring::{LogRing, LEN_FLAG_TRUNCATED, LEN_MASK};

fn push<const CAP: usize>(ring: &mut LogRing<CAP>, text: &str) -> bool {
    let Some(mut mark) = ring.begin_entry() else {
        return false;
    };
    ring.append_to_entry(&mut mark, text.as_bytes());
    ring.commit_entry(&mark);
    true
}

const DROP_1: &[u8] = "[日志缓冲溢出, 丢弃 1 条]\n".as_bytes();

#[test]
fn append_and_drain_roundtrip() {
    let mut ring = LogRing::<64>::new();
    assert!(ring.is_empty());
    assert!(push(&mut ring, "hello"));
    assert!(push(&mut ring, "world"));
    assert_eq!(ring.bytes_pending(), 2 + 5 + 2 + 5);
    let mut out = Vec::new();
    assert_eq!(ring.drain_into(&mut out), 12);
    assert_eq!(out, b"hello\nworld\n");
    assert!(ring.is_empty());
}

#[test]
fn overflow_drops_oldest_entries_with_marker() {
    let mut ring = LogRing::<32>::new();

    assert!(push(&mut ring, "entry-01"));
    assert!(push(&mut ring, "entry-02"));
    assert!(push(&mut ring, "entry-03"));
    assert_eq!(ring.bytes_pending(), 30);

    assert!(push(&mut ring, "entry-04"));
    let mut out = Vec::new();
    ring.drain_into(&mut out);
    let mut expected = DROP_1.to_vec();
    expected.extend_from_slice(b"entry-02\nentry-03\nentry-04\n");
    assert_eq!(out, expected);
}

#[test]
fn oversized_entry_evicts_oldest_then_truncates() {
    let mut ring = LogRing::<16>::new();
    assert!(push(&mut ring, "small"));

    let mut mark = ring.begin_entry().expect("begin 失败");
    assert!(!ring.append_to_entry(&mut mark, b"this entry is far too long"));
    ring.commit_entry(&mark);
    let mut out = Vec::new();
    ring.drain_into(&mut out);
    assert_eq!(out, DROP_1);
}

#[test]
fn incremental_entry_is_truncated_at_capacity() {
    let mut ring = LogRing::<16>::new();
    let mut mark = ring.begin_entry().expect("begin 失败");
    assert!(ring.append_to_entry(&mut mark, b"0123456789"));
    assert!(!ring.append_to_entry(&mut mark, b"ABCDEFGHIJ"));
    ring.commit_entry(&mark);
    let mut out = Vec::new();
    ring.drain_into(&mut out);
    assert_eq!(out, "0123456789[截断]\n".as_bytes());
}

#[test]
fn truncated_flag_roundtrips_through_commit() {
    let mut ring = LogRing::<24>::new();
    let mut mark = ring.begin_entry().expect("begin 失败");
    assert!(ring.append_to_entry(&mut mark, b"abcdefghij"));
    assert!(!ring.append_to_entry(&mut mark, b"klmnopqrstuvwxyz"));
    ring.commit_entry(&mark);

    let header = u16::from_le_bytes([ring.buf[0], ring.buf[1]]);
    assert_eq!(header & LEN_MASK, 10);
    assert_ne!(header & LEN_FLAG_TRUNCATED, 0);
}

#[test]
fn compaction_preserves_order() {
    let mut ring = LogRing::<16>::new();
    assert!(push(&mut ring, "aaaa"));
    assert!(push(&mut ring, "bbbb"));
    assert_eq!(ring.bytes_pending(), 12);

    assert!(push(&mut ring, "cccc"));
    let mut out = Vec::new();
    ring.drain_into(&mut out);
    let mut expected = DROP_1.to_vec();
    expected.extend_from_slice(b"bbbb\ncccc\n");
    assert_eq!(out, expected);
}

#[test]
fn drain_waits_for_inflight_entry() {

    let mut ring = LogRing::<64>::new();
    let mut mark = ring.begin_entry().expect("begin 失败");
    ring.append_to_entry(&mut mark, b"in-flight");

    let mut out = Vec::new();
    let n = ring.drain_into(&mut out);
    assert_eq!(n, 0);
    ring.commit_entry(&mark);
    assert_eq!(ring.drain_into(&mut out), 10);
    assert_eq!(out, b"in-flight\n");
}

#[test]
fn append_then_drain_repeatedly() {
    let mut ring = LogRing::<32>::new();
    for i in 0..10 {
        let text = format!("line-{i:02}");
        assert!(push(&mut ring, &text));
        let mut out = Vec::new();
        ring.drain_into(&mut out);
        assert_eq!(out, format!("{text}\n").into_bytes());
    }
}

#[test]
fn limited_drain_keeps_entries_that_do_not_fit() {
    let mut ring = LogRing::<64>::new();
    assert!(push(&mut ring, "entry-01"));
    assert!(push(&mut ring, "entry-02"));
    assert!(push(&mut ring, "entry-03"));
    let mut out = Vec::new();

    assert_eq!(ring.drain_into_limited(&mut out, 25), 18);
    assert_eq!(out, b"entry-01\nentry-02\n");
    assert!(!ring.is_empty());

    let mut out2 = Vec::new();
    assert_eq!(ring.drain_into(&mut out2), 9);
    assert_eq!(out2, b"entry-03\n");
}

#[test]
fn limited_drain_respects_drop_marker_order() {
    let mut ring = LogRing::<16>::new();
    assert!(push(&mut ring, "aaaa"));
    assert!(push(&mut ring, "bbbb"));
    assert!(push(&mut ring, "cccc"));
    let mut out = Vec::new();

    assert_eq!(ring.drain_into_limited(&mut out, 20), 0);
    let mut out2 = Vec::new();
    ring.drain_into(&mut out2);
    let mut expected = DROP_1.to_vec();
    expected.extend_from_slice(b"bbbb\ncccc\n");
    assert_eq!(out2, expected);
}

#[test]
fn oldest_entry_drain_forces_progress() {
    let mut ring = LogRing::<32>::new();
    assert!(push(&mut ring, "first"));
    assert!(push(&mut ring, "second"));
    let mut out = Vec::new();

    assert!(ring.drain_oldest_entry(&mut out) > 0);
    assert_eq!(out, b"first\n");
    let mut out2 = Vec::new();
    ring.drain_into(&mut out2);
    assert_eq!(out2, b"second\n");
}

#[test]
fn oversized_begin_is_counted_as_dropped() {
    let mut ring = LogRing::<1>::new();

    assert!(ring.begin_entry().is_none());
    let mut out = Vec::new();
    ring.drain_into(&mut out);
    assert_eq!(out, DROP_1);
}
