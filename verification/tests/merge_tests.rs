use std::sync::Arc;

use mini_lsm::{Block, BlockIterator, Error, MergeIterator, MockIterator, StorageIterator};

fn mock(pairs: &[(&[u8], &[u8])]) -> MockIterator {
    let entries: Vec<(Vec<u8>, Vec<u8>)> =
        pairs.iter().map(|(k, v)| (k.to_vec(), v.to_vec())).collect();
    MockIterator::new(entries)
}

fn failing_mock(pairs: &[(&[u8], &[u8])], fail_at: usize) -> MockIterator {
    let entries: Vec<(Vec<u8>, Vec<u8>)> =
        pairs.iter().map(|(k, v)| (k.to_vec(), v.to_vec())).collect();
    MockIterator::new_failing(entries, fail_at)
}

fn build_block(pairs: &[(&[u8], &[u8])]) -> Arc<Block> {
    let mut data: Vec<u8> = Vec::new();
    let mut offsets: Vec<u16> = Vec::new();
    for (k, v) in pairs {
        offsets.push(data.len() as u16);
        data.extend_from_slice(&(k.len() as u16).to_le_bytes());
        data.extend_from_slice(k);
        data.extend_from_slice(&(v.len() as u16).to_le_bytes());
        data.extend_from_slice(v);
    }
    Arc::new(Block { data, offsets })
}

fn drain<I: StorageIterator>(it: &mut I) -> Vec<(Vec<u8>, Vec<u8>)> {
    let mut out = Vec::new();
    while let Some((k, v)) = it.peek() {
        out.push((k.to_vec(), v.to_vec()));
        it.next().unwrap();
    }
    out
}

#[test]
fn duplicate_keys_resolve_to_the_lowest_index_source() {
    let s0 = mock(&[(b"k1", b"A"), (b"k2", b"B")]);
    let s1 = mock(&[(b"k1", b"Z"), (b"k3", b"C")]);
    let mut merged = MergeIterator::create(vec![Box::new(s0), Box::new(s1)]);
    let got = drain(&mut merged);
    assert_eq!(
        got,
        vec![
            (b"k1".to_vec(), b"A".to_vec()),
            (b"k2".to_vec(), b"B".to_vec()),
            (b"k3".to_vec(), b"C".to_vec()),
        ]
    );
}

#[test]
fn merged_output_is_sorted_with_each_distinct_key_once() {
    let s0 = mock(&[(b"b", b"0b"), (b"e", b"0e")]);
    let s1 = mock(&[(b"a", b"1a"), (b"b", b"1b"), (b"f", b"1f")]);
    let s2 = mock(&[(b"b", b"2b"), (b"c", b"2c"), (b"e", b"2e")]);
    let mut merged = MergeIterator::create(vec![Box::new(s0), Box::new(s1), Box::new(s2)]);
    let got = drain(&mut merged);
    assert_eq!(
        got,
        vec![
            (b"a".to_vec(), b"1a".to_vec()),
            (b"b".to_vec(), b"0b".to_vec()),
            (b"c".to_vec(), b"2c".to_vec()),
            (b"e".to_vec(), b"0e".to_vec()),
            (b"f".to_vec(), b"1f".to_vec()),
        ]
    );
    for w in got.windows(2) {
        assert!(w[0].0 < w[1].0);
    }
}

#[test]
fn shadowed_source_failure_propagates_and_removes_the_source() {
    // the shadowed source fails when asked to discard its duplicate of k1
    let s0 = mock(&[(b"k1", b"A"), (b"k3", b"B")]);
    let s1 = failing_mock(&[(b"k1", b"Z"), (b"k2", b"Y")], 0);
    let mut merged = MergeIterator::create(vec![Box::new(s0), Box::new(s1)]);
    assert_eq!(merged.peek().unwrap().0, b"k1");
    assert_eq!(merged.next().unwrap_err(), Error::SourceFailure);
    // the surfaced entry was not consumed by the failing round
    assert_eq!(merged.peek().unwrap().0, b"k1");
    // the failed source is gone: no further failure, and its k2 is never seen
    let got = drain(&mut merged);
    assert_eq!(got, vec![(b"k1".to_vec(), b"A".to_vec()), (b"k3".to_vec(), b"B".to_vec())]);
}

#[test]
fn failing_active_source_is_dropped_after_its_failure() {
    let s0 = failing_mock(&[(b"a", b"0a")], 0);
    let s1 = mock(&[(b"b", b"1b")]);
    let mut merged = MergeIterator::create(vec![Box::new(s0), Box::new(s1)]);
    assert_eq!(merged.peek().unwrap().0, b"a");
    assert_eq!(merged.next().unwrap_err(), Error::SourceFailure);
    // the merge goes on with the surviving source
    let got = drain(&mut merged);
    assert_eq!(got, vec![(b"b".to_vec(), b"1b".to_vec())]);
}

#[test]
fn merge_of_zero_sources_is_always_empty() {
    let mut merged: MergeIterator<MockIterator> = MergeIterator::create(vec![]);
    assert!(merged.peek().is_none());
    merged.next().unwrap();
    assert!(merged.peek().is_none());
}

#[test]
fn exhausted_sources_are_wrapped_and_skipped() {
    let s0 = mock(&[]);
    let s1 = mock(&[(b"x", b"1x")]);
    let s2 = mock(&[]);
    let mut merged = MergeIterator::create(vec![Box::new(s0), Box::new(s1), Box::new(s2)]);
    let got = drain(&mut merged);
    assert_eq!(got, vec![(b"x".to_vec(), b"1x".to_vec())]);
    merged.next().unwrap();
    assert!(merged.peek().is_none());
}

#[test]
fn merge_of_block_iterators_reads_across_blocks() {
    let b0 = build_block(&[(b"b", b"fresh"), (b"d", b"fresh")]);
    let b1 = build_block(&[(b"a", b"old"), (b"b", b"old"), (b"e", b"old")]);
    let i0 = BlockIterator::create_and_seek_to_first(b0);
    let i1 = BlockIterator::create_and_seek_to_first(b1);
    let mut merged = MergeIterator::create(vec![Box::new(i0), Box::new(i1)]);
    let got = drain(&mut merged);
    assert_eq!(
        got,
        vec![
            (b"a".to_vec(), b"old".to_vec()),
            (b"b".to_vec(), b"fresh".to_vec()),
            (b"d".to_vec(), b"fresh".to_vec()),
            (b"e".to_vec(), b"old".to_vec()),
        ]
    );
}

#[test]
fn merges_compose_recursively() {
    let inner0 = MergeIterator::create(vec![
        Box::new(mock(&[(b"a", b"m0"), (b"c", b"m0")])),
        Box::new(mock(&[(b"b", b"m0b")])),
    ]);
    let inner1 = MergeIterator::create(vec![
        Box::new(mock(&[(b"b", b"m1"), (b"d", b"m1")])),
    ]);
    let mut outer = MergeIterator::create(vec![Box::new(inner0), Box::new(inner1)]);
    let got = drain(&mut outer);
    assert_eq!(
        got,
        vec![
            (b"a".to_vec(), b"m0".to_vec()),
            (b"b".to_vec(), b"m0b".to_vec()),
            (b"c".to_vec(), b"m0".to_vec()),
            (b"d".to_vec(), b"m1".to_vec()),
        ]
    );
}
