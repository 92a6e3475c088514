use std::sync::Arc;

use mini_lsm::{Block, BlockIterator, StorageIterator};

fn build_block(pairs: &[(&[u8], &[u8])]) -> Arc<Block> {
    let mut data: Vec<u8> = Vec::new();
    let mut offsets: Vec<u16> = Vec::new();
    for (k, v) in pairs {
        offsets.push(data.len() as u16);
        data.extend_from_slice(&(k.len() as u16).to_le_bytes());
        data.extend_from_slice(k);
        data.extend_from_slice(&(v.len() as u16).to_le_bytes());
        data.extend_from_slice(v);
    }
    Arc::new(Block { data, offsets })
}

fn drain<I: StorageIterator>(it: &mut I) -> Vec<(Vec<u8>, Vec<u8>)> {
    let mut out = Vec::new();
    while let Some((k, v)) = it.peek() {
        out.push((k.to_vec(), v.to_vec()));
        it.next().unwrap();
    }
    out
}

#[test]
fn full_scan_yields_entries_in_stored_order() {
    let block = build_block(&[(b"b", b"1"), (b"d", b"2"), (b"f", b"3")]);
    let mut it = BlockIterator::create_and_seek_to_first(block);
    let got = drain(&mut it);
    assert_eq!(
        got,
        vec![
            (b"b".to_vec(), b"1".to_vec()),
            (b"d".to_vec(), b"2".to_vec()),
            (b"f".to_vec(), b"3".to_vec()),
        ]
    );
    assert!(it.peek().is_none());
    // advancing an exhausted iterator is a safe no-op
    it.next().unwrap();
    assert!(it.peek().is_none());
}

#[test]
fn seek_to_key_lands_on_first_key_at_least_target() {
    let block = build_block(&[(b"b", b"1"), (b"d", b"2"), (b"f", b"3")]);

    let it = BlockIterator::create_and_seek_to_key(Arc::clone(&block), b"a");
    assert_eq!(it.peek().unwrap().0, b"b");

    let it = BlockIterator::create_and_seek_to_key(Arc::clone(&block), b"d");
    assert_eq!(it.peek().unwrap().0, b"d");

    let it = BlockIterator::create_and_seek_to_key(Arc::clone(&block), b"e");
    assert_eq!(it.peek().unwrap().0, b"f");

    let it = BlockIterator::create_and_seek_to_key(Arc::clone(&block), b"g");
    assert!(it.peek().is_none());
}

#[test]
fn seek_to_first_rewinds_an_exhausted_iterator() {
    let block = build_block(&[(b"k", b"v")]);
    let mut it = BlockIterator::create_and_seek_to_first(block);
    it.next().unwrap();
    assert!(it.peek().is_none());
    it.seek_to_first();
    let (k, v) = it.peek().unwrap();
    assert_eq!(k, b"k");
    assert_eq!(v, b"v");
}

#[test]
fn empty_block_iterator_is_immediately_exhausted() {
    let block = build_block(&[]);
    let mut it = BlockIterator::create_and_seek_to_first(Arc::clone(&block));
    assert!(it.peek().is_none());
    it.next().unwrap();
    assert!(it.peek().is_none());
    let it = BlockIterator::create_and_seek_to_key(block, b"a");
    assert!(it.peek().is_none());
}

#[test]
fn seek_handles_entries_beyond_the_first_byte_boundary() {
    let long_key = vec![b'k'; 300];
    let filler_val = vec![b'v'; 200];
    let block = build_block(&[(b"a", &filler_val), (&long_key, b"long"), (b"z", b"last")]);
    let it = BlockIterator::create_and_seek_to_key(Arc::clone(&block), b"b");
    assert_eq!(it.peek().unwrap().0, &long_key[..]);
    assert_eq!(it.peek().unwrap().1, b"long");
    let it = BlockIterator::create_and_seek_to_key(block, &long_key);
    assert_eq!(it.peek().unwrap().1, b"long");
}

#[test]
fn peek_exposes_value_bytes_without_consuming() {
    let block = build_block(&[(b"key", b"value-bytes")]);
    let it = BlockIterator::create_and_seek_to_first(block);
    assert_eq!(it.peek().unwrap().1, b"value-bytes");
    // peek again: unchanged
    assert_eq!(it.peek().unwrap().0, b"key");
}
