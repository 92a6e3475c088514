use mini_lsm::{Block, Error};

/// Builds a block's data region and offset table from sorted pairs, in the
/// wire entry layout: key_len:u16-le | key | value_len:u16-le | value.
fn build_block(pairs: &[(&[u8], &[u8])]) -> Block {
    let mut data: Vec<u8> = Vec::new();
    let mut offsets: Vec<u16> = Vec::new();
    for (k, v) in pairs {
        offsets.push(data.len() as u16);
        data.extend_from_slice(&(k.len() as u16).to_le_bytes());
        data.extend_from_slice(k);
        data.extend_from_slice(&(v.len() as u16).to_le_bytes());
        data.extend_from_slice(v);
    }
    Block { data, offsets }
}

#[test]
fn empty_block_encodes_to_footer_only() {
    let block = Block { data: vec![], offsets: vec![] };
    let enc = block.encode();
    assert_eq!(&enc[..], &[0u8, 0u8]);
    let back = Block::decode(&enc[..]).unwrap();
    assert_eq!(back.data, Vec::<u8>::new());
    assert_eq!(back.offsets, Vec::<u16>::new());
}

#[test]
fn encode_layout_is_exact() {
    let block = build_block(&[(b"b", b"1"), (b"d", b"22")]);
    let enc = block.encode();
    let expected: Vec<u8> = vec![
        1, 0, b'b', 1, 0, b'1', // entry 0 at offset 0
        1, 0, b'd', 2, 0, b'2', b'2', // entry 1 at offset 6
        0, 0, 6, 0, // offsets, little-endian
        2, 0, // footer: two entries
    ];
    assert_eq!(&enc[..], &expected[..]);
}

#[test]
fn roundtrip_preserves_entries_and_offsets() {
    let block = build_block(&[(b"apple", b"red"), (b"banana", b"yellow"), (b"cherry", b"")]);
    let enc = block.encode();
    let back = Block::decode(&enc[..]).unwrap();
    assert_eq!(back.data, block.data);
    assert_eq!(back.offsets, block.offsets);
}

#[test]
fn decode_rejects_short_buffer() {
    assert_eq!(Block::decode(&[]).unwrap_err(), Error::MalformedBlock);
    assert_eq!(Block::decode(&[7]).unwrap_err(), Error::MalformedBlock);
}

#[test]
fn decode_rejects_footer_claiming_too_many_offsets() {
    // footer says two offsets, but the buffer holds only the footer
    assert_eq!(Block::decode(&[2, 0]).unwrap_err(), Error::MalformedBlock);
    // footer says one offset, buffer one byte short of it
    assert_eq!(Block::decode(&[0, 1, 0]).unwrap_err(), Error::MalformedBlock);
}

#[test]
fn roundtrip_with_long_keys_and_large_offsets() {
    // a key longer than 255 bytes and offsets beyond 255 exercise the high
    // byte of the little-endian length and offset fields
    let long_key = vec![b'k'; 300];
    let filler_val = vec![b'v'; 200];
    let block = build_block(&[
        (b"a", &filler_val),
        (&long_key, b"long"),
        (b"z", b"last"),
    ]);
    assert!(block.offsets[2] > 255);
    let enc = block.encode();
    let back = Block::decode(&enc[..]).unwrap();
    assert_eq!(back.data, block.data);
    assert_eq!(back.offsets, block.offsets);
}

#[test]
fn error_messages_name_the_failure() {
    let err = Block::decode(&[]).unwrap_err();
    assert_eq!(err.message(), "malformed block");
    assert_eq!(Error::SourceFailure.message(), "source failed to advance");
}

#[test]
fn decode_accepts_any_buffer_obeying_the_layout() {
    // data "xy", one offset (0), footer 1 — not produced by encode here
    let buf = [b'x', b'y', 0, 0, 1, 0];
    let block = Block::decode(&buf).unwrap();
    assert_eq!(block.data, vec![b'x', b'y']);
    assert_eq!(block.offsets, vec![0u16]);
}
