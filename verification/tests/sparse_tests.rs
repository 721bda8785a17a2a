use updater_core::errors::UpdateError;
use updater_core::sparse::{decode_sparse, fill_block_bytes, parse_header, render_ops, SinkOp};

fn le16(v: u16) -> Vec<u8> {
    vec![(v & 0xFF) as u8, (v >> 8) as u8]
}

fn le32(v: u32) -> Vec<u8> {
    vec![
        (v & 0xFF) as u8,
        ((v >> 8) & 0xFF) as u8,
        ((v >> 16) & 0xFF) as u8,
        ((v >> 24) & 0xFF) as u8,
    ]
}

fn header(block_size: u32, total_chunks: u32) -> Vec<u8> {
    let mut d = Vec::new();
    d.extend_from_slice(&le32(0xED26FF3A));
    d.extend_from_slice(&le16(1));
    d.extend_from_slice(&le16(0));
    d.extend_from_slice(&le16(28));
    d.extend_from_slice(&le16(12));
    d.extend_from_slice(&le32(block_size));
    d.extend_from_slice(&le32(0));
    d.extend_from_slice(&le32(total_chunks));
    d.extend_from_slice(&le32(0));
    d
}

fn raw_chunk(data: &[u8]) -> Vec<u8> {
    let mut c = Vec::new();
    c.extend_from_slice(&le16(0xCAC1));
    c.extend_from_slice(&le16(0));
    c.extend_from_slice(&le32((data.len() / 4) as u32));
    c.extend_from_slice(&le32(12 + data.len() as u32));
    c.extend_from_slice(data);
    c
}

fn fill_chunk(blocks: u32, pattern: u32) -> Vec<u8> {
    let mut c = Vec::new();
    c.extend_from_slice(&le16(0xCAC2));
    c.extend_from_slice(&le16(0));
    c.extend_from_slice(&le32(blocks));
    c.extend_from_slice(&le32(16));
    c.extend_from_slice(&le32(pattern));
    c
}

fn dont_care_chunk(blocks: u32) -> Vec<u8> {
    let mut c = Vec::new();
    c.extend_from_slice(&le16(0xCAC3));
    c.extend_from_slice(&le16(0));
    c.extend_from_slice(&le32(blocks));
    c.extend_from_slice(&le32(12));
    c
}

#[test]
fn parses_header_fields() {
    let d = header(4096, 7);
    let h = parse_header(&d).unwrap();
    assert_eq!(h.major, 1);
    assert_eq!(h.minor, 0);
    assert_eq!(h.file_hdr_size, 28);
    assert_eq!(h.chunk_hdr_size, 12);
    assert_eq!(h.block_size, 4096);
    assert_eq!(h.total_chunks, 7);
}

#[test]
fn decodes_raw_chunk_verbatim() {
    let payload: Vec<u8> = (0u8..8).collect();
    let mut d = header(4, 1);
    d.extend_from_slice(&raw_chunk(&payload));
    let ops = decode_sparse(&d).unwrap();
    assert_eq!(ops.len(), 1);
    match &ops[0] {
        SinkOp::Write { data } => assert_eq!(data, &payload),
        other => panic!("expected a verbatim write, got {:?}", other),
    }
}

#[test]
fn round_trip_reproduces_original_bytes() {
    // A known raw image: 4 blocks of 4 bytes, encoded as a raw chunk,
    // a non-zero fill chunk, and a don't-care hole.
    let raw: Vec<u8> = vec![1, 2, 3, 4, 5, 6, 7, 8];
    let mut d = header(4, 3);
    d.extend_from_slice(&raw_chunk(&raw));
    d.extend_from_slice(&fill_chunk(1, 0xAABBCCDD));
    d.extend_from_slice(&dont_care_chunk(1));
    let ops = decode_sparse(&d).unwrap();
    let out = render_ops(&ops);
    let mut expected = raw.clone();
    expected.extend_from_slice(&[0xDD, 0xCC, 0xBB, 0xAA]);
    expected.extend_from_slice(&[0, 0, 0, 0]);
    assert_eq!(out, expected);
}

#[test]
fn zero_fill_matches_raw_zeros_and_skips() {
    // Stream A: a fill chunk with pattern zero over 3 blocks.
    let mut a = header(4, 1);
    a.extend_from_slice(&fill_chunk(3, 0));
    // Stream B: a raw chunk of the same 12 zero bytes.
    let zeros = vec![0u8; 12];
    let mut b = header(4, 1);
    b.extend_from_slice(&raw_chunk(&zeros));
    let ops_a = decode_sparse(&a).unwrap();
    let ops_b = decode_sparse(&b).unwrap();
    // The zero fill becomes a hole skip, never a write.
    assert!(matches!(ops_a[0], SinkOp::Skip { len: 12 }));
    assert_eq!(render_ops(&ops_a), render_ops(&ops_b));
}

#[test]
fn bad_magic_is_invalid_format_with_no_ops() {
    let mut d = header(4, 0);
    d[0] = 0x00;
    assert_eq!(decode_sparse(&d), Err(UpdateError::InvalidFormat));
}

#[test]
fn truncated_stream_is_invalid_format() {
    let d = header(4, 1);
    // One chunk promised, none present.
    assert_eq!(decode_sparse(&d), Err(UpdateError::InvalidFormat));
    // Shorter than the fixed header.
    assert_eq!(decode_sparse(&d[..10]), Err(UpdateError::InvalidFormat));
}

#[test]
fn nonzero_fill_expands_pattern_across_blocks() {
    let mut d = header(8, 1);
    d.extend_from_slice(&fill_chunk(2, 0x11223344));
    let ops = decode_sparse(&d).unwrap();
    assert!(matches!(
        ops[0],
        SinkOp::FillBlocks { pattern: 0x11223344, blocks: 2, block_size: 8 }
    ));
    let out = render_ops(&ops);
    let block = [0x44, 0x33, 0x22, 0x11, 0x44, 0x33, 0x22, 0x11];
    let mut expected = Vec::new();
    expected.extend_from_slice(&block);
    expected.extend_from_slice(&block);
    assert_eq!(out, expected);
}

#[test]
fn fill_block_leaves_remainder_zero() {
    // A block size that is not a multiple of four: the tail bytes of
    // the block stay zero.
    let b = fill_block_bytes(0x01020304, 6);
    assert_eq!(b, vec![0x04, 0x03, 0x02, 0x01, 0, 0]);
}

#[test]
fn checksum_chunk_is_consumed_without_output() {
    let mut d = header(4, 2);
    // An embedded-checksum chunk with a 4-byte payload.
    d.extend_from_slice(&le16(0xCAC4));
    d.extend_from_slice(&le16(0));
    d.extend_from_slice(&le32(0));
    d.extend_from_slice(&le32(16));
    d.extend_from_slice(&le32(0xFFFFFFFF));
    let raw: Vec<u8> = vec![9, 9, 9, 9];
    d.extend_from_slice(&raw_chunk(&raw));
    let ops = decode_sparse(&d).unwrap();
    assert_eq!(ops.len(), 1);
    assert_eq!(render_ops(&ops), raw);
}

#[test]
fn extra_file_header_bytes_are_skipped() {
    let payload: Vec<u8> = vec![7, 7, 7, 7];
    let mut d = header(4, 1);
    // Declare a 32-byte file header: four extra bytes of padding.
    d[8] = 32;
    d.extend_from_slice(&[0xEE, 0xEE, 0xEE, 0xEE]);
    d.extend_from_slice(&raw_chunk(&payload));
    let ops = decode_sparse(&d).unwrap();
    assert_eq!(render_ops(&ops), payload);
}
