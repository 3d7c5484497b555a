use quadimg::quadtree::Quadtree;
use quadimg::serialize::{build_leaf_data, decode_channel, decode_node, encode_channel};
use quadimg::CodecError;

#[test]
fn leaf_streams_are_literal() {
    let bitmap = vec![5u8, 0u8, 0u8, 0u8];
    let tree = Quadtree::new(&bitmap).unwrap();
    let (structure, data) = encode_channel(&tree, 10);
    // one cleared bit, packed into one byte
    assert_eq!(structure, vec![0u8]);
    // a leaf always emits its four raw samples, whatever the cutoff
    assert_eq!(data, vec![5u8, 0u8, 0u8, 0u8]);
}

#[test]
fn expanded_tree_streams() {
    let bitmap = vec![
        1u8, 3u8, 255u8, 255u8,
        1u8, 3u8, 255u8, 255u8,
        5u8, 0u8, 4u8, 4u8,
        0u8, 0u8, 4u8, 4u8,
    ];
    let tree = Quadtree::new(&bitmap).unwrap();
    let (structure, data) = encode_channel(&tree, 10);
    // the root expands (contrast 255), its four leaves do not:
    // bits 1,0,0,0,0 packed least-significant-bit first
    assert_eq!(structure, vec![0x01u8]);
    assert_eq!(
        data,
        vec![1u8, 3, 1, 3, 255, 255, 255, 255, 5, 0, 0, 0, 4, 4, 4, 4],
    );
}

#[test]
fn collapsed_branch_emits_average() {
    let bitmap = vec![
        1u8, 2u8, 2u8, 3u8,
        2u8, 2u8, 2u8, 2u8,
        3u8, 2u8, 2u8, 2u8,
        5u8, 2u8, 2u8, 0u8,
    ];
    let tree = Quadtree::new(&bitmap).unwrap();
    let (structure, data) = encode_channel(&tree, 10);
    assert_eq!(structure, vec![0x00u8]);
    // one byte: the mean of the corner samples (1 + 3 + 5 + 0) / 4
    assert_eq!(data, vec![2u8]);
}

#[test]
fn decode_inverts_encode_literally() {
    let bitmap = vec![
        1u8, 3u8, 255u8, 255u8,
        1u8, 3u8, 255u8, 255u8,
        5u8, 0u8, 4u8, 4u8,
        0u8, 0u8, 4u8, 4u8,
    ];
    let tree = Quadtree::new(&bitmap).unwrap();
    let (structure, data) = encode_channel(&tree, 10);
    // every region decoded was a literal leaf, so the input bitmap
    // comes back whole, and both streams are consumed exactly
    let decoded = decode_channel(&structure, &data, 4).unwrap();
    assert_eq!(decoded, bitmap);
}

#[test]
fn decode_fills_collapsed_region_flat() {
    let bitmap = vec![
        1u8, 2u8, 2u8, 3u8,
        2u8, 2u8, 2u8, 2u8,
        3u8, 2u8, 2u8, 2u8,
        5u8, 2u8, 2u8, 0u8,
    ];
    let tree = Quadtree::new(&bitmap).unwrap();
    let (structure, data) = encode_channel(&tree, 10);
    let decoded = decode_channel(&structure, &data, 4).unwrap();
    assert_eq!(decoded, vec![2u8; 16]);
}

#[test]
fn decode_rejects_truncated_data() {
    // a leaf needs four data bytes; three are a format error
    assert_eq!(
        decode_channel(&vec![0x00u8], &vec![5u8, 0, 0], 2).unwrap_err(),
        CodecError::FormatError,
    );
}

#[test]
fn decode_rejects_trailing_data() {
    assert_eq!(
        decode_channel(&vec![0x00u8], &vec![5u8, 0, 0, 0, 9], 2).unwrap_err(),
        CodecError::FormatError,
    );
}

#[test]
fn decode_rejects_split_leaf() {
    // a set structure bit at leaf size claims a split below 2x2
    assert_eq!(
        decode_channel(&vec![0x01u8], &vec![5u8, 0, 0, 0], 2).unwrap_err(),
        CodecError::FormatError,
    );
}

#[test]
fn decode_rejects_empty_structure() {
    assert_eq!(
        decode_channel(&vec![], &vec![5u8, 0, 0, 0], 2).unwrap_err(),
        CodecError::FormatError,
    );
}

#[test]
fn decode_node_reports_cursors() {
    // the expanded 4x4 stream: 5 structure bits, 16 data bytes
    let structure = vec![0x01u8];
    let data: Vec<u8> = (0u8..16u8).collect();
    let (_, bits_used, bytes_used) = decode_node(&structure, &data, 0, 0, 4).unwrap();
    assert_eq!(bits_used, 5);
    assert_eq!(bytes_used, 16);
}

#[test]
fn stream_sizes_shrink_with_cutoff() {
    let bitmap = vec![
        1u8, 2u8, 2u8, 3u8,
        2u8, 2u8, 2u8, 2u8,
        3u8, 2u8, 2u8, 2u8,
        5u8, 2u8, 2u8, 0u8,
    ];
    let tree = Quadtree::new(&bitmap).unwrap();
    let mut previous = usize::MAX;
    for cutoff in [0u8, 1, 6, 10, 255] {
        let (structure, data) = encode_channel(&tree, cutoff);
        let total = structure.len() + data.len();
        assert!(total <= previous);
        previous = total;
    }
    // and the shrink is real: cutoff 0 keeps every leaf, cutoff 10
    // collapses the whole tree
    let (s0, d0) = encode_channel(&tree, 0);
    let (s10, d10) = encode_channel(&tree, 10);
    assert_eq!(s0.len() + d0.len(), 17);
    assert_eq!(s10.len() + d10.len(), 2);
}

#[test]
fn leaf_data_appends() {
    let bitmap = vec![9u8, 8u8, 7u8, 6u8];
    let tree = Quadtree::new(&bitmap).unwrap();
    let mut out = vec![42u8];
    build_leaf_data(&tree, &mut out, 0);
    assert_eq!(out, vec![42u8, 9, 8, 7, 6]);
}
