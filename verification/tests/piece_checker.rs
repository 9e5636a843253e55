use btp::disk::{merge_piece_messages, BlockMetadata};

#[test]
fn positive_merge_duplicate_messages() {
    let metadata_a = BlockMetadata::new([0u8; 20].into(), 0, 5, 5);

    let merged = merge_piece_messages(&metadata_a, &metadata_a);

    assert_eq!(metadata_a, merged.unwrap());
}

#[test]
fn negative_merge_duplicate_messages_diff_hash() {
    let metadata_a = BlockMetadata::new([0u8; 20].into(), 0, 5, 5);
    let metadata_b = BlockMetadata::new([1u8; 20].into(), 0, 5, 5);

    let merged = merge_piece_messages(&metadata_a, &metadata_b);

    assert_eq!(None, merged);
}

#[test]
fn negative_merge_duplicate_messages_diff_index() {
    let metadata_a = BlockMetadata::new([0u8; 20].into(), 0, 5, 5);
    let metadata_b = BlockMetadata::new([0u8; 20].into(), 1, 5, 5);

    let merged = merge_piece_messages(&metadata_a, &metadata_b);

    assert_eq!(None, merged);
}

#[test]
fn positive_merge_no_overlap_messages() {
    let metadata_a = BlockMetadata::new([0u8; 20].into(), 0, 5, 5);
    let metadata_b = BlockMetadata::new([0u8; 20].into(), 0, 11, 5);

    let merged = merge_piece_messages(&metadata_a, &metadata_b);

    assert_eq!(None, merged);
}

#[test]
fn positive_merge_overlap_messages() {
    let metadata_a = BlockMetadata::new([0u8; 20].into(), 0, 5, 5);
    let metadata_b = BlockMetadata::new([0u8; 20].into(), 0, 8, 5);

    let merged = merge_piece_messages(&metadata_a, &metadata_b);
    let expected = BlockMetadata::new([0u8; 20].into(), 0, 5, 8);

    assert_eq!(expected, merged.unwrap());
}

#[test]
fn positive_merge_neighbor_messages() {
    let metadata_a = BlockMetadata::new([0u8; 20].into(), 0, 5, 5);
    let metadata_b = BlockMetadata::new([0u8; 20].into(), 0, 10, 5);

    let merged = merge_piece_messages(&metadata_a, &metadata_b);
    let expected = BlockMetadata::new([0u8; 20].into(), 0, 5, 10);

    assert_eq!(expected, merged.unwrap());
}

#[test]
fn merge_is_symmetric_on_overlap() {
    let metadata_a = BlockMetadata::new([0u8; 20].into(), 0, 5, 5);
    let metadata_b = BlockMetadata::new([0u8; 20].into(), 0, 8, 5);

    assert_eq!(merge_piece_messages(&metadata_a, &metadata_b), merge_piece_messages(&metadata_b, &metadata_a));
}

#[test]
fn merge_contained_block() {
    let metadata_a = BlockMetadata::new([0u8; 20].into(), 0, 0, 20);
    let metadata_b = BlockMetadata::new([0u8; 20].into(), 0, 5, 5);

    let expected = BlockMetadata::new([0u8; 20].into(), 0, 0, 20);
    assert_eq!(expected, merge_piece_messages(&metadata_a, &metadata_b).unwrap());
}
