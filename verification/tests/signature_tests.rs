use rolldiff::rollsum::Rollsum;
use rolldiff::signature::Signature;

#[test]
fn initiate_signature_produce_correct_sizes() {
    let input: Vec<u8> =
        b"Words are, in my not-so-humble opinion, our most inexhaustible source of magic."
            .to_vec();
    let mut sig = Signature::new(8);
    sig.generate(&input);
    assert_eq!(sig.get_blocks(), 10);
    assert_eq!(sig.get_file_size(), 79)
}

#[test]
fn signature_of_empty_source() {
    let input: Vec<u8> = Vec::new();
    let mut sig = Signature::new(4);
    sig.generate(&input);
    assert_eq!(sig.get_blocks(), 0);
    assert_eq!(sig.get_file_size(), 0);
    assert!(sig.get_chunk_map(0).is_none());
}

#[test]
fn bucket_holds_strong_hash_not_content() {
    let input: Vec<u8> = b"abcdwxyz".to_vec();
    let mut sig = Signature::new(4);
    sig.generate(&input);
    let first_block: Vec<u8> = b"abcd".to_vec();
    let weak = Rollsum::new(&first_block).digest();
    let bucket = sig.get_chunk_map(weak).expect("first block must be indexed");
    assert_eq!(bucket[0].block_index, 0);
    // a BLAKE2b-512 digest: 64 bytes, never the literal block bytes
    assert_eq!(bucket[0].hash.len(), 64);
    assert_ne!(bucket[0].hash, first_block);
}

#[test]
fn duplicate_blocks_keep_distinct_indices() {
    let input: Vec<u8> = b"abcdabcd".to_vec();
    let mut sig = Signature::new(4);
    sig.generate(&input);
    let weak = Rollsum::new(&b"abcd".to_vec()).digest();
    let bucket = sig.get_chunk_map(weak).expect("blocks must be indexed");
    assert_eq!(bucket.len(), 2);
    assert_eq!(bucket[0].block_index, 0);
    assert_eq!(bucket[1].block_index, 1);
    assert_eq!(bucket[0].hash, bucket[1].hash);
}

#[test]
fn short_source_forms_single_partial_block() {
    let input: Vec<u8> = b"ab".to_vec();
    let mut sig = Signature::new(8);
    sig.generate(&input);
    assert_eq!(sig.get_blocks(), 1);
    assert_eq!(sig.get_file_size(), 2);
}
