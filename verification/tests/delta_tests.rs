use rolldiff::{check_diffs, Delta};

#[test]
fn it_detects_added_blocks() {
    let old: Vec<u8> = String::from("Anyone can speak Troll. All you have to do is grunt.")
        .as_bytes()
        .to_vec();
    let new: Vec<u8> = String::from("Anyone can speak Troll. All you have to not do is grunt.")
        .as_bytes()
        .to_vec();
    let diffs = check_diffs(4, &old, &new);
    assert_eq!(diffs.len(), 1); // only 1 block change
    match &diffs[0] {
        Delta::Add(add) => {
            assert_eq!(add.byte_index, 40); // index to start inserting
            assert_eq!(add.bytes, 4); // number of bytes to insert
            assert_eq!(
                // what to insert
                String::from_utf8(add.content.clone()).unwrap(),
                String::from("not ")
            );
        }
        _ => panic!("Should not be delete"),
    }
}

#[test]
fn it_detects_removed_blocks() {
    let old: Vec<u8> = String::from("Make a rolling hash diffing algorithm in Rust")
        .as_bytes()
        .to_vec();
    let new: Vec<u8> = String::from("a rolling hash diffing algorithm in Rust")
        .as_bytes()
        .to_vec();
    let diffs = check_diffs(5, &old, &new);
    assert_eq!(diffs.len(), 1); // only diff
    match &diffs[0] {
        Delta::Delete(delete) => {
            assert_eq!(delete.byte_index, 0); // position to start remove
            assert_eq!(delete.bytes, 5); // bytes to remove
        }
        _ => panic!("Should not be add"),
    }
}

#[test]
fn it_detechs_edits() {
    let old: Vec<u8> = String::from("Now repeat after me - repeat after me, Riddikulus")
        .as_bytes()
        .to_vec();
    let new: Vec<u8> = String::from(
        "Now repeat after me - without wands please - repeat after me, Ridiculous",
    )
    .as_bytes()
    .to_vec();
    let diffs = check_diffs(7, &old, &new);
    // 2 additions and 1 deletion
    assert_eq!(diffs.len(), 3);

    // First insertion content
    match &diffs[0] {
        Delta::Add(add) => {
            assert_eq!(
                String::from_utf8(add.content.clone()).unwrap(),
                String::from(" without wands please -")
            );
        }
        _ => panic!("Should not be delete"),
    }

    // Second insertion content
    match &diffs[1] {
        Delta::Add(add) => {
            assert_eq!(
                String::from_utf8(add.content.clone()).unwrap(),
                String::from("iculous")
            );
        }
        _ => panic!("Should not be delete"),
    }

    // Deletion bytes
    match &diffs[2] {
        Delta::Delete(delete) => {
            assert_eq!(delete.bytes, String::from("dikulus").as_bytes().len() as u16);
        }
        _ => panic!("Should not be add"),
    }
}

#[test]
fn identity_of_block_aligned_sequence_is_empty() {
    let v: Vec<u8> = b"0123456789abcdef".to_vec();
    let diffs = check_diffs(4, &v, &v);
    assert_eq!(diffs.len(), 0);
}

#[test]
fn identity_with_partial_tail_only_rebooks_the_tail() {
    let v: Vec<u8> = b"0123456789abcdefxyz".to_vec();
    let diffs = check_diffs(4, &v, &v);
    // the trailing partial block is re-added and the old one deleted:
    // nothing beyond that bookkeeping changes
    assert_eq!(diffs.len(), 2);
    match &diffs[0] {
        Delta::Add(add) => {
            assert_eq!(add.byte_index, 16);
            assert_eq!(add.bytes, 3);
            assert_eq!(add.content, b"xyz".to_vec());
        }
        _ => panic!("Should not be delete"),
    }
    match &diffs[1] {
        Delta::Delete(delete) => {
            // anchored just after the last consumed block's span
            assert_eq!(delete.byte_index, 16);
            assert_eq!(delete.bytes, 3);
        }
        _ => panic!("Should not be add"),
    }
}

#[test]
fn empty_old_sequence_makes_everything_an_insertion() {
    let old: Vec<u8> = Vec::new();
    let new: Vec<u8> = b"abcd".to_vec();
    let diffs = check_diffs(4, &old, &new);
    assert_eq!(diffs.len(), 1);
    match &diffs[0] {
        Delta::Add(add) => {
            assert_eq!(add.byte_index, 0);
            assert_eq!(add.bytes, 4);
            assert_eq!(add.content, b"abcd".to_vec());
        }
        _ => panic!("Should not be delete"),
    }
}

#[test]
fn no_old_block_is_matched_twice() {
    // the old sequence holds the block "abcd" twice; a third occurrence in
    // the new sequence finds no record above the consumed ordinal and
    // becomes a literal insertion
    let old: Vec<u8> = b"abcdabcd".to_vec();
    let new: Vec<u8> = b"abcdabcdabcd".to_vec();
    let diffs = check_diffs(4, &old, &new);
    assert_eq!(diffs.len(), 1);
    match &diffs[0] {
        Delta::Add(add) => {
            assert_eq!(add.byte_index, 8);
            assert_eq!(add.bytes, 4);
            assert_eq!(add.content, b"abcd".to_vec());
        }
        _ => panic!("Should not be delete"),
    }
}

#[test]
fn add_new_starts_empty() {
    let a = rolldiff::Add::new(17);
    assert_eq!(a.byte_index, 17);
    assert_eq!(a.bytes, 0);
    assert!(a.content.is_empty());
}
