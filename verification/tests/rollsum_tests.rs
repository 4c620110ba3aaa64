use rolldiff::rollsum::{Error, Rollsum};

#[test]
fn initial_rollsum_works() {
    let v: Vec<u8> = vec![1, 2, 3, 4, 5];
    let rs = Rollsum::new(&v);
    assert_eq!(rs.s, 15);
    assert_eq!(rs.ss, 35);
    assert_eq!(rs.digest(), 35 << 16 | 15);
}

#[test]
fn roll_forward_full_works() {
    let v: Vec<u8> = vec![1, 2, 3, 4, 5];
    let mut rs = Rollsum::new(&v);
    rs.roll_hash(Some(6), 1);
    assert_eq!(rs.s, 20);
    assert_eq!(rs.ss, 50);
    assert_eq!(rs.digest(), 50 << 16 | 20);
}

#[test]
fn roll_forward_empty_works() {
    let v: Vec<u8> = vec![1, 2, 3, 4, 5];
    let mut rs = Rollsum::new(&v);
    rs.roll_hash(None, 1);
    assert_eq!(rs.s, 14);
    assert_eq!(rs.ss, 30);
    assert_eq!(rs.digest(), 30 << 16 | 14);
}

#[test]
fn init_and_recompute_agree() {
    let w: Vec<u8> = b"rolling!".to_vec();
    let fresh = Rollsum::new(&w);
    let other: Vec<u8> = vec![9; 8];
    let mut rebuilt = Rollsum::new(&other);
    rebuilt.batch_roll(&w).unwrap();
    assert_eq!(fresh.digest(), rebuilt.digest());
    assert_eq!(fresh.s, rebuilt.s);
    assert_eq!(fresh.ss, rebuilt.ss);
}

#[test]
fn sliding_matches_fresh_at_every_position() {
    let data: Vec<u8> = b"the quick brown fox jumps over the lazy dog".to_vec();
    let width = 7usize;
    let mut rs = Rollsum::new(&data[0..width].to_vec());
    for start in 1..=(data.len() - width) {
        rs.roll_hash(Some(data[start + width - 1]), data[start - 1]);
        let fresh = Rollsum::new(&data[start..start + width].to_vec());
        assert_eq!(rs.digest(), fresh.digest());
    }
}

#[test]
fn batch_roll_rejects_wrong_length() {
    let v: Vec<u8> = vec![1, 2, 3, 4, 5];
    let mut rs = Rollsum::new(&v);
    let shorter: Vec<u8> = vec![1, 2, 3];
    let r = rs.batch_roll(&shorter);
    assert!(matches!(r, Err(Error::BatchRollError)));
    assert_eq!(rs.s, 15);
    assert_eq!(rs.ss, 35);
}

#[test]
fn rollsum_wraps_silently() {
    let v: Vec<u8> = vec![255; 5];
    let mut rs = Rollsum::new(&v);
    assert_eq!(rs.s, 1275);
    assert_eq!(rs.ss, 3825);
    rs.roll_hash(Some(0), 255);
    assert_eq!(rs.s, 1020);
    assert_eq!(rs.ss, 3825u32.wrapping_sub(5 * 255).wrapping_add(1020));
}
