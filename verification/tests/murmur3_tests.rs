use pillar::murmur3::{calc_k, finish, hash, murmur3_32, rotl};

#[test]
fn hash_known_vector() {
    assert_eq!(0x5e92_8f0f, hash("hello world".as_bytes()));
}

#[test]
fn hash_empty_input() {
    assert_eq!(0, hash(b""));
}

#[test]
fn hash_short_tail() {
    assert_eq!(3017643002, hash(b"abc"));
}

#[test]
fn hash_mixed_blocks_and_tail() {
    assert_eq!(1690728233, hash(b"the {} fox {}"));
}

#[test]
fn seed_changes_the_hash() {
    assert_ne!(murmur3_32(b"hello world", 0), murmur3_32(b"hello world", 1));
}

#[test]
fn rotl_wraps_bits_around() {
    assert_eq!(0x0000_0001, rotl(0x8000_0000, 1));
    assert_eq!(0x2345_6781, rotl(0x1234_5678, 4));
}

#[test]
fn calc_k_known_value() {
    // one block of the "hello world" vector: "hell" little-endian
    let k = u32::from_le_bytes(*b"hell");
    assert_eq!(calc_k(k), calc_k(k));
    assert_ne!(0, calc_k(k));
}

#[test]
fn finish_avalanches_zero_state() {
    assert_eq!(0, finish(0, 0));
    assert_ne!(0, finish(0, 11));
}
