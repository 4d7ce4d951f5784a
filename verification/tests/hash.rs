use biwac::hash::{AsHash64, Hash64, StableHasher64};

fn hash_of(f: impl FnOnce(&mut StableHasher64)) -> Hash64 {
    let mut h = StableHasher64::new();
    f(&mut h);
    h.finish()
}

#[test]
fn same_input_same_hash() {
    assert_eq!(
        hash_of(|h| h.write_str("biwa")),
        hash_of(|h| h.write_str("biwa"))
    );
}

#[test]
fn different_input_different_hash() {
    assert_ne!(
        hash_of(|h| h.write_str("biwa")),
        hash_of(|h| h.write_str("biwb"))
    );
}

#[test]
fn length_prefix_separates_concatenations() {
    let a = hash_of(|h| {
        h.write_str("ab");
        h.write_str("c");
    });
    let b = hash_of(|h| {
        h.write_str("a");
        h.write_str("bc");
    });
    assert_ne!(a, b);
}

#[test]
fn is_stable_across_runs() {
    assert_eq!(hash_of(|h| h.write_str("std")).as_u64(), 0xc90f1fd2cd248231);
}

#[test]
fn empty_input_finishes_the_offset_basis() {
    // No byte fed: the state is the FNV offset basis, run through the finalizer.
    let mut x: u64 = 0xcbf2_9ce4_8422_2325;
    x ^= x >> 30;
    x = x.wrapping_mul(0xbf58_476d_1ce4_e5b9);
    x ^= x >> 27;
    x = x.wrapping_mul(0x94d0_49bb_1331_11eb);
    x ^= x >> 31;
    assert_eq!(hash_of(|_| {}).as_u64(), x);
}

#[test]
fn write_bytes_is_length_then_raw_bytes() {
    let a = hash_of(|h| h.write_bytes(b"xyz"));
    let b = hash_of(|h| {
        h.write_u64(3);
        h.hash(b"xyz");
    });
    assert_eq!(a, b);
    let c = hash_of(|h| h.write_usize(3));
    let d = hash_of(|h| h.hash(&3u64.to_le_bytes()));
    assert_eq!(c, d);
}

#[test]
fn write_u32_and_u8_feed_little_endian_bytes() {
    let a = hash_of(|h| h.write_u32(0x0102_0304));
    let b = hash_of(|h| h.hash(&[4, 3, 2, 1]));
    assert_eq!(a, b);
    let c = hash_of(|h| h.write_u8(7));
    let d = hash_of(|h| h.hash(&[7]));
    assert_eq!(c, d);
    let e = hash_of(|h| h.write_hash(Hash64::from_u64(9)));
    let f = hash_of(|h| h.write_u64(9));
    assert_eq!(e, f);
}

#[test]
fn u64_stands_for_its_own_hash() {
    assert_eq!(42u64.as_hash64(), Hash64::from_u64(42));
    assert_eq!(Hash64::from_u64(42).as_u64(), 42);
}
