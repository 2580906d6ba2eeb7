use keccak_map::box_vec::MyVec;
use keccak_map::hashing::{HashStrategy, Hasher, Keccak256Builder, Keccak256Hasher};
use keccak_map::reduce::{reduce, reduce_be, reduce_le, ByteOrder, ReduceError};
use keccak_map::render::{slice_vec, to_bin, to_hex, u64_to_bin, u64_to_hex};

#[test]
fn determinism_same_bytes_same_digest() {
    let mut h1 = Keccak256Hasher::new();
    let mut h2 = Keccak256Hasher::new();
    h1.absorb(b"the same byte sequence");
    h2.absorb(b"the same byte sequence");
    assert_eq!(h1.digest(), h2.digest());
}

#[test]
fn determinism_through_strategy() {
    let builder = Keccak256Builder;
    let mut h1 = builder.create();
    let mut h2 = builder.create();
    h1.absorb(&[0u8, 1, 2, 3, 255]);
    h2.absorb(&[0u8, 1, 2, 3, 255]);
    assert_eq!(h1.digest(), h2.digest());
    assert_eq!(h1.finish(), h2.finish());
}

#[test]
fn concatenation_law() {
    let mut split = Keccak256Hasher::new();
    split.absorb(b"con");
    split.absorb(b"catenation");
    let mut whole = Keccak256Hasher::new();
    whole.absorb(b"concatenation");
    assert_eq!(split.digest(), whole.digest());
}

#[test]
fn digest_is_32_bytes_and_pins_known_fixture() {
    // Keccak-256 of the empty input, a widely published constant.
    let h = Keccak256Hasher::new();
    let d = h.digest();
    assert_eq!(d.len(), 32);
    assert_eq!(
        to_hex(&d),
        "c5d2460186f7233c927e7db2dcc703c0e500b653ca82273b7bfad8045d85a470"
    );
}

#[test]
fn digest_leaves_accumulator_usable() {
    let mut h = Keccak256Hasher::new();
    h.absorb(b"ab");
    let first = h.digest();
    let second = h.digest();
    assert_eq!(first, second);
    h.absorb(b"c");
    let mut whole = Keccak256Hasher::new();
    whole.absorb(b"abc");
    assert_eq!(h.digest(), whole.digest());
}

#[test]
fn byte_order_law_on_values() {
    let s: [u8; 8] = [1, 2, 3, 4, 5, 6, 7, 8];
    let mut r = s;
    r.reverse();
    assert_eq!(reduce_be(&s).unwrap(), reduce_le(&r).unwrap());
}

#[test]
fn non_equality_on_non_palindromic_fixture() {
    let s: [u8; 8] = [0x12, 0x34, 0x56, 0x78, 0x9a, 0xbc, 0xde, 0xf0];
    assert_ne!(reduce_le(&s).unwrap(), reduce_be(&s).unwrap());
}

#[test]
fn equality_on_palindromic_fixture() {
    let s: [u8; 8] = [7, 1, 2, 9, 9, 2, 1, 7];
    assert_eq!(reduce_le(&s).unwrap(), reduce_be(&s).unwrap());
}

#[test]
fn reduction_matches_manual_assembly() {
    let s: [u8; 8] = [0x01, 0x02, 0x03, 0x04, 0x05, 0x06, 0x07, 0x08];
    assert_eq!(reduce_be(&s).unwrap(), 0x0102030405060708u64);
    assert_eq!(reduce_le(&s).unwrap(), 0x0807060504030201u64);
    assert_eq!(reduce(ByteOrder::Big, &s), reduce_be(&s));
    assert_eq!(reduce(ByteOrder::Little, &s), reduce_le(&s));
}

#[test]
fn reduction_uses_only_first_eight_bytes() {
    let s: [u8; 10] = [1, 2, 3, 4, 5, 6, 7, 8, 9, 10];
    assert_eq!(reduce_be(&s).unwrap(), 0x0102030405060708u64);
}

#[test]
fn short_digest_is_a_length_error() {
    let s: [u8; 3] = [1, 2, 3];
    let empty: [u8; 0] = [];
    assert_eq!(
        reduce_le(&s),
        Err(ReduceError::LengthError { required: 8, actual: 3 })
    );
    assert_eq!(
        reduce_be(&s),
        Err(ReduceError::LengthError { required: 8, actual: 3 })
    );
    assert_eq!(
        reduce(ByteOrder::Big, &empty),
        Err(ReduceError::LengthError { required: 8, actual: 0 })
    );
}

#[test]
fn concrete_scenario_hello_world() {
    let mut h = Keccak256Hasher::new();
    h.absorb(b"hello");
    h.absorb(b"world!");
    let digest = h.digest();
    let first8 = &digest[0..8];

    let le = reduce_le(first8).unwrap();
    let be = reduce_be(first8).unwrap();
    assert_ne!(le, be);

    // Manual assembly, most-significant byte first.
    let mut manual: u64 = 0;
    for &b in first8 {
        manual = (manual << 8) | (b as u64);
    }
    assert_eq!(be, manual);

    // Manual assembly, least-significant byte first.
    let mut manual_le: u64 = 0;
    for (i, &b) in first8.iter().enumerate() {
        manual_le |= (b as u64) << (8 * i);
    }
    assert_eq!(le, manual_le);

    // The hasher's own 64-bit reduction is the big-endian one.
    assert_eq!(h.finish(), be);
}

#[test]
fn hex_rendering_fixtures() {
    let empty: [u8; 0] = [];
    assert_eq!(to_hex(&empty), "");
    assert_eq!(to_hex(&[0x00]), "00");
    assert_eq!(to_hex(&[0x0f, 0xa5, 0xff]), "0fa5ff");
    assert_eq!(to_hex(&[0x12, 0x34]), "1234");
}

#[test]
fn bin_rendering_fixtures() {
    let empty: [u8; 0] = [];
    assert_eq!(to_bin(&empty), "");
    assert_eq!(to_bin(&[0b1010_0101]), "10100101");
    assert_eq!(to_bin(&[0, 255]), "0000000011111111");
    assert_eq!(to_bin(&[1]), "00000001");
}

#[test]
fn u64_rendering_fixtures() {
    assert_eq!(u64_to_hex(0), "0000000000000000");
    assert_eq!(u64_to_hex(0x0102030405060708), "0102030405060708");
    assert_eq!(u64_to_hex(u64::MAX), "ffffffffffffffff");
    assert_eq!(
        u64_to_bin(1),
        "0000000000000000000000000000000000000000000000000000000000000001"
    );
    assert_eq!(
        u64_to_bin(0x8000000000000000),
        "1000000000000000000000000000000000000000000000000000000000000000"
    );
    let v = 0xdeadbeef01020304u64;
    assert_eq!(u64_to_bin(v), format!("{:064b}", v));
    assert_eq!(u64_to_hex(v), format!("{:016x}", v));
}

#[test]
fn slice_and_owned_renderings_agree() {
    let empty: [u8; 0] = [];
    assert!(slice_vec(&empty));
    assert!(slice_vec(&[1, 2, 3]));
    let h = Keccak256Hasher::new();
    let d = h.digest();
    assert!(slice_vec(&d));
}

#[test]
fn my_vec_views() {
    let mv = MyVec::new(vec![10u8, 20, 30]);
    assert_eq!(mv.len(), 3);
    assert_eq!(mv.as_slice(), &[10, 20, 30]);

    let mut mv = MyVec::new(vec![3u8, 1, 2]);
    mv.as_mut_slice().sort();
    assert_eq!(mv.as_slice(), &[1, 2, 3]);
    mv.as_mut_slice()[0] += 10;
    assert_eq!(mv.as_slice(), &[11, 2, 3]);
    mv.as_mut_slice().reverse();
    assert_eq!(mv.as_slice(), &[3, 2, 11]);
}
