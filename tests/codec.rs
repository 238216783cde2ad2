use terraphim_pipeline::codec::{checked_magic_pair, floor_sqrt_u64, magic_pair, magic_unpair};

#[test]
fn elegant_pairing_values() {
    assert_eq!(magic_pair(1, 2), 5);
    assert_eq!(magic_pair(2, 1), 5);
    assert_eq!(magic_pair(10, 20), 410);
    assert_eq!(magic_pair(20, 10), 410);
    assert_eq!(magic_pair(2, 2), 8);
    assert_eq!(magic_pair(0, 0), 0);
}

#[test]
fn unpair_inverts_pair() {
    assert_eq!(magic_unpair(5), (1, 2));
    assert_eq!(magic_unpair(410), (10, 20));
    assert_eq!(magic_unpair(8), (2, 2));
    for a in 0..40u64 {
        for b in 0..40u64 {
            let (lo, hi) = magic_unpair(magic_pair(a, b));
            assert_eq!((lo, hi), (a.min(b), a.max(b)));
            assert_eq!(magic_pair(lo, hi), magic_pair(a, b));
        }
    }
}

#[test]
fn pairing_ignores_order() {
    for a in 0..30u64 {
        for b in 0..30u64 {
            assert_eq!(magic_pair(a, b), magic_pair(b, a));
        }
    }
}

#[test]
fn overflow_is_detected() {
    assert_eq!(checked_magic_pair(u64::MAX, 0), None);
    assert_eq!(checked_magic_pair(0, u64::MAX), None);
    assert_eq!(checked_magic_pair(4294967295, 4294967295), Some(u64::MAX));
    assert_eq!(checked_magic_pair(4294967294, 4294967295), Some(u64::MAX - 4294967296));
    assert_eq!(checked_magic_pair(4294967296, 0), None);
    assert_eq!(checked_magic_pair(1, 2), Some(5));
    assert_eq!(checked_magic_pair(2, 1), Some(5));
}

#[test]
fn integer_square_root() {
    assert_eq!(floor_sqrt_u64(0), 0);
    assert_eq!(floor_sqrt_u64(15), 3);
    assert_eq!(floor_sqrt_u64(16), 4);
    assert_eq!(floor_sqrt_u64(u64::MAX), 4294967295);
    assert_eq!(magic_unpair(u64::MAX), (4294967295, 4294967295));
}
