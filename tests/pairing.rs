use bau::collision_pair::CollisionPair;
use bau::pairing::isqrt;

#[test]
fn isqrt_exact_values() {
    assert_eq!(isqrt(0), 0);
    assert_eq!(isqrt(1), 1);
    assert_eq!(isqrt(15), 3);
    assert_eq!(isqrt(16), 4);
    assert_eq!(isqrt(17), 4);
    assert_eq!(isqrt(u64::MAX), 0xffff_ffff);
    assert_eq!(isqrt(0xffff_fffe_0000_0001), 0xffff_ffff);
    assert_eq!(isqrt(0xffff_fffe_0000_0000), 0xffff_fffe);
}

#[test]
fn pair_id_exact_values() {
    assert_eq!(CollisionPair::pair_id(1, 2), 7);
    assert_eq!(CollisionPair::pair_id(2, 1), 7);
    assert_eq!(CollisionPair::pair_id(3, 3), 15);
    assert_eq!(CollisionPair::pair_id(0, 0), 0);
    assert_eq!(CollisionPair::pair_id(0, 5), 30);
    assert_eq!(
        CollisionPair::pair_id(u16::MAX, u16::MAX),
        65535u64 * 65535 + 65535 + 65535
    );
}

#[test]
fn pair_id_is_symmetric() {
    for a in (0u16..=1000).step_by(7) {
        for b in (0u16..=1000).step_by(11) {
            assert_eq!(CollisionPair::pair_id(a, b), CollisionPair::pair_id(b, a));
        }
    }
}

#[test]
fn unpair_id_exact_values() {
    assert_eq!(CollisionPair::unpair_id(7), (2, 1));
    assert_eq!(CollisionPair::unpair_id(15), (3, 3));
    assert_eq!(CollisionPair::unpair_id(0), (0, 0));
    assert_eq!(CollisionPair::unpair_id(30), (5, 0));
}

#[test]
fn pair_id_round_trip_up_to_1000() {
    for a in 0u16..=1000 {
        for b in 0u16..=1000 {
            let (x, y) = CollisionPair::unpair_id(CollisionPair::pair_id(a, b));
            assert!((x, y) == (a, b) || (x, y) == (b, a));
            assert_eq!((x, y), (a.max(b), a.min(b)));
        }
    }
}

#[test]
fn pair_id_round_trip_at_the_largest_ids() {
    let (x, y) = CollisionPair::unpair_id(CollisionPair::pair_id(u16::MAX, u16::MAX - 1));
    assert_eq!((x, y), (u16::MAX, u16::MAX - 1));
}

#[test]
fn pair_validity_follows_frame() {
    let pair = CollisionPair { body_a: 1, body_b: 2, frame: 5 };
    assert!(pair.is_valid(4));
    assert!(pair.is_valid(5));
    assert!(!pair.is_valid(6));
    assert_eq!(pair.id(), CollisionPair::pair_id(2, 1));
}
