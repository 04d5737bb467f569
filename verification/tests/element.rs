use ff_12381::arith::{W6x64, N};

#[test]
fn default_is_zero() {
    assert_eq!(W6x64::default().v, [0_u64; 6]);
}

#[test]
fn equality_compares_every_limb() {
    let a = W6x64 { v: [1, 2, 3, 4, 5, 6] };
    assert_eq!(a, W6x64 { v: [1, 2, 3, 4, 5, 6] });
    for i in 0..6 {
        let mut b = a;
        b.v[i] ^= 1 << 63;
        assert_ne!(a, b);
        assert!(!a.ct_eq(&b));
        assert!(!b.ct_eq(&a));
    }
    assert!(a.ct_eq(&a));
}

#[test]
fn constant_time_equality_agrees_with_equality() {
    let values = [
        W6x64::default(),
        W6x64 { v: N },
        W6x64 { v: [u64::MAX; 6] },
        W6x64 { v: [0, 0, 0, 0, 0, 1] },
        W6x64 { v: [1, 0, 0, 0, 0, 0] },
    ];
    for a in &values {
        for b in &values {
            assert_eq!(a.ct_eq(b), a == b);
        }
    }
}

#[test]
fn copies_are_equal() {
    let a = W6x64 { v: N };
    let b = a;
    let c = a.clone();
    assert_eq!(a, b);
    assert_eq!(a, c);
}

#[test]
fn debug_shows_the_limbs() {
    let a = W6x64 { v: [1, 2, 3, 4, 5, 6] };
    assert_eq!(format!("{:?}", a), "W6x64 { v: [1, 2, 3, 4, 5, 6] }");
}

#[test]
fn the_modulus_is_the_field_prime() {
    assert_eq!(
        N,
        [
            0xb9feffffffffaaab,
            0x1eabfffeb153ffff,
            0x6730d2a0f6b0f624,
            0x64774b84f38512bf,
            0x4b1ba7b6434bacd7,
            0x1a0111ea397fe69a,
        ]
    );
}

#[test]
fn values_below_the_prime_are_canonical() {
    let mut n_minus_one = W6x64 { v: N };
    n_minus_one.v[0] -= 1;
    assert!(W6x64::default().is_canonical());
    assert!(W6x64 { v: [1, 0, 0, 0, 0, 0] }.is_canonical());
    assert!(n_minus_one.is_canonical());
    assert!(W6x64 { v: [u64::MAX, u64::MAX, u64::MAX, u64::MAX, u64::MAX, N[5] - 1] }.is_canonical());
}

#[test]
fn values_from_the_prime_up_are_not_canonical() {
    let mut n_plus_one = W6x64 { v: N };
    n_plus_one.v[0] += 1;
    assert!(!W6x64 { v: N }.is_canonical());
    assert!(!n_plus_one.is_canonical());
    assert!(!W6x64 { v: [0, 0, 0, 0, 0, N[5] + 1] }.is_canonical());
    assert!(!W6x64 { v: [u64::MAX; 6] }.is_canonical());
}
