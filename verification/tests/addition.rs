use ff_12381::arith::{fe_add, fe_sub, W6x64, N};
use rand::Rng;

const X: W6x64 = W6x64 {
    v: [
        0xc34110121829fa85,
        0xc42f61586f13abac,
        0x5a98f20b2164430a,
        0xcdd6beb839ca6556,
        0xdacae65ae941e8e8,
        0x0f594a44cbdf0ae1,
    ],
};

const Y: W6x64 = W6x64 {
    v: [
        0xf4921aadbbf08d96,
        0x9f5973902a56b682,
        0x4b86761f89b618b2,
        0xca440e25b9c201dd,
        0xd3caeb49dc668726,
        0x0416ce3c635e5e23,
    ],
};

const ALL_ONES: W6x64 = W6x64 { v: [u64::MAX; 6] };

fn small(x: u64) -> W6x64 {
    W6x64 { v: [x, 0, 0, 0, 0, 0] }
}

fn n_minus(x: u64) -> W6x64 {
    let mut r = W6x64 { v: N };
    r.v[0] -= x;
    r
}

fn add(a: &W6x64, b: &W6x64) -> W6x64 {
    let mut r = W6x64::default();
    fe_add(&mut r, a, b);
    r
}

fn sub(a: &W6x64, b: &W6x64) -> W6x64 {
    let mut r = W6x64::default();
    fe_sub(&mut r, a, b);
    r
}

// A canonical element: random low limbs under a top limb below that of N.
fn random_canonical() -> W6x64 {
    let mut rng = rand::thread_rng();
    let mut r = W6x64::default();
    for i in 0..5 {
        r.v[i] = rng.gen();
    }
    r.v[5] = rng.gen_range(0..N[5]);
    r
}

#[test]
fn add_small_values() {
    assert_eq!(add(&small(1), &small(2)), small(3));
    assert_eq!(add(&small(0), &small(0)), small(0));
    assert_eq!(add(&X, &small(0)), X);
}

#[test]
fn add_known_sum() {
    let expected = W6x64 {
        v: [
            0xb7d32abfd41a881b,
            0x6388d4e8996a622f,
            0xa61f682aab1a5bbd,
            0x981accddf38c6733,
            0xae95d1a4c5a8700f,
            0x137018812f3d6905,
        ],
    };
    assert_eq!(add(&X, &Y), expected);
}

#[test]
fn add_carries_through_a_full_limb() {
    // Limb 1 overflows only once the carry out of limb 0 arrives.
    let a = W6x64 { v: [u64::MAX, u64::MAX, 0, 0, 0, 0] };
    let expected = W6x64 { v: [0, 0, 1, 0, 0, 0] };
    assert_eq!(add(&a, &small(1)), expected);
    assert_eq!(add(&small(1), &a), expected);
}

#[test]
fn add_carries_out_of_a_limb_directly() {
    // Limb 0 overflows by itself, with no carry coming in.
    let a = W6x64 { v: [u64::MAX, 0, 0, 0, 0, 0] };
    let b = W6x64 { v: [u64::MAX, 0, 0, 0, 0, 0] };
    let expected = W6x64 { v: [u64::MAX - 1, 1, 0, 0, 0, 0] };
    assert_eq!(add(&a, &b), expected);
}

#[test]
fn add_reduces_at_the_modulus() {
    assert_eq!(add(&n_minus(1), &small(1)), small(0));
    assert_eq!(add(&n_minus(1), &small(2)), small(1));
    assert_eq!(add(&n_minus(1), &n_minus(1)), n_minus(2));
    assert_eq!(add(&n_minus(2), &small(1)), n_minus(1));
}

#[test]
fn add_commutes() {
    assert_eq!(add(&X, &Y), add(&Y, &X));
    for _i in 0..1000 {
        let a = random_canonical();
        let b = random_canonical();
        assert_eq!(add(&a, &b), add(&b, &a));
    }
}

#[test]
fn add_associates() {
    for _i in 0..1000 {
        let a = random_canonical();
        let b = random_canonical();
        let c = random_canonical();
        assert_eq!(add(&add(&a, &b), &c), add(&a, &add(&b, &c)));
    }
}

#[test]
fn add_of_values_above_the_modulus_drops_the_carry() {
    // 2^384 - 1 is not below N: one subtraction of N, and no more.
    let expected = W6x64 {
        v: [
            0x4601000000005554,
            0xe15400014eac0000,
            0x98cf2d5f094f09db,
            0x9b88b47b0c7aed40,
            0xb4e45849bcb45328,
            0xe5feee15c6801965,
        ],
    };
    assert_eq!(add(&ALL_ONES, &small(0)), expected);
    // (2^384 - 1) + 1 wraps to zero.
    assert_eq!(add(&ALL_ONES, &small(1)), small(0));
    let expected = W6x64 {
        v: [
            0x4601000000005553,
            0xe15400014eac0000,
            0x98cf2d5f094f09db,
            0x9b88b47b0c7aed40,
            0xb4e45849bcb45328,
            0xe5feee15c6801965,
        ],
    };
    assert_eq!(add(&ALL_ONES, &ALL_ONES), expected);
}

#[test]
fn sub_small_values() {
    assert_eq!(sub(&small(5), &small(3)), small(2));
    assert_eq!(sub(&small(7), &small(7)), small(0));
    assert_eq!(sub(&X, &small(0)), X);
}

#[test]
fn sub_known_differences() {
    let x_minus_y = W6x64 {
        v: [
            0xceaef5645c396cef,
            0x24d5edc844bcf529,
            0x0f127beb97ae2a58,
            0x0392b09280086379,
            0x06fffb110cdb61c2,
            0x0b427c086880acbe,
        ],
    };
    let y_minus_x = W6x64 {
        v: [
            0xeb500a9ba3c63dbc,
            0xf9d612366c970ad5,
            0x581e56b55f02cbcb,
            0x60e49af2737caf46,
            0x441baca536704b15,
            0x0ebe95e1d0ff39dc,
        ],
    };
    assert_eq!(sub(&X, &Y), x_minus_y);
    assert_eq!(sub(&Y, &X), y_minus_x);
}

#[test]
fn sub_wraps_below_zero() {
    assert_eq!(sub(&small(0), &small(1)), n_minus(1));
    assert_eq!(sub(&small(1), &small(3)), n_minus(2));
    assert_eq!(sub(&small(0), &n_minus(1)), small(1));
}

#[test]
fn sub_borrows_through_an_empty_limb() {
    // Limb 1 borrows only once the borrow out of limb 0 arrives.
    let a = W6x64 { v: [0, 0, 1, 0, 0, 0] };
    let expected = W6x64 { v: [u64::MAX, u64::MAX, 0, 0, 0, 0] };
    assert_eq!(sub(&a, &small(1)), expected);
}

#[test]
fn sub_borrows_out_of_a_limb_directly() {
    // Limb 0 borrows by itself, with no borrow coming in.
    let a = W6x64 { v: [1, 1, 0, 0, 0, 0] };
    let b = W6x64 { v: [2, 0, 0, 0, 0, 0] };
    let expected = W6x64 { v: [u64::MAX, 0, 0, 0, 0, 0] };
    assert_eq!(sub(&a, &b), expected);
}

#[test]
fn sub_undoes_add() {
    assert_eq!(sub(&add(&X, &Y), &Y), X);
    assert_eq!(sub(&add(&n_minus(1), &n_minus(1)), &n_minus(1)), n_minus(1));
    assert_eq!(sub(&add(&small(0), &small(0)), &small(0)), small(0));
    for _i in 0..1000 {
        let a = random_canonical();
        let b = random_canonical();
        assert_eq!(sub(&add(&a, &b), &b), a);
        assert_eq!(add(&sub(&a, &b), &b), a);
    }
}

#[test]
fn sub_of_values_above_the_modulus_adds_the_modulus_once() {
    // 0 - (2^384 - 1) borrows; the difference 1 plus N comes out.
    let expected = W6x64 {
        v: [
            0xb9feffffffffaaac,
            0x1eabfffeb153ffff,
            0x6730d2a0f6b0f624,
            0x64774b84f38512bf,
            0x4b1ba7b6434bacd7,
            0x1a0111ea397fe69a,
        ],
    };
    assert_eq!(sub(&small(0), &ALL_ONES), expected);
    // No borrow: the plain difference, though it is not below N.
    let expected = W6x64 {
        v: [u64::MAX - 1, u64::MAX, u64::MAX, u64::MAX, u64::MAX, u64::MAX],
    };
    assert_eq!(sub(&ALL_ONES, &small(1)), expected);
}

#[test]
fn what_the_result_held_before_does_not_matter() {
    let mut r = ALL_ONES;
    fe_add(&mut r, &small(1), &small(2));
    assert_eq!(r, small(3));
    let mut r = ALL_ONES;
    fe_sub(&mut r, &small(5), &small(3));
    assert_eq!(r, small(2));
}

#[test]
fn sums_and_differences_of_canonical_operands_are_canonical() {
    for _i in 0..1000 {
        let a = random_canonical();
        let b = random_canonical();
        assert!(add(&a, &b).is_canonical());
        assert!(sub(&a, &b).is_canonical());
    }
    assert!(add(&n_minus(1), &n_minus(1)).is_canonical());
    assert!(sub(&small(0), &n_minus(1)).is_canonical());
}
