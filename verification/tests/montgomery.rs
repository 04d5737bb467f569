use ff_12381::arith::{
    fe_mont_mul, fe_to_montgomery, fe_to_normal, mont_mul_384, mont_mul_384_rust, W6x64, N,
};
use ff_12381::backend::{MontgomeryBackend, Portable, Wide};
use rand::Rng;

const X: W6x64 = W6x64 {
    v: [
        0xc34110121829fa85,
        0xc42f61586f13abac,
        0x5a98f20b2164430a,
        0xcdd6beb839ca6556,
        0xdacae65ae941e8e8,
        0x0f594a44cbdf0ae1,
    ],
};

const Y: W6x64 = W6x64 {
    v: [
        0xf4921aadbbf08d96,
        0x9f5973902a56b682,
        0x4b86761f89b618b2,
        0xca440e25b9c201dd,
        0xd3caeb49dc668726,
        0x0416ce3c635e5e23,
    ],
};

// 2^384 mod N: the Montgomery form of one.
const R_MOD_N: W6x64 = W6x64 {
    v: [
        0x760900000002fffd,
        0xebf4000bc40c0002,
        0x5f48985753c758ba,
        0x77ce585370525745,
        0x5c071a97a256ec6d,
        0x15f65ec3fa80e493,
    ],
};

// The inverse of 2^384 modulo N.
const R_INVERSE: W6x64 = W6x64 {
    v: [
        0xf4d38259380b4820,
        0x7fe11274d898fafb,
        0x343ea97914956dc8,
        0x1797ab1458a88de9,
        0xed5e64273c4f538b,
        0x14fec701e8fb0ce9,
    ],
};

const N_PRIME: u64 = 0x89f3_fffc_fffc_fffd;

fn small(x: u64) -> W6x64 {
    W6x64 { v: [x, 0, 0, 0, 0, 0] }
}

fn n_minus(x: u64) -> W6x64 {
    let mut r = W6x64 { v: N };
    r.v[0] -= x;
    r
}

fn wide(a: &W6x64, b: &W6x64) -> W6x64 {
    let mut r = W6x64::default();
    fe_mont_mul(&mut r, a, b);
    r
}

fn narrow(a: &W6x64, b: &W6x64) -> W6x64 {
    let mut r = W6x64::default();
    mont_mul_384_rust(&mut r, a, b);
    r
}

fn general(a: &W6x64, b: &W6x64, n: &W6x64, n_prime: u64) -> W6x64 {
    let mut r = W6x64::default();
    mont_mul_384(&mut r, a, b, n, n_prime);
    r
}

fn lift(a: &W6x64) -> W6x64 {
    let mut r = W6x64::default();
    fe_to_montgomery(&mut r, a);
    r
}

fn project(a: &W6x64) -> W6x64 {
    let mut r = W6x64::default();
    fe_to_normal(&mut r, a);
    r
}

fn random_canonical() -> W6x64 {
    let mut rng = rand::thread_rng();
    let mut r = W6x64::default();
    for i in 0..5 {
        r.v[i] = rng.gen();
    }
    r.v[5] = rng.gen_range(0..N[5]);
    r
}

#[test]
fn product_of_one_and_one_is_the_radix_inverse() {
    assert_eq!(wide(&small(1), &small(1)), R_INVERSE);
    assert_eq!(narrow(&small(1), &small(1)), R_INVERSE);
}

#[test]
fn known_products() {
    let two_times_three = W6x64 {
        v: [
            0xd4f90e1750450614,
            0x84966ec24e45e1e8,
            0x9cb4ae52a0bcba22,
            0xfbb0d46645df0879,
            0x63c7ba125cad41e4,
            0x15f462628fe2b312,
        ],
    };
    assert_eq!(wide(&small(2), &small(3)), two_times_three);
    assert_eq!(narrow(&small(2), &small(3)), two_times_three);
    let x_times_y = W6x64 {
        v: [
            0x8628d35af4c9778b,
            0xcde9810f6674b315,
            0xfd0b0229b61d874c,
            0xa95a0cc992e4e2a6,
            0x7250e3e29083e31d,
            0x0d6cae1d90c30cba,
        ],
    };
    assert_eq!(wide(&X, &Y), x_times_y);
    assert_eq!(narrow(&X, &Y), x_times_y);
}

#[test]
fn zero_operands_give_zero() {
    for x in [small(0), small(1), X, Y, n_minus(1)] {
        assert_eq!(wide(&small(0), &x), small(0));
        assert_eq!(wide(&x, &small(0)), small(0));
        assert_eq!(narrow(&small(0), &x), small(0));
        assert_eq!(narrow(&x, &small(0)), small(0));
    }
}

#[test]
fn the_montgomery_form_of_one_is_neutral() {
    for x in [small(0), small(1), X, Y, n_minus(1)] {
        assert_eq!(wide(&x, &R_MOD_N), x);
        assert_eq!(narrow(&R_MOD_N, &x), x);
    }
}

#[test]
fn largest_operands() {
    // (N - 1)^2 is 1 modulo N, so its Montgomery product is the radix inverse.
    assert_eq!(wide(&n_minus(1), &n_minus(1)), R_INVERSE);
    assert_eq!(narrow(&n_minus(1), &n_minus(1)), R_INVERSE);
}

#[test]
fn lift_known_values() {
    assert_eq!(lift(&small(0)), small(0));
    assert_eq!(lift(&small(1)), R_MOD_N);
    let lifted_n_minus_one = W6x64 {
        v: [
            0x43f5fffffffcaaae,
            0x32b7fff2ed47fffd,
            0x07e83a49a2e99d69,
            0xeca8f3318332bb7a,
            0xef148d1ea0f4c069,
            0x040ab3263eff0206,
        ],
    };
    assert_eq!(lift(&n_minus(1)), lifted_n_minus_one);
}

#[test]
fn project_known_values() {
    assert_eq!(project(&small(0)), small(0));
    assert_eq!(project(&small(1)), R_INVERSE);
    assert_eq!(project(&R_MOD_N), small(1));
}

#[test]
fn round_trip_of_boundary_values() {
    // 2^384 - 1 reduced into the canonical range.
    let r_minus_one = W6x64 {
        v: [
            0x760900000002fffc,
            0xebf4000bc40c0002,
            0x5f48985753c758ba,
            0x77ce585370525745,
            0x5c071a97a256ec6d,
            0x15f65ec3fa80e493,
        ],
    };
    let lifted_r_minus_one = W6x64 {
        v: [
            0x38d51f341c30c1f4,
            0x3d2ee698f71904ef,
            0x95cd81b5ef7f543e,
            0x54947bdb16d03f3a,
            0x898dcba4560e5597,
            0x15a3430bd1c9e5b1,
        ],
    };
    assert_eq!(lift(&r_minus_one), lifted_r_minus_one);
    for x in [small(0), small(1), n_minus(1), r_minus_one, X, Y] {
        assert_eq!(project(&lift(&x)), x);
        assert_eq!(lift(&project(&x)), x);
    }
}

#[test]
fn round_trip_of_random_values() {
    for _i in 0..1000 {
        let x = random_canonical();
        assert_eq!(project(&lift(&x)), x);
    }
}

#[test]
fn boundary_values_multiply_correctly() {
    // In Montgomery form, (N - 1) * (N - 1) = 1 and (N - 1) * 1 = N - 1.
    let m = lift(&n_minus(1));
    let one = lift(&small(1));
    assert_eq!(project(&wide(&m, &m)), small(1));
    assert_eq!(project(&wide(&m, &one)), n_minus(1));
    assert_eq!(project(&wide(&lift(&small(0)), &m)), small(0));
    assert_eq!(project(&narrow(&m, &m)), small(1));
}

#[test]
fn product_in_montgomery_form_is_the_product() {
    // X * Y mod N.
    let expected = W6x64 {
        v: [
            0xc227ed88a2aa65c6,
            0x7e43654616cd81db,
            0xd5115e790990f9a2,
            0x84f4803739f71e63,
            0x3bba65e4b6c88f70,
            0x06d375f4959f1201,
        ],
    };
    assert_eq!(project(&wide(&lift(&X), &lift(&Y))), expected);
    assert_eq!(project(&narrow(&lift(&X), &lift(&Y))), expected);
    assert_eq!(project(&wide(&lift(&small(6)), &lift(&small(7)))), small(42));
}

#[test]
fn multiplication_commutes() {
    assert_eq!(wide(&X, &Y), wide(&Y, &X));
    for _i in 0..1000 {
        let a = random_canonical();
        let b = random_canonical();
        assert_eq!(wide(&a, &b), wide(&b, &a));
        assert_eq!(narrow(&a, &b), narrow(&b, &a));
    }
}

#[test]
fn multiplication_associates() {
    for _i in 0..1000 {
        let a = random_canonical();
        let b = random_canonical();
        let c = random_canonical();
        assert_eq!(wide(&wide(&a, &b), &c), wide(&a, &wide(&b, &c)));
    }
}

#[test]
fn the_implementations_agree() {
    let n = W6x64 { v: N };
    for _i in 0..100_000 {
        let a = random_canonical();
        let b = random_canonical();
        let expected = wide(&a, &b);
        assert_eq!(narrow(&a, &b), expected);
        assert_eq!(general(&a, &b, &n, N_PRIME), expected);
    }
}

#[test]
fn chained_products_reach_the_published_value() {
    let a = W6x64 { v: [u64::MAX, u64::MAX, 0, 0, 0, 0] };
    let b = W6x64 { v: [u64::MAX, 0, 0, 0, 0, 0] };
    let expected = W6x64 {
        v: [
            0xac374deb854388ec,
            0xde27ce2c9adb62a5,
            0xdfa9c2c40422c0ce,
            0x65068c217b3621e3,
            0x4038abbd17ad9397,
            0x0a8bcff5b7a351ec,
        ],
    };
    let mut xx = a;
    let mut yy = b;
    for _i in 0..1000 {
        let result = narrow(&xx, &yy);
        yy = xx;
        xx = result;
    }
    assert_eq!(xx, expected);

    let mut xx = a;
    let mut yy = b;
    for _i in 0..1000 {
        let result = wide(&xx, &yy);
        yy = xx;
        xx = result;
    }
    assert_eq!(xx, expected);
}

#[test]
fn general_modulus_with_the_field_prime() {
    let n = W6x64 { v: N };
    assert_eq!(general(&X, &Y, &n, N_PRIME), narrow(&X, &Y));
    assert_eq!(general(&small(1), &small(1), &n, N_PRIME), R_INVERSE);
    assert_eq!(general(&n_minus(1), &n_minus(1), &n, N_PRIME), R_INVERSE);
}

#[test]
fn general_modulus_with_a_shorter_prime() {
    // 2^255 - 19, in four of the six limbs.
    let p = W6x64 {
        v: [0xffffffffffffffed, 0xffffffffffffffff, 0xffffffffffffffff, 0x7fffffffffffffff, 0, 0],
    };
    let p_prime = 0x86bca1af286bca1b;
    let a = W6x64 {
        v: [0x0123456789abcdef, 0x0123456789abcdef, 0x0123456789abcdef, 0x0123456789abcdef, 0, 0],
    };
    let b = W6x64 {
        v: [0x10fedcba98765432, 0x10fedcba98765432, 0x10fedcba98765432, 0x00fedcba98765432, 0, 0],
    };
    let expected = W6x64 {
        v: [0x7bfe571e710d60f7, 0x64045836787e64ea, 0xf41a9672100e9d4b, 0x49b05fded6cffe31, 0, 0],
    };
    assert_eq!(general(&a, &b, &p, p_prime), expected);
    assert_eq!(general(&b, &a, &p, p_prime), expected);
    assert_eq!(general(&small(0), &a, &p, p_prime), small(0));
}

#[test]
fn general_modulus_with_full_limbs() {
    // 2^383 - 31: the largest size of modulus, with limbs of all ones, which
    // the final subtraction has to borrow through.
    let q = W6x64 {
        v: [
            0xffffffffffffffe1,
            0xffffffffffffffff,
            0xffffffffffffffff,
            0xffffffffffffffff,
            0xffffffffffffffff,
            0x7fffffffffffffff,
        ],
    };
    let q_prime = 0xef7bdef7bdef7bdf;
    let mut a = q;
    a.v[0] -= 1;
    let mut b = q;
    b.v[0] -= 2;
    let expected = W6x64 {
        v: [
            0xef7bdef7bdef7bc4,
            0xdef7bdef7bdef7bd,
            0xbdef7bdef7bdef7b,
            0x7bdef7bdef7bdef7,
            0xf7bdef7bdef7bdef,
            0x6f7bdef7bdef7bde,
        ],
    };
    assert_eq!(general(&a, &b, &q, q_prime), expected);
}

#[test]
fn any_six_limbs_are_accepted() {
    // Operands that are not canonical get some six-limb answer, and no fault.
    let all_ones = W6x64 { v: [u64::MAX; 6] };
    let _ = wide(&all_ones, &all_ones);
    let _ = narrow(&all_ones, &all_ones);
    let _ = general(&all_ones, &all_ones, &all_ones, u64::MAX);
    let _ = general(&all_ones, &all_ones, &small(0), 0);
    let _ = lift(&all_ones);
    let _ = project(&all_ones);
}

fn through<B: MontgomeryBackend>(a: &W6x64, b: &W6x64) -> W6x64 {
    let mut r = W6x64::default();
    B::mont_mul(&mut r, a, b);
    r
}

// The published chain, by whichever implementation.
fn published_chain<B: MontgomeryBackend>() -> W6x64 {
    let mut xx = W6x64 { v: [u64::MAX, u64::MAX, 0, 0, 0, 0] };
    let mut yy = W6x64 { v: [u64::MAX, 0, 0, 0, 0, 0] };
    for _i in 0..1000 {
        let result = through::<B>(&xx, &yy);
        yy = xx;
        xx = result;
    }
    xx
}

#[test]
fn each_backend_reaches_the_published_value() {
    let expected = W6x64 {
        v: [
            0xac374deb854388ec,
            0xde27ce2c9adb62a5,
            0xdfa9c2c40422c0ce,
            0x65068c217b3621e3,
            0x4038abbd17ad9397,
            0x0a8bcff5b7a351ec,
        ],
    };
    assert_eq!(published_chain::<Portable>(), expected);
    assert_eq!(published_chain::<Wide>(), expected);
}

#[test]
fn the_backends_agree_on_every_sample() {
    for _i in 0..100_000 {
        let a = random_canonical();
        let b = random_canonical();
        assert_eq!(through::<Portable>(&a, &b), through::<Wide>(&a, &b));
    }
    for x in [small(0), small(1), n_minus(1), X, Y] {
        for y in [small(0), small(1), n_minus(1), X, Y] {
            assert_eq!(through::<Portable>(&x, &y), through::<Wide>(&x, &y));
            assert_eq!(through::<Portable>(&x, &y), narrow(&x, &y));
            assert_eq!(through::<Wide>(&x, &y), wide(&x, &y));
        }
    }
}

#[test]
fn products_of_canonical_operands_are_canonical() {
    for _i in 0..1000 {
        let a = random_canonical();
        let b = random_canonical();
        assert!(a.is_canonical() && b.is_canonical());
        assert!(wide(&a, &b).is_canonical());
        assert!(narrow(&a, &b).is_canonical());
        assert!(lift(&a).is_canonical());
        assert!(project(&a).is_canonical());
    }
    assert!(wide(&n_minus(1), &n_minus(1)).is_canonical());
    assert!(lift(&n_minus(1)).is_canonical());
}
