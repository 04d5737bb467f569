use ff_12381::arith::W6x64;
use ff_12381::chain::{add_rust, mul_rust, sub_rust};

const X: W6x64 = W6x64 {
    v: [
        0xc34110121829fa85,
        0xc42f61586f13abac,
        0x5a98f20b2164430a,
        0xcdd6beb839ca6556,
        0xdacae65ae941e8e8,
        0xf594a44cbdf0ae1,
    ],
};

const Y: W6x64 = W6x64 {
    v: [
        0xf4921aadbbf08d96,
        0x9f5973902a56b682,
        0x4b86761f89b618b2,
        0xca440e25b9c201dd,
        0xd3caeb49dc668726,
        0x416ce3c635e5e23,
    ],
};

const EXP_SUM: W6x64 = W6x64 {
    v: [
        0xbd3d31dc0303fa06,
        0x704875edd38742a3,
        0x60549f5927a1c745,
        0xe234ee37eb7d3cee,
        0xa13832d81ab0d5c5,
        0x10fdd2f03da8f7ca,
    ],
};

const EXP_DIFF: W6x64 = W6x64 {
    v: [
        0xeb500a9ba3c63dbc,
        0xf9d612366c970ad5,
        0x581e56b55f02cbcb,
        0x60e49af2737caf46,
        0x441baca536704b15,
        0xebe95e1d0ff39dc,
    ],
};

const EXP_PROD: W6x64 = W6x64 {
    v: [
        0xb54cf29498954919,
        0x8f2491ddb5cef751,
        0xb155fe8acce5c7d3,
        0x448683648418e8dd,
        0xf3599187e803fc7e,
        0x1118bd439ac24052,
    ],
};

#[test]
fn one_thousand_multiplications() {
    assert_eq!(mul_rust(&X, &Y), EXP_PROD);
}

#[test]
fn one_thousand_additions() {
    assert_eq!(add_rust(&X, &Y), EXP_SUM);
}

#[test]
fn one_thousand_subtractions() {
    assert_eq!(sub_rust(&X, &Y), EXP_DIFF);
}

#[test]
fn one_thousand_multiplications_from_the_published_start() {
    let a = W6x64 { v: [u64::MAX, u64::MAX, 0, 0, 0, 0] };
    let b = W6x64 { v: [u64::MAX, 0, 0, 0, 0, 0] };
    let expected = W6x64 {
        v: [
            0xac374deb854388ec,
            0xde27ce2c9adb62a5,
            0xdfa9c2c40422c0ce,
            0x65068c217b3621e3,
            0x4038abbd17ad9397,
            0x0a8bcff5b7a351ec,
        ],
    };
    assert_eq!(mul_rust(&a, &b), expected);
}

#[test]
fn chains_from_zero_stay_at_zero() {
    let zero = W6x64::default();
    assert_eq!(mul_rust(&zero, &Y), zero);
    assert_eq!(add_rust(&zero, &zero), zero);
    assert_eq!(sub_rust(&zero, &zero), zero);
}
