use clipper::int128::{cross_sign, int128_mul, int128_sign, int128_sub};

fn value(v: (i64, u64)) -> i128 {
    ((v.0 as i128) << 64) + v.1 as i128
}

#[test]
fn int128_mul_small_values() {
    assert_eq!(int128_mul(3, 4), (0, 12));
    assert_eq!(int128_mul(0, -5), (0, 0));
    assert_eq!(int128_mul(-3, 4), (-1, u64::MAX - 11));
    assert_eq!(int128_mul(-3, -4), (0, 12));
}

#[test]
fn int128_mul_large_values() {
    let cases: [(i64, i64); 6] = [
        (i64::MAX, i64::MAX),
        (i64::MAX, -i64::MAX),
        (-i64::MAX, -i64::MAX),
        (0x1234_5678_9abc_def0, -0x0fed_cba9_8765_4321),
        (1 << 40, 1 << 40),
        (-(1 << 32), 1 << 32),
    ];
    for (a, b) in cases {
        assert_eq!(value(int128_mul(a, b)), a as i128 * b as i128, "{} * {}", a, b);
    }
    // (2^63 - 1)^2 = 2^126 - 2^64 + 1
    assert_eq!(int128_mul(i64::MAX, i64::MAX), ((1i64 << 62) - 1, 1));
}

#[test]
fn int128_sub_and_sign() {
    let a = int128_mul(i64::MAX, 3);
    let b = int128_mul(i64::MAX, 5);
    let d = int128_sub(a, b);
    assert_eq!(value(d), -2 * i64::MAX as i128);
    assert_eq!(int128_sign(d), -1);
    assert_eq!(int128_sign(int128_sub(b, a)), 1);
    assert_eq!(int128_sign(int128_sub(a, a)), 0);
    assert_eq!(int128_sign((0, 1)), 1);
}

#[test]
fn cross_sign_small_path() {
    assert_eq!(cross_sign(2, 3, 1, 5), 1);
    assert_eq!(cross_sign(2, 3, 1, 7), -1);
    assert_eq!(cross_sign(2, 3, 1, 6), 0);
    assert_eq!(cross_sign(-2, 3, 1, -6), 0);
}

#[test]
fn cross_sign_wide_path() {
    let big: i128 = 1 << 40;
    assert_eq!(cross_sign(big, big, big - 1, big + 1), 1);
    assert_eq!(cross_sign(big - 1, big + 1, big, big), -1);
    assert_eq!(cross_sign(-big, big, big, -big), 0);
}

#[test]
fn cross_sign_full_range_path() {
    let max: i128 = u64::MAX as i128;
    // max * max - (max - 1) * (max + 1) = 1
    assert_eq!(cross_sign(max, max, max - 1, max + 1 - 2), 1);
    assert_eq!(cross_sign(max, -max, -max, max), 0);
    assert_eq!(cross_sign(-max, max, 1, 1), -1);
    assert_eq!(cross_sign(max, max, -max, max), 1);
    assert_eq!(cross_sign(-max, max, -max, -max), -1);
}
