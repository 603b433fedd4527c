use poisjuoksu::fixed::{down, down_half, half, isqrt, up, up_half, wadd, wdiv, wmul, wsub};
use poisjuoksu::FP_POS;

#[test]
fn fixed_point_has_eight_fractional_bits() {
    assert_eq!(FP_POS, 8);
    assert_eq!(up(1), 1 << FP_POS);
}

#[test]
fn isqrt_of_zero_is_zero() {
    assert_eq!(isqrt(0), 0);
}

#[test]
fn isqrt_of_every_perfect_square_is_its_root() {
    let mut k: i32 = 0;
    while k <= 46340 {
        assert_eq!(isqrt(k * k), k, "k = {}", k);
        k += 1;
    }
}

#[test]
fn isqrt_rounds_down() {
    assert_eq!(isqrt(1), 1);
    assert_eq!(isqrt(2), 1);
    assert_eq!(isqrt(3), 1);
    assert_eq!(isqrt(4), 2);
    assert_eq!(isqrt(15), 3);
    assert_eq!(isqrt(17), 4);
    assert_eq!(isqrt(65535), 255);
    assert_eq!(isqrt(65536), 256);
    assert_eq!(isqrt(65537), 256);
    assert_eq!(isqrt(1_000_000), 1000);
    assert_eq!(isqrt(999_999), 999);
    assert_eq!(isqrt(46340 * 46340 - 1), 46339);
}

#[test]
fn isqrt_of_the_largest_number() {
    assert_eq!(isqrt(i32::MAX), 46340);
}

#[test]
fn isqrt_of_a_negative_number_is_zero() {
    assert_eq!(isqrt(-1), 0);
    assert_eq!(isqrt(-65536), 0);
    assert_eq!(isqrt(i32::MIN), 0);
}

#[test]
fn isqrt_never_decreases() {
    let mut last = 0;
    let mut n: i32 = 0;
    while n < 200_000 {
        let r = isqrt(n);
        assert!(r >= last, "n = {}", n);
        assert!(r * r <= n && n < (r + 1) * (r + 1), "n = {}", n);
        last = r;
        n += 1;
    }
    let mut n: i64 = 0;
    let mut last = 0;
    while n <= i32::MAX as i64 {
        let r = isqrt(n as i32);
        assert!(r >= last, "n = {}", n);
        last = r;
        n += 1_000_003;
    }
}

#[test]
fn sums_and_differences_wrap() {
    assert_eq!(wadd(2, 3), 5);
    assert_eq!(wadd(i32::MAX, 1), i32::MIN);
    assert_eq!(wadd(i32::MIN, -1), i32::MAX);
    assert_eq!(wsub(2, 3), -1);
    assert_eq!(wsub(i32::MIN, 1), i32::MAX);
    assert_eq!(wsub(0, i32::MIN), i32::MIN);
}

#[test]
fn products_wrap() {
    assert_eq!(wmul(-7, 6), -42);
    assert_eq!(wmul(65536, 65536), 0);
    assert_eq!(wmul(65536, 32768), i32::MIN);
    assert_eq!(wmul(46341, 46341), -2147479015);
}

#[test]
fn quotients_round_toward_zero() {
    assert_eq!(wdiv(7, 2), 3);
    assert_eq!(wdiv(-7, 2), -3);
    assert_eq!(wdiv(7, -2), -3);
    assert_eq!(wdiv(-7, -2), 3);
    assert_eq!(wdiv(0, -5), 0);
    assert_eq!(wdiv(i32::MIN, -1), i32::MIN);
    assert_eq!(half(-3), -1);
    assert_eq!(half(3), 1);
    assert_eq!(half(320), 160);
}

#[test]
fn shifts_scale_by_powers_of_two() {
    assert_eq!(up(3), 768);
    assert_eq!(up(-3), -768);
    assert_eq!(up(0x0080_0000), i32::MIN);
    assert_eq!(up_half(3), 48);
    assert_eq!(down(768), 3);
    assert_eq!(down(-1), -1);
    assert_eq!(down(-257), -2);
    assert_eq!(down(255), 0);
    assert_eq!(down_half(-1), -1);
    assert_eq!(down_half(31), 1);
}
