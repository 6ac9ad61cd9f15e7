use rust_ob::decimal::{Decimal, MAX_MANTISSA};

fn dec(mantissa: i128, scale: u32) -> Decimal {
    Decimal::try_from_i128_with_scale(mantissa, scale).unwrap()
}

fn parts(d: Decimal) -> (i128, u32) {
    (d.mantissa(), d.scale())
}

fn in_range(m: i128) -> bool {
    -MAX_MANTISSA <= m && m <= MAX_MANTISSA
}

fn pow10(k: u32) -> i128 {
    let mut p: i128 = 1;
    for _ in 0..k {
        p *= 10;
    }
    p
}

fn aligned(m: i128, from: u32, to: u32) -> Option<i128> {
    m.checked_mul(pow10(to - from)).filter(|v| in_range(*v))
}

// What the sum is said to be, computed on plain integers.
fn sum_by_the_book(a: (i128, u32), b: (i128, u32)) -> Option<(i128, u32)> {
    if a.0 == 0 {
        return Some(b);
    }
    if b.0 == 0 {
        return Some(a);
    }
    let scale = a.1.max(b.1);
    let x = aligned(a.0, a.1, scale)?;
    let y = aligned(b.0, b.1, scale)?;
    if in_range(x + y) {
        Some((x + y, scale))
    } else {
        None
    }
}

fn product_by_the_book(a: (i128, u32), b: (i128, u32)) -> Option<(i128, u32)> {
    if a.0 == 0 || b.0 == 0 {
        return Some((0, 0));
    }
    let m = a.0.checked_mul(b.0).filter(|v| in_range(*v))?;
    if a.1 + b.1 <= 28 {
        Some((m, a.1 + b.1))
    } else {
        None
    }
}

// -1, 0 or 1 as a stands to b, computed on plain integers.
fn order_by_the_book(a: (i128, u32), b: (i128, u32)) -> i8 {
    let scale = a.1.max(b.1);
    let x = a.0.checked_mul(pow10(scale - a.1));
    let y = b.0.checked_mul(pow10(scale - b.1));
    match (x, y) {
        (Some(x), Some(y)) => {
            if x < y {
                -1
            } else if x == y {
                0
            } else {
                1
            }
        }
        // only the operand that was scaled up can leave the range, and then
        // it is the larger in magnitude
        (None, _) => {
            if a.0 > 0 {
                1
            } else {
                -1
            }
        }
        (_, None) => {
            if b.0 > 0 {
                -1
            } else {
                1
            }
        }
    }
}

fn next(state: &mut u64) -> u64 {
    let mut x = *state;
    x ^= x << 13;
    x ^= x >> 7;
    x ^= x << 17;
    *state = x;
    x
}

// A decimal with a mantissa of up to 96 bits, of any length, and any scale.
fn any_parts(state: &mut u64) -> (i128, u32) {
    let bits = next(state) % 97;
    let raw = ((next(state) as u128) << 64) | next(state) as u128;
    let magnitude = if bits == 0 { 0 } else { raw >> (128 - bits) };
    let sign = if next(state) % 2 == 0 { 1 } else { -1 };
    let scale = (next(state) % 29) as u32;
    (sign * magnitude as i128, scale)
}

#[test]
fn decimal_keeps_its_parts() {
    let d = Decimal::new(-12345, 3);
    assert_eq!(parts(d), (-12345, 3));
    assert_eq!(parts(Decimal::zero()), (0, 0));
    assert_eq!(parts(Decimal::from(7)), (7, 0));
    assert_eq!(parts(Decimal::from(-7i64)), (-7, 0));
    assert_eq!(parts(Decimal::from(255u8)), (255, 0));
    assert_eq!(parts(Decimal::from(65535u16)), (65535, 0));
    assert_eq!(parts(Decimal::from(4_000_000_000u32)), (4_000_000_000, 0));
    assert_eq!(parts(Decimal::from(u64::MAX)), (u64::MAX as i128, 0));
    assert_eq!(parts(Decimal::max_value()), (MAX_MANTISSA, 0));
    assert_eq!(parts(Decimal::min_value()), (-MAX_MANTISSA, 0));
}

#[test]
fn decimal_out_of_range_is_refused() {
    assert!(Decimal::try_from_i128_with_scale(MAX_MANTISSA, 28).is_some());
    assert!(Decimal::try_from_i128_with_scale(-MAX_MANTISSA, 0).is_some());
    assert!(Decimal::try_from_i128_with_scale(MAX_MANTISSA + 1, 0).is_none());
    assert!(Decimal::try_from_i128_with_scale(-MAX_MANTISSA - 1, 0).is_none());
    assert!(Decimal::try_from_i128_with_scale(1, 29).is_none());
}

#[test]
fn decimal_equality_is_numerical() {
    assert_eq!(dec(10, 1), dec(100, 2));
    assert_eq!(dec(0, 5), Decimal::zero());
    assert_ne!(dec(10, 1), dec(10, 2));
    assert_eq!(dec(10, 1).compare(&dec(1, 0)), 0);
    assert_eq!(dec(-3, 0).compare(&dec(2, 28)), -1);
    assert_eq!(dec(MAX_MANTISSA, 0).compare(&dec(MAX_MANTISSA, 1)), 1);
    assert!(dec(5, 1).lt(&dec(6, 1)));
    assert!(dec(5, 1).le(&dec(50, 2)));
    assert!(!dec(5, 1).lt(&dec(50, 2)));
}

#[test]
fn decimal_min_keeps_the_first_of_equals() {
    assert_eq!(parts(dec(10, 1).min(dec(100, 2))), (10, 1));
    assert_eq!(parts(dec(100, 2).min(dec(10, 1))), (100, 2));
    assert_eq!(parts(dec(3, 0).min(dec(25, 1))), (25, 1));
    assert_eq!(parts(dec(-3, 0).min(dec(25, 1))), (-3, 0));
}

#[test]
fn decimal_signs() {
    assert!(dec(1, 28).is_positive());
    assert!(!dec(0, 3).is_positive());
    assert!(!dec(-1, 0).is_positive());
    assert!(dec(0, 3).is_zero());
    assert!(!dec(1, 3).is_zero());
    assert_eq!(parts(dec(15, 1).negated()), (-15, 1));
    assert_eq!(parts(dec(0, 2).negated()), (0, 2));
}

#[test]
fn decimal_sum_of_unlike_scales() {
    assert_eq!(parts(dec(15, 1).checked_add(dec(25, 2)).unwrap()), (175, 2));
    assert_eq!(parts(dec(25, 2).checked_add(dec(15, 1)).unwrap()), (175, 2));
    assert_eq!(parts(dec(15, 1).checked_sub(dec(25, 2)).unwrap()), (125, 2));
    assert_eq!(parts(dec(25, 2).checked_sub(dec(15, 1)).unwrap()), (-125, 2));
}

#[test]
fn decimal_sum_with_zero_is_the_other_operand() {
    assert_eq!(parts(dec(0, 2).checked_add(dec(1, 0)).unwrap()), (1, 0));
    assert_eq!(parts(dec(1, 0).checked_add(dec(0, 2)).unwrap()), (1, 0));
    assert_eq!(parts(dec(0, 2).checked_sub(dec(1, 0)).unwrap()), (-1, 0));
    assert_eq!(parts(dec(1, 0).checked_sub(dec(0, 2)).unwrap()), (1, 0));
    assert_eq!(parts(dec(0, 2).checked_add(dec(0, 5)).unwrap()), (0, 5));
    assert_eq!(parts(dec(0, 2).checked_add(dec(MAX_MANTISSA, 0)).unwrap()), (MAX_MANTISSA, 0));
}

#[test]
fn decimal_difference_of_equals_keeps_the_scale() {
    assert_eq!(parts(dec(150, 2).checked_sub(dec(150, 2)).unwrap()), (0, 2));
    assert_eq!(parts(dec(15, 1).checked_sub(dec(150, 2)).unwrap()), (0, 2));
    assert_eq!(parts(dec(15, 1).checked_add(dec(-150, 2)).unwrap()), (0, 2));
}

#[test]
fn decimal_sum_at_the_edge() {
    let max = dec(MAX_MANTISSA, 0);
    assert_eq!(parts(dec(MAX_MANTISSA - 1, 0).checked_add(dec(1, 0)).unwrap()), (MAX_MANTISSA, 0));
    assert!(max.checked_add(dec(1, 0)).is_none());
    assert!(max.negated().checked_sub(dec(1, 0)).is_none());
    // the exact sum has a digit that 96 bits cannot hold
    assert!(max.checked_add(dec(5, 1)).is_none());
    assert!(max.checked_sub(dec(5, 1)).is_none());
    assert!(!max.add_fits(dec(5, 1)));
    assert!(max.add_fits(Decimal::zero()));
    assert_eq!(parts(max.checked_sub(max).unwrap()), (0, 0));
}

#[test]
fn decimal_product() {
    assert_eq!(parts(dec(15, 1).checked_mul(dec(225, 2)).unwrap()), (3375, 3));
    assert_eq!(parts(dec(-5, 0).checked_mul(dec(4, 0)).unwrap()), (-20, 0));
    assert_eq!(parts(dec(-5, 1).checked_mul(dec(-4, 1)).unwrap()), (20, 2));
    assert_eq!(parts(dec(0, 5).checked_mul(dec(4, 3)).unwrap()), (0, 0));
    assert_eq!(parts(dec(4, 3).checked_mul(dec(0, 5)).unwrap()), (0, 0));
    assert_eq!(
        parts(dec(1 << 48, 14).checked_mul(dec((1 << 48) - 1, 14)).unwrap()),
        ((1i128 << 48) * ((1i128 << 48) - 1), 28)
    );
}

#[test]
fn decimal_product_that_cannot_be_held() {
    assert!(dec(1 << 48, 0).checked_mul(dec(1 << 48, 0)).is_none());
    assert!(dec(1, 15).checked_mul(dec(1, 14)).is_none());
    assert!(dec(MAX_MANTISSA, 0).checked_mul(dec(2, 0)).is_none());
    assert!(!dec(1, 15).mul_fits(dec(1, 14)));
    assert!(dec(1, 14).mul_fits(dec(1, 14)));
}

#[test]
fn decimal_sums_agree_with_plain_integers() {
    let mut state = 0x9E37_79B9_7F4A_7C15u64;
    let mut exact = 0;
    for _ in 0..40_000 {
        let a = any_parts(&mut state);
        let b = any_parts(&mut state);
        let sum = dec(a.0, a.1).checked_add(dec(b.0, b.1));
        assert_eq!(sum.map(parts), sum_by_the_book(a, b), "{a:?} + {b:?}");
        let difference = dec(a.0, a.1).checked_sub(dec(b.0, b.1));
        assert_eq!(difference.map(parts), sum_by_the_book(a, (-b.0, b.1)), "{a:?} - {b:?}");
        if sum.is_some() {
            exact += 1;
        }
    }
    assert!(exact > 1_000);
}

#[test]
fn decimal_sums_of_near_scales_agree_with_plain_integers() {
    let mut state = 0xD1B5_4A32_D192_ED03u64;
    let mut exact = 0;
    for _ in 0..40_000 {
        let a = any_parts(&mut state);
        let b = any_parts(&mut state);
        let b = (b.0 >> (next(&mut state) % 64), (a.1 + (next(&mut state) % 4) as u32).min(28));
        let sum = dec(a.0, a.1).checked_add(dec(b.0, b.1));
        assert_eq!(sum.map(parts), sum_by_the_book(a, b), "{a:?} + {b:?}");
        let difference = dec(b.0, b.1).checked_sub(dec(a.0, a.1));
        assert_eq!(difference.map(parts), sum_by_the_book(b, (-a.0, a.1)), "{b:?} - {a:?}");
        if sum.is_some() {
            exact += 1;
        }
    }
    assert!(exact > 10_000);
}

#[test]
fn decimal_products_agree_with_plain_integers() {
    let mut state = 0x2545_F491_4F6C_DD1Du64;
    let mut exact = 0;
    for _ in 0..40_000 {
        let a = any_parts(&mut state);
        let b = any_parts(&mut state);
        let a = (a.0 >> (next(&mut state) % 60), a.1 / 2);
        let b = (b.0 >> (next(&mut state) % 60), b.1 / 2);
        let product = dec(a.0, a.1).checked_mul(dec(b.0, b.1));
        assert_eq!(product.map(parts), product_by_the_book(a, b), "{a:?} * {b:?}");
        if product.is_some() {
            exact += 1;
        }
    }
    assert!(exact > 10_000);
}

#[test]
fn decimal_order_agrees_with_plain_integers() {
    let mut state = 0x1234_5678_9ABC_DEF1u64;
    for _ in 0..40_000 {
        let a = any_parts(&mut state);
        let b = any_parts(&mut state);
        assert_eq!(dec(a.0, a.1).compare(&dec(b.0, b.1)), order_by_the_book(a, b), "{a:?} ? {b:?}");
        assert_eq!(dec(a.0, a.1).compare(&dec(a.0, a.1)), 0);
        assert_eq!(dec(a.0, a.1) == dec(b.0, b.1), order_by_the_book(a, b) == 0);
    }
    // the same number at every scale that holds it
    for scale in 0..=20u32 {
        assert_eq!(dec(7 * pow10(scale), scale).compare(&dec(7, 0)), 0);
        assert_eq!(dec(7 * pow10(scale) + 1, scale).compare(&dec(7, 0)), 1);
        assert_eq!(dec(-7 * pow10(scale) - 1, scale).compare(&dec(-7, 0)), -1);
    }
}
