use zkproof::field::{fr_add, fr_eq, fr_from_u64, fr_mul, fr_one, fr_zero, Fr};

// The field order minus one, as little-endian limbs.
fn order_minus_one() -> Fr {
    Fr {
        l0: 0x43E1F593F0000000,
        l1: 0x2833E84879B97091,
        l2: 0xB85045B68181585D,
        l3: 0x30644E72E131A029,
    }
}

#[test]
fn add_small() {
    let r = fr_add(&fr_from_u64(2), &fr_from_u64(3));
    assert!(fr_eq(&r, &fr_from_u64(5)));
}

#[test]
fn add_wraps_at_order() {
    let r = fr_add(&order_minus_one(), &fr_one());
    assert!(fr_eq(&r, &fr_zero()));
}

#[test]
fn mul_small() {
    let r = fr_mul(&fr_from_u64(7), &fr_from_u64(6));
    assert!(fr_eq(&r, &fr_from_u64(42)));
}

#[test]
fn mul_by_zero() {
    let r = fr_mul(&order_minus_one(), &fr_zero());
    assert!(fr_eq(&r, &fr_zero()));
}

#[test]
fn mul_wraps_at_order() {
    // (order - 1) * (order - 1) = 1 mod order.
    let r = fr_mul(&order_minus_one(), &order_minus_one());
    assert!(fr_eq(&r, &fr_one()));
}

#[test]
fn eq_distinguishes() {
    assert!(!fr_eq(&fr_from_u64(1), &fr_from_u64(2)));
    assert!(fr_eq(&fr_from_u64(9), &fr_from_u64(9)));
}
