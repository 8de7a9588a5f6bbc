use hivemind_state::dec::dec_add;
use hivemind_state::dec::dec_div;
use hivemind_state::dec::dec_exp;
use hivemind_state::dec::dec_from_u64;
use hivemind_state::dec::dec_gt;
use hivemind_state::dec::dec_ln;
use hivemind_state::dec::dec_mul;
use hivemind_state::dec::dec_sub;
use hivemind_state::dec::Dec;

/// Integer addition at scale zero is exact.
#[test]
fn add_integers() {
    let a = dec_from_u64(1);
    let b = dec_from_u64(2);
    let r = dec_add(&a, &b).expect("sum");
    assert_eq!(r, Dec { mantissa: 3, scale: 0 });
}

/// Subtracting a value from itself gives a zero mantissa.
#[test]
fn sub_self_is_zero() {
    let a = Dec { mantissa: 12345, scale: 4 };
    let r = dec_sub(&a, &a).expect("difference");
    assert_eq!(r.mantissa, 0);
}

/// A zero factor collapses a product to the zero of scale zero.
#[test]
fn mul_by_zero() {
    let a = dec_from_u64(0);
    let b = Dec { mantissa: 777, scale: 3 };
    assert_eq!(dec_mul(&a, &b), Some(Dec { mantissa: 0, scale: 0 }));
    let c = dec_from_u64(6);
    let d = dec_from_u64(7);
    assert_eq!(dec_mul(&c, &d), Some(Dec { mantissa: 42, scale: 0 }));
}

/// Division by zero fails; a zero dividend yields zero.
#[test]
fn div_cases() {
    let zero = dec_from_u64(0);
    let one = dec_from_u64(1);
    assert_eq!(dec_div(&one, &zero), None);
    assert_eq!(dec_div(&zero, &one), Some(Dec { mantissa: 0, scale: 0 }));
}

/// The exponential of zero is one; the logarithm of one is zero; the
/// logarithm of a non-positive value does not exist.
#[test]
fn exp_ln_edges() {
    let zero = dec_from_u64(0);
    let one = dec_from_u64(1);
    assert_eq!(dec_exp(&zero), Some(Dec { mantissa: 1, scale: 0 }));
    assert_eq!(dec_ln(&one), Some(Dec { mantissa: 0, scale: 0 }));
    assert_eq!(dec_ln(&zero), None);
    let neg = Dec { mantissa: -5, scale: 0 };
    assert_eq!(dec_ln(&neg), None);
}

/// Ordering compares numeric values across scales.
#[test]
fn gt_across_scales() {
    let half = Dec { mantissa: 5, scale: 1 };
    let one = dec_from_u64(1);
    assert!(dec_gt(&one, &half));
    assert!(!dec_gt(&half, &one));
    assert!(!dec_gt(&one, &one));
}
