use sortn_circuit::expr::{eval_const, clone_expr, SymExpr};
use sortn_circuit::field::{pow_of_two, Felt};
use sortn_circuit::util::{bool_check, expr_from_bytes, le_bytes, range_check};

fn eval(e: &SymExpr) -> i128 {
    eval_const(e).expect("expression should evaluate")
}

#[test]
fn pow_of_two_small_values() {
    assert_eq!(pow_of_two(0).rep, 1u128);
    assert_eq!(pow_of_two(1).rep, 2u128);
    assert_eq!(pow_of_two(10).rep, 1024u128);
}

#[test]
fn pow_of_two_full_word_range() {
    for k in 0..64 {
        assert_eq!(pow_of_two(k).rep, 1u128 << k);
    }
}

#[test]
fn bool_check_zero_on_booleans() {
    for x in 0..2u64 {
        let e = bool_check(&SymExpr::from_u64(x));
        assert_eq!(eval(&e), 0);
    }
}

#[test]
fn bool_check_nonzero_off_booleans() {
    let e = bool_check(&SymExpr::from_u64(2));
    assert_eq!(eval(&e), -2);
    let e5 = bool_check(&SymExpr::from_u64(5));
    assert_eq!(eval(&e5), -20);
}

#[test]
fn range_check_zero_inside_range() {
    for r in 1..17usize {
        for x in 0..r as u64 {
            let e = range_check(&SymExpr::from_u64(x), r);
            assert_eq!(eval(&e), 0, "range_check({}, {})", x, r);
        }
    }
}

#[test]
fn range_check_nonzero_outside_range() {
    for r in 1..17usize {
        for x in r as u64..(r as u64 + 4) {
            let e = range_check(&SymExpr::from_u64(x), r);
            assert_ne!(eval(&e), 0, "range_check({}, {})", x, r);
        }
    }
}

#[test]
fn range_check_exact_value() {
    // 3 * (1 - 3) * (2 - 3) = 6 for range 3.
    let e = range_check(&SymExpr::from_u64(3), 3);
    assert_eq!(eval(&e), 6);
}

#[test]
fn expr_from_bytes_round_trip() {
    let value: u64 = 0x0102030405060708;
    let bytes = le_bytes(value);
    assert_eq!(bytes, vec![8, 7, 6, 5, 4, 3, 2, 1]);
    let byte_exprs: Vec<SymExpr> = bytes.iter().map(|b| SymExpr::from_u64(*b)).collect();
    let e = expr_from_bytes(&byte_exprs);
    assert_eq!(eval(&e), value as i128);
}

#[test]
fn expr_from_bytes_round_trip_extremes() {
    for value in [0u64, 1, 255, 256, u64::MAX, u64::MAX - 1] {
        let bytes = le_bytes(value);
        assert_eq!(bytes.len(), 8);
        assert!(bytes.iter().all(|b| *b < 256));
        let byte_exprs: Vec<SymExpr> = bytes.iter().map(|b| SymExpr::from_u64(*b)).collect();
        let e = expr_from_bytes(&byte_exprs);
        assert_eq!(eval(&e), value as i128);
    }
}

#[test]
fn embeddable_constructors() {
    assert_eq!(eval(&SymExpr::from_bool(true)), 1);
    assert_eq!(eval(&SymExpr::from_bool(false)), 0);
    assert_eq!(eval(&SymExpr::from_u64(77)), 77);
    assert_eq!(eval(&SymExpr::from_i64(-5)), -5);
    assert_eq!(eval(&SymExpr::from_i64(41)), 41);
    assert_eq!(eval(&SymExpr::from_felt(Felt::from_u64(9))), 9);
}

#[test]
fn clone_preserves_evaluation() {
    let e = range_check(&SymExpr::from_u64(6), 5);
    let c = clone_expr(&e);
    assert_eq!(eval(&e), eval(&c));
}

#[test]
fn query_expressions_have_no_constant_value() {
    assert!(eval_const(&SymExpr::Advice { col: 0, rot: 0 }).is_none());
    assert!(eval_const(&SymExpr::Selector { sel: 0 }).is_none());
}
