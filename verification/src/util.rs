//! Reusable polynomial-identity fragments: range checks, boolean checks and
//! little-endian byte recomposition, together with the laws that say when
//! they vanish.

use vstd::prelude::*;

verus! {

use vstd::arithmetic::power2::{pow2, lemma_pow2_adds, lemma_pow2_strictly_increases};
use crate::field::{field_modulus, Felt, lemma_pow2_le_modulus, lemma_mod_zero_iff_zero};
use crate::expr::{SymExpr, ieval, clone_expr};

/// The polynomial `x * (1 - x) * (2 - x) * ... * (r-1 - x)` that a range
/// check evaluates to; for `r <= 1` it degenerates to `x` itself.
pub open spec fn range_poly(x: int, r: nat) -> int
    decreases r,
{
    if r <= 1 {
        x
    } else {
        range_poly(x, (r - 1) as nat) * ((r - 1) - x)
    }
}

/// Returns an expression that evaluates to `range_poly` of `word`'s value:
/// zero exactly on the values `0, …, range-1` (see
/// `lemma_range_check_in_field`). Cost grows linearly with `range`; intended
/// for small ranges only.
pub fn range_check(word: &SymExpr, range: usize) -> (r: SymExpr)
    ensures
        forall|adv: Seq<Seq<int>>, sel_rows: Seq<int>, row: int|
            #[trigger] ieval(r, adv, sel_rows, row)
                == range_poly(ieval(*word, adv, sel_rows, row), range as nat),
{
    let mut acc = clone_expr(word);
    let mut i: usize = 1;
    while i < range
        invariant
            1 <= i,
            range > 1 ==> i <= range,
            range <= 1 ==> i == 1,
            forall|adv: Seq<Seq<int>>, sel_rows: Seq<int>, row: int|
                #[trigger] ieval(acc, adv, sel_rows, row)
                    == range_poly(ieval(*word, adv, sel_rows, row), i as nat),
        decreases range - i,
    {
        let factor = SymExpr::Sum(
            Box::new(SymExpr::Constant(Felt { rep: i as u128 })),
            Box::new(SymExpr::Negated(Box::new(clone_expr(word)))),
        );
        let next = SymExpr::Product(Box::new(acc), Box::new(factor));
        proof {
            assert forall|adv: Seq<Seq<int>>, sel_rows: Seq<int>, row: int|
                #[trigger] ieval(next, adv, sel_rows, row)
                    == range_poly(ieval(*word, adv, sel_rows, row), (i + 1) as nat) by {
                reveal_with_fuel(ieval, 4);
                assert(ieval(next, adv, sel_rows, row)
                    == ieval(acc, adv, sel_rows, row)
                        * (i - ieval(*word, adv, sel_rows, row)));
            }
        }
        acc = next;
        i = i + 1;
    }
    proof {
        if range <= 1 {
            assert forall|adv: Seq<Seq<int>>, sel_rows: Seq<int>, row: int|
                #[trigger] ieval(acc, adv, sel_rows, row)
                    == range_poly(ieval(*word, adv, sel_rows, row), range as nat) by {
                assert(ieval(acc, adv, sel_rows, row)
                    == range_poly(ieval(*word, adv, sel_rows, row), 1));
                assert(range_poly(ieval(*word, adv, sel_rows, row), 1)
                    == ieval(*word, adv, sel_rows, row));
                assert(range_poly(ieval(*word, adv, sel_rows, row), range as nat)
                    == ieval(*word, adv, sel_rows, row));
            }
        }
    }
    acc
}

/// Returns an expression that is zero exactly when `value` is 0 or 1.
pub fn bool_check(value: &SymExpr) -> (r: SymExpr)
    ensures
        forall|adv: Seq<Seq<int>>, sel_rows: Seq<int>, row: int|
            #[trigger] ieval(r, adv, sel_rows, row)
                == range_poly(ieval(*value, adv, sel_rows, row), 2),
{
    range_check(value, 2)
}

/// Over the integers, the range-check polynomial vanishes exactly on
/// `{0, …, r-1}` (for nonnegative arguments, which is what canonical field
/// representatives are).
pub proof fn lemma_range_poly_zero_iff(x: int, r: nat)
    requires
        0 <= x,
        1 <= r,
    ensures
        (range_poly(x, r) == 0) <==> (x < r),
    decreases r,
{
    if r == 1 {
    } else {
        lemma_range_poly_zero_iff(x, (r - 1) as nat);
        let a = range_poly(x, (r - 1) as nat);
        let b = (r - 1) - x;
        assert((a * b == 0) <==> (a == 0 || b == 0)) by (nonlinear_arith);
    }
}

/// The range-check polynomial stays strictly below `2^(15 r)` in magnitude
/// when its argument is below `2^15`.
pub proof fn lemma_range_poly_bound(x: int, r: nat)
    requires
        0 <= x < 32768,
        1 <= r <= 16,
    ensures
        -pow2((15 * r) as nat) < range_poly(x, r) < pow2((15 * r) as nat),
    decreases r,
{
    if r == 1 {
        assert(pow2(15) == 32768) by {
            vstd::arithmetic::power2::lemma2_to64();
        }
    } else {
        lemma_range_poly_bound(x, (r - 1) as nat);
        let a = range_poly(x, (r - 1) as nat);
        let b = (r - 1) - x;
        let m = pow2((15 * (r - 1)) as nat);
        assert(pow2(15) == 32768) by {
            vstd::arithmetic::power2::lemma2_to64();
        }
        lemma_pow2_adds((15 * (r - 1)) as nat, 15);
        assert(-32768 < b < 32768);
        assert((-m < a < m && -32768 < b < 32768 && m > 0)
            ==> (-(m * 32768) < a * b < m * 32768)) by (nonlinear_arith);
    }
}

/// In the field, a range check on a word below `2^15` vanishes exactly when
/// the word lies in `{0, …, r-1}`, for ranges up to 16: the polynomial's
/// magnitude stays below the modulus, so integer and field vanishing agree.
pub proof fn lemma_range_check_in_field(x: int, r: nat)
    requires
        0 <= x < 32768,
        1 <= r <= 16,
    ensures
        (range_poly(x, r) % field_modulus() == 0) <==> (x < r),
{
    lemma_range_poly_bound(x, r);
    if 15 * r < 240 {
        lemma_pow2_strictly_increases((15 * r) as nat, 240);
    }
    lemma_pow2_le_modulus(240);
    lemma_mod_zero_iff_zero(range_poly(x, r), field_modulus());
    lemma_range_poly_zero_iff(x, r);
}

/// Little-endian recomposition of a sequence of byte values:
/// `s[0] + s[1]*256 + s[2]*256^2 + …`.
pub open spec fn byte_seq_val(s: Seq<int>) -> int
    decreases s.len(),
{
    if s.len() == 0 {
        0
    } else {
        byte_seq_val(s.drop_last()) + s.last() * pow2((8 * (s.len() - 1)) as nat)
    }
}

/// Little-endian recomposition of the values a sequence of expressions takes
/// on a grid.
pub open spec fn expr_seq_val(
    s: Seq<SymExpr>,
    adv: Seq<Seq<int>>,
    sel_rows: Seq<int>,
    row: int,
) -> int
    decreases s.len(),
{
    if s.len() == 0 {
        0
    } else {
        expr_seq_val(s.drop_last(), adv, sel_rows, row)
            + ieval(s.last(), adv, sel_rows, row) * pow2((8 * (s.len() - 1)) as nat)
    }
}

/// A sequence of words read as mathematical integers.
pub open spec fn u64s_to_ints(s: Seq<u64>) -> Seq<int> {
    s.map_values(|v: u64| v as int)
}

/// Recomposition of genuine bytes is bounded by the width it fills.
pub proof fn lemma_byte_seq_val_bounds(s: Seq<int>)
    requires
        forall|k: int| 0 <= k < s.len() ==> 0 <= #[trigger] s[k] < 256,
    ensures
        0 <= byte_seq_val(s) < pow2((8 * s.len()) as nat),
    decreases s.len(),
{
    if s.len() == 0 {
        assert(pow2(0) == 1) by {
            vstd::arithmetic::power2::lemma2_to64();
        }
    } else {
        lemma_byte_seq_val_bounds(s.drop_last());
        let m = pow2((8 * (s.len() - 1)) as nat);
        lemma_pow2_adds((8 * (s.len() - 1)) as nat, 8);
        assert(pow2(8) == 256) by {
            vstd::arithmetic::power2::lemma2_to64();
        }
        assert((0 <= s.last() < 256 && m > 0) ==> (0 <= s.last() * m <= 255 * m))
            by (nonlinear_arith);
        assert(m + 255 * m == 256 * m);
    }
}

/// Given expressions standing for the bytes of a word, least significant
/// first, returns the single expression for the recomposed word.
pub fn expr_from_bytes(bytes: &Vec<SymExpr>) -> (r: SymExpr)
    requires
        bytes.len() <= 16,
    ensures
        forall|adv: Seq<Seq<int>>, sel_rows: Seq<int>, row: int|
            #[trigger] ieval(r, adv, sel_rows, row)
                == expr_seq_val(bytes@, adv, sel_rows, row),
{
    let mut value = SymExpr::Constant(Felt { rep: 0 });
    let mut multiplier: u128 = 1;
    let mut i: usize = 0;
    proof {
        vstd::arithmetic::power2::lemma2_to64();
    }
    while i < bytes.len()
        invariant
            i <= bytes.len() <= 16,
            multiplier == pow2((8 * (if i < 15 { i as int } else { 15 })) as nat),
            forall|adv: Seq<Seq<int>>, sel_rows: Seq<int>, row: int|
                #[trigger] ieval(value, adv, sel_rows, row)
                    == expr_seq_val(bytes@.take(i as int), adv, sel_rows, row),
        decreases bytes.len() - i,
    {
        let term = SymExpr::Product(
            Box::new(clone_expr(&bytes[i])),
            Box::new(SymExpr::Constant(Felt { rep: multiplier })),
        );
        let next = SymExpr::Sum(Box::new(value), Box::new(term));
        proof {
            let taken = bytes@.take(i as int + 1);
            assert(taken.drop_last() =~= bytes@.take(i as int));
            assert(taken.last() == bytes@[i as int]);
            assert forall|adv: Seq<Seq<int>>, sel_rows: Seq<int>, row: int|
                #[trigger] ieval(next, adv, sel_rows, row)
                    == expr_seq_val(bytes@.take(i as int + 1), adv, sel_rows, row) by {
                reveal_with_fuel(ieval, 4);
                assert(ieval(next, adv, sel_rows, row)
                    == ieval(value, adv, sel_rows, row)
                        + ieval(bytes@[i as int], adv, sel_rows, row) * multiplier);
                assert(expr_seq_val(taken, adv, sel_rows, row)
                    == expr_seq_val(bytes@.take(i as int), adv, sel_rows, row)
                        + ieval(taken.last(), adv, sel_rows, row)
                            * pow2((8 * i) as nat));
            }
        }
        value = next;
        if i < 15 {
            proof {
                lemma_pow2_adds((8 * i) as nat, 8);
                assert(pow2(120) == pow2(64) * pow2(56)) by {
                    lemma_pow2_adds(64, 56);
                }
                vstd::arithmetic::power2::lemma2_to64();
                vstd::arithmetic::power2::lemma2_to64_rest();
                if 8 * (i + 1) < 120 {
                    lemma_pow2_strictly_increases((8 * (i + 1)) as nat, 120);
                }
                assert(multiplier * 256 == pow2((8 * (i + 1)) as nat));
                assert(pow2((8 * (i + 1)) as nat) <= pow2(120));
            }
            multiplier = multiplier * 256;
        }
        i = i + 1;
    }
    proof {
        assert(bytes@.take(bytes@.len() as int) =~= bytes@);
    }
    value
}

/// Decompose a word into its eight little-endian bytes; recomposing them
/// gives the word back exactly (the round trip behind the comparator's
/// difference decomposition).
pub fn le_bytes(x: u64) -> (b: Vec<u64>)
    ensures
        b@.len() == 8,
        forall|k: int| 0 <= k < 8 ==> 0 <= #[trigger] b@[k] < 256,
        byte_seq_val(u64s_to_ints(b@)) == x as int,
{
    let mut b: Vec<u64> = Vec::new();
    let mut cur: u64 = x;
    let mut k: usize = 0;
    proof {
        vstd::arithmetic::power2::lemma2_to64();
        assert(u64s_to_ints(b@) =~= Seq::<int>::empty());
        assert(byte_seq_val(u64s_to_ints(b@)) == 0);
        assert(pow2((8 * 0) as nat) == 1);
        assert(cur * pow2((8 * 0) as nat) == x as int);
    }
    while k < 8
        invariant
            k <= 8,
            b@.len() == k,
            forall|j: int| 0 <= j < k ==> 0 <= #[trigger] b@[j] < 256,
            byte_seq_val(u64s_to_ints(b@)) + cur * pow2((8 * k) as nat) == x as int,
        decreases 8 - k,
    {
        let byte = cur % 256;
        let ghost prev = u64s_to_ints(b@);
        b.push(byte);
        proof {
            let now = u64s_to_ints(b@);
            assert(now =~= prev.push(byte as int));
            assert(now.drop_last() =~= prev);
            lemma_pow2_adds((8 * k) as nat, 8);
            assert(pow2(8) == 256) by {
                vstd::arithmetic::power2::lemma2_to64();
            }
            assert(cur == 256 * (cur / 256) + cur % 256) by {
                vstd::arithmetic::div_mod::lemma_fundamental_div_mod(cur as int, 256);
            }
            let p = pow2((8 * k) as nat);
            assert((cur as int == 256 * (cur as int / 256) + cur as int % 256 && p >= 0)
                ==> ((cur as int % 256) * p + (cur as int / 256) * (p * 256)
                    == cur as int * p)) by (nonlinear_arith);
        }
        cur = cur / 256;
        k = k + 1;
    }
    proof {
        let ints = u64s_to_ints(b@);
        lemma_byte_seq_val_bounds(ints);
        assert(pow2(64) > x as int) by {
            vstd::arithmetic::power2::lemma2_to64_rest();
        }
        assert((cur as int >= 1 && pow2(64) > 0)
            ==> (cur as int * pow2(64) >= pow2(64))) by (nonlinear_arith);
        assert(cur == 0);
    }
    b
}

/// Little-endian byte k of a nonnegative word.
pub open spec fn le_byte(x: int, k: int) -> int {
    (x / (pow2((8 * k) as nat) as int)) % 256
}

/// The first n little-endian bytes of a word, least significant first.
pub open spec fn le_byte_seq(x: int, n: int) -> Seq<int> {
    Seq::new(n as nat, |k: int| le_byte(x, k))
}

/// Recomposing the first n bytes recovers the word up to its remaining high
/// part.
proof fn lemma_le_bytes_prefix(x: int, n: int)
    requires
        0 <= x,
        0 <= n,
    ensures
        byte_seq_val(le_byte_seq(x, n))
            + (x / (pow2((8 * n) as nat) as int)) * (pow2((8 * n) as nat) as int) == x,
    decreases n,
{
    vstd::arithmetic::power2::lemma2_to64();
    if n == 0 {
        assert(le_byte_seq(x, 0) =~= Seq::<int>::empty());
        vstd::arithmetic::div_mod::lemma_div_basics(x);
    } else {
        lemma_le_bytes_prefix(x, n - 1);
        let p = pow2((8 * (n - 1)) as nat) as int;
        let q = pow2((8 * n) as nat) as int;
        lemma_pow2_adds((8 * (n - 1)) as nat, 8);
        assert(q == p * 256);
        let s = le_byte_seq(x, n);
        assert(s.drop_last() =~= le_byte_seq(x, n - 1));
        assert(s.last() == le_byte(x, n - 1));
        vstd::arithmetic::power2::lemma_pow2_pos((8 * (n - 1)) as nat);
        vstd::arithmetic::div_mod::lemma_div_denominator(x, p, 256);
        let h = x / p;
        vstd::arithmetic::div_mod::lemma_fundamental_div_mod(h, 256);
        assert((h == 256 * (h / 256) + h % 256 && p >= 0)
            ==> ((h % 256) * p + (h / 256) * (p * 256) == h * p)) by (nonlinear_arith);
    }
}

/// Byte-decomposition round trip: for every value within the fixed
/// eight-byte width, recomposing the value's little-endian bytes yields the
/// value back exactly.
pub proof fn lemma_le_bytes_round_trip(x: int)
    requires
        0 <= x < pow2(64),
    ensures
        byte_seq_val(le_byte_seq(x, 8)) == x,
{
    lemma_le_bytes_prefix(x, 8);
    vstd::arithmetic::power2::lemma_pow2_pos(64);
    vstd::arithmetic::div_mod::lemma_basic_div(x, pow2(64) as int);
}

/// In the field, a boolean check vanishes exactly on 0 and 1, for every
/// value below `2^127`: the polynomial `x * (1 - x)` cannot reach the
/// modulus in magnitude there.
pub proof fn lemma_bool_check_in_field(x: int)
    requires
        0 <= x < pow2(127),
    ensures
        (range_poly(x, 2) % field_modulus() == 0) <==> (x == 0 || x == 1),
{
    assert(range_poly(x, 2) == range_poly(x, 1) * (1 - x));
    assert(range_poly(x, 1) == x);
    lemma_pow2_adds(127, 127);
    lemma_pow2_le_modulus(254);
    assert((0 <= x < pow2(127)) ==> (-(pow2(127) * pow2(127)) < x * (1 - x) <= 0))
        by (nonlinear_arith);
    lemma_mod_zero_iff_zero(x * (1 - x), field_modulus());
    assert((x * (1 - x) == 0) <==> (x == 0 || x == 1)) by (nonlinear_arith);
}

} // verus!
