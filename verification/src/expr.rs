//! Polynomial expressions over the circuit's columns.
//!
//! The constraint system consumes expressions as opaque syntax; the library
//! builds them as a closed sum type and gives them meaning through `ieval`,
//! an integer-valued evaluation. The field value of an expression on a grid
//! is `ieval(..) % field_modulus()`; stating evaluation over the integers
//! keeps the arithmetic exact wherever the circuit's values are small, which
//! is everywhere the fixed byte width allows.

use vstd::prelude::*;

verus! {

use crate::field::Felt;

/// A polynomial expression over advice cells and selectors.
///
/// Embeddable scalars (booleans, unsigned and signed words, field constants)
/// enter through the explicit constructors below rather than through ad hoc
/// conversions.
pub enum SymExpr {
    /// A constant field element.
    Constant(Felt),
    /// The value of an advice cell, read at the given column and at the
    /// evaluation row shifted by `rot`.
    Advice { col: usize, rot: i32 },
    /// A selector: 1 on the single row where it fires, 0 elsewhere.
    Selector { sel: usize },
    /// Additive inverse.
    Negated(Box<SymExpr>),
    /// Sum of two expressions.
    Sum(Box<SymExpr>, Box<SymExpr>),
    /// Product of two expressions.
    Product(Box<SymExpr>, Box<SymExpr>),
}

/// The value of an advice cell on a grid of column vectors; cells outside the
/// grid read as zero.
pub open spec fn cell(adv: Seq<Seq<int>>, c: int, r: int) -> int {
    if 0 <= c < adv.len() && 0 <= r < adv[c].len() {
        adv[c][r]
    } else {
        0
    }
}

/// Integer evaluation of an expression at a row, on a grid of advice columns
/// and a table giving the single row where each selector fires.
pub open spec fn ieval(e: SymExpr, adv: Seq<Seq<int>>, sel_rows: Seq<int>, row: int) -> int
    decreases e,
{
    match e {
        SymExpr::Constant(f) => f.as_int(),
        SymExpr::Advice { col, rot } => cell(adv, col as int, row + rot),
        SymExpr::Selector { sel } => if 0 <= sel < sel_rows.len() && row == sel_rows[sel as int] {
            1
        } else {
            0
        },
        SymExpr::Negated(a) => -ieval(*a, adv, sel_rows, row),
        SymExpr::Sum(a, b) => ieval(*a, adv, sel_rows, row) + ieval(*b, adv, sel_rows, row),
        SymExpr::Product(a, b) => ieval(*a, adv, sel_rows, row) * ieval(*b, adv, sel_rows, row),
    }
}

impl SymExpr {
    /// Embed a boolean as the constant 0 or 1.
    pub fn from_bool(v: bool) -> (r: SymExpr)
        ensures
            forall|adv: Seq<Seq<int>>, sel_rows: Seq<int>, row: int|
                #[trigger] ieval(r, adv, sel_rows, row) == if v { 1int } else { 0int },
    {
        SymExpr::Constant(Felt { rep: if v { 1 } else { 0 } })
    }

    /// Embed an unsigned word as a constant.
    pub fn from_u64(v: u64) -> (r: SymExpr)
        ensures
            forall|adv: Seq<Seq<int>>, sel_rows: Seq<int>, row: int|
                #[trigger] ieval(r, adv, sel_rows, row) == v as int,
    {
        SymExpr::Constant(Felt { rep: v as u128 })
    }

    /// Embed a signed word as `(-1)^sign * |v|`.
    pub fn from_i64(v: i64) -> (r: SymExpr)
        ensures
            forall|adv: Seq<Seq<int>>, sel_rows: Seq<int>, row: int|
                #[trigger] ieval(r, adv, sel_rows, row) == v as int,
    {
        if v < 0 {
            let mag: u64 = (-(v as i128)) as u64;
            let r = SymExpr::Negated(Box::new(SymExpr::Constant(Felt { rep: mag as u128 })));
            proof {
                assert forall|adv: Seq<Seq<int>>, sel_rows: Seq<int>, row: int|
                    #[trigger] ieval(r, adv, sel_rows, row) == v as int by {
                    reveal_with_fuel(ieval, 3);
                }
            }
            r
        } else {
            SymExpr::Constant(Felt { rep: v as u128 })
        }
    }

    /// Embed a field element as a constant.
    pub fn from_felt(v: Felt) -> (r: SymExpr)
        ensures
            forall|adv: Seq<Seq<int>>, sel_rows: Seq<int>, row: int|
                #[trigger] ieval(r, adv, sel_rows, row) == v.as_int(),
    {
        SymExpr::Constant(v)
    }
}

/// Structural copy of an expression; an already-built expression embeds into
/// a larger one by copying.
pub fn clone_expr(e: &SymExpr) -> (r: SymExpr)
    ensures
        r == *e,
    decreases *e,
{
    match e {
        SymExpr::Constant(f) => SymExpr::Constant(Felt { rep: f.rep }),
        SymExpr::Advice { col, rot } => SymExpr::Advice { col: *col, rot: *rot },
        SymExpr::Selector { sel } => SymExpr::Selector { sel: *sel },
        SymExpr::Negated(a) => SymExpr::Negated(Box::new(clone_expr(&**a))),
        SymExpr::Sum(a, b) => SymExpr::Sum(
            Box::new(clone_expr(&**a)),
            Box::new(clone_expr(&**b)),
        ),
        SymExpr::Product(a, b) => SymExpr::Product(
            Box::new(clone_expr(&**a)),
            Box::new(clone_expr(&**b)),
        ),
    }
}

/// Evaluate an expression that contains no cell or selector queries.
///
/// Returns `None` when the expression queries the grid or when an
/// intermediate value leaves the guarded range; on `Some`, the result is the
/// exact integer evaluation on every grid.
pub fn eval_const(e: &SymExpr) -> (r: Option<i128>)
    ensures
        r matches Some(v) ==> forall|adv: Seq<Seq<int>>, sel_rows: Seq<int>, row: int|
            #[trigger] ieval(*e, adv, sel_rows, row) == v as int,
    decreases *e,
{
    match e {
        SymExpr::Constant(f) => {
            if f.rep <= 0x3fffffffffffffffu128 {
                proof {
                    assert forall|adv: Seq<Seq<int>>, sel_rows: Seq<int>, row: int|
                        #[trigger] ieval(*e, adv, sel_rows, row) == f.rep as int by {
                        reveal_with_fuel(ieval, 2);
                    }
                }
                Some(f.rep as i128)
            } else {
                None
            }
        },
        SymExpr::Advice { .. } => None,
        SymExpr::Selector { .. } => None,
        SymExpr::Negated(a) => {
            match eval_const(&**a) {
                Some(v) => if v == i128::MIN {
                    None
                } else {
                    proof {
                        assert forall|adv: Seq<Seq<int>>, sel_rows: Seq<int>, row: int|
                            #[trigger] ieval(*e, adv, sel_rows, row) == -(v as int) by {
                            assert(ieval(**a, adv, sel_rows, row) == v as int);
                        }
                    }
                    Some(-v)
                },
                None => None,
            }
        },
        SymExpr::Sum(a, b) => {
            match (eval_const(&**a), eval_const(&**b)) {
                (Some(va), Some(vb)) => {
                    if -0x3fffffffffffffffffffffffffffffffi128 <= va
                        && va <= 0x3fffffffffffffffffffffffffffffffi128
                        && -0x3fffffffffffffffffffffffffffffffi128 <= vb
                        && vb <= 0x3fffffffffffffffffffffffffffffffi128 {
                        proof {
                            assert forall|adv: Seq<Seq<int>>, sel_rows: Seq<int>, row: int|
                                #[trigger] ieval(*e, adv, sel_rows, row) == va as int + vb as int by {
                                assert(ieval(**a, adv, sel_rows, row) == va as int);
                                assert(ieval(**b, adv, sel_rows, row) == vb as int);
                            }
                        }
                        Some(va + vb)
                    } else {
                        None
                    }
                },
                _ => None,
            }
        },
        SymExpr::Product(a, b) => {
            match (eval_const(&**a), eval_const(&**b)) {
                (Some(va), Some(vb)) => {
                    if -0x7fffffffffffffffi128 <= va && va <= 0x7fffffffffffffffi128
                        && -0x7fffffffffffffffi128 <= vb && vb <= 0x7fffffffffffffffi128 {
                        proof {
                            assert((-0x7fffffffffffffffi128 as int <= va as int <= 0x7fffffffffffffffi128 as int
                                && -0x7fffffffffffffffi128 as int <= vb as int <= 0x7fffffffffffffffi128 as int)
                                ==> (-0x40000000000000000000000000000000i128 <= va as int * vb as int
                                    <= 0x40000000000000000000000000000000i128)) by (nonlinear_arith);
                            assert forall|adv: Seq<Seq<int>>, sel_rows: Seq<int>, row: int|
                                #[trigger] ieval(*e, adv, sel_rows, row) == va as int * vb as int by {
                                assert(ieval(**a, adv, sel_rows, row) == va as int);
                                assert(ieval(**b, adv, sel_rows, row) == vb as int);
                            }
                        }
                        Some(va * vb)
                    } else {
                        None
                    }
                },
                _ => None,
            }
        },
    }
}

} // verus!
