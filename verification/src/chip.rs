//! The sorting chip: the fixed layout of its witness region, the semantics
//! of its gates, the construction of the constraint list, and the per-proof
//! witness assignment.
//!
//! Layout (columns x rows, column-major):
//! - row 0, columns 0..8: the unsorted public inputs;
//! - row 1, columns 0..8: the claimed sorted outputs;
//! - row 2+i (i = 0..7): comparator i, with its boolean flag in column 0 and
//!   the eight little-endian bytes of its shifted difference in columns 1..9.
//!
//! Selector 0 (the master selector) fires at row 0; selector 1+i fires at
//! comparator i's row. The master gate demands that every comparator flag is
//! 1; each comparator's own constraints force its flag to equal the strict
//! comparison of the two adjacent outputs.

use vstd::prelude::*;

verus! {

use vstd::arithmetic::power2::{pow2, lemma2_to64, lemma2_to64_rest, lemma_pow2_adds};
use crate::field::{field_modulus, Felt, lemma_pow2_le_modulus, lemma_mod_zero_iff_zero};
use crate::expr::{SymExpr, ieval, cell};
use crate::util::{range_poly, byte_seq_val, u64s_to_ints, expr_seq_val, le_bytes, bool_check,
    expr_from_bytes, lemma_byte_seq_val_bounds};
use crate::sort::strictly_increasing;

/// Number of values being sorted.
pub const NUM_ELEMENTS: usize = 8;

/// Byte width of the comparator's difference decomposition.
pub const NUM_BYTES: usize = 8;

/// Advice columns: one per input plus one per output.
pub const NUM_ADVICE: usize = 16;

/// Rows of the witness region: inputs, outputs, one row per comparator.
pub const NUM_ROWS: usize = 10;

/// The row where a selector fires: the master selector (index 0) at row 0,
/// comparator selector 1+i at row 2+i.
pub open spec fn sel_fire_row(s: int) -> int {
    if s == 0 {
        0
    } else {
        s + 1
    }
}

/// The selector table of this chip.
pub open spec fn chip_sel_rows() -> Seq<int> {
    Seq::new(8, |s: int| sel_fire_row(s))
}

/// Comparator i's boolean flag cell.
pub open spec fn lt_cell(adv: Seq<Seq<int>>, i: int) -> int {
    cell(adv, 0, 2 + i)
}

/// Byte k of comparator i's difference decomposition.
pub open spec fn byte_cell(adv: Seq<Seq<int>>, i: int, k: int) -> int {
    cell(adv, 1 + k, 2 + i)
}

/// Output position t of the claimed sorted sequence.
pub open spec fn out_cell(adv: Seq<Seq<int>>, t: int) -> int {
    cell(adv, t, 1)
}

/// Input position t of the unsorted sequence.
pub open spec fn in_cell(adv: Seq<Seq<int>>, t: int) -> int {
    cell(adv, t, 0)
}

/// Comparator i's eight difference cells, least significant first.
pub open spec fn byte_vals(adv: Seq<Seq<int>>, i: int) -> Seq<int> {
    Seq::new(8, |k: int| byte_cell(adv, i, k))
}

/// The word recomposed from comparator i's difference bytes.
pub open spec fn diff_val(adv: Seq<Seq<int>>, i: int) -> int {
    byte_seq_val(byte_vals(adv, i))
}

/// The first `n` difference cells of comparator i hold genuine bytes.
pub open spec fn bytes_upto(adv: Seq<Seq<int>>, i: int, n: int) -> bool {
    forall|k: int| 0 <= k < n ==> 0 <= #[trigger] byte_cell(adv, i, k) < 256
}

/// Comparator i's own constraints: its flag is boolean, its difference bytes
/// are bytes, and the shifted-difference identity
/// `out[i] - out[i+1] = diff - flag * 2^64` holds in the field.
pub open spec fn comparator_ok(adv: Seq<Seq<int>>, i: int) -> bool {
    &&& range_poly(lt_cell(adv, i), 2) % field_modulus() == 0
    &&& (out_cell(adv, i) - out_cell(adv, i + 1) - diff_val(adv, i)
        + lt_cell(adv, i) * pow2(64)) % field_modulus() == 0
    &&& bytes_upto(adv, i, 8)
}

/// The first `n` terms of the master gate: comparator flags equal 1 in the
/// field.
pub open spec fn master_upto(adv: Seq<Seq<int>>, n: int) -> bool {
    forall|i: int| 0 <= i < n ==> (#[trigger] lt_cell(adv, i) - 1) % field_modulus() == 0
}

/// The first `n` comparators' own constraints all hold.
pub open spec fn comparators_upto(adv: Seq<Seq<int>>, n: int) -> bool {
    forall|i: int| 0 <= i < n ==> #[trigger] comparator_ok(adv, i)
}

/// The master gate: every comparator flag equals 1 in the field.
pub open spec fn master_ok(adv: Seq<Seq<int>>) -> bool {
    master_upto(adv, 7)
}

/// All gate constraints of the chip hold on a grid.
pub open spec fn gates_ok(adv: Seq<Seq<int>>) -> bool {
    &&& master_ok(adv)
    &&& comparators_upto(adv, 7)
}

/// An equality constraint between two advice cells.
#[derive(Clone, Copy, PartialEq, Eq, Structural, Debug)]
pub struct CellCopy {
    pub src_col: usize,
    pub src_row: usize,
    pub dst_col: usize,
    pub dst_row: usize,
}

/// An equality constraint between an advice cell and a public-instance row.
#[derive(Clone, Copy, PartialEq, Eq, Structural, Debug)]
pub struct InstanceCopy {
    pub inst_row: usize,
    pub col: usize,
    pub row: usize,
}

/// One proof's witness region: the advice grid, the public instance vector
/// it is bound to, and the equality constraints recorded while assigning.
#[derive(Clone)]
pub struct Assignment {
    /// Advice cells, column-major: the cell at column c, row r is
    /// `cells[c * NUM_ROWS + r]`.
    pub cells: Vec<u64>,
    /// The public instance vector: inputs then claimed sorted outputs.
    pub instance: Vec<u64>,
    /// Copy constraints between advice cells.
    pub copies: Vec<CellCopy>,
    /// Copy constraints binding advice cells to instance rows.
    pub inst_copies: Vec<InstanceCopy>,
}

impl Assignment {
    /// The advice grid as a mathematical object.
    pub open spec fn grid(self) -> Seq<Seq<int>> {
        Seq::new(16, |c: int| Seq::new(10, |r: int| self.cells@[c * 10 + r] as int))
    }

    /// Shape of a well-formed region.
    pub open spec fn wf(self) -> bool {
        &&& self.cells@.len() == 160
        &&& self.instance@.len() == 16
    }

    /// Every recorded advice-to-advice copy relates equal cells.
    pub open spec fn copies_ok(self) -> bool {
        forall|t: int| 0 <= t < self.copies@.len() ==> {
            let cc = #[trigger] self.copies@[t];
            &&& cc.src_col < 16
            &&& cc.src_row < 10
            &&& cc.dst_col < 16
            &&& cc.dst_row < 10
            &&& cell(self.grid(), cc.src_col as int, cc.src_row as int)
                == cell(self.grid(), cc.dst_col as int, cc.dst_row as int)
        }
    }

    /// Every recorded instance binding relates the cell to the instance row.
    pub open spec fn inst_copies_ok(self) -> bool {
        forall|t: int| 0 <= t < self.inst_copies@.len() ==> {
            let ic = #[trigger] self.inst_copies@[t];
            &&& ic.inst_row < self.instance@.len()
            &&& ic.col < 16
            &&& ic.row < 10
            &&& cell(self.grid(), ic.col as int, ic.row as int)
                == self.instance@[ic.inst_row as int]
        }
    }
}

/// The flag an honest prover writes for comparator i: 1 when the adjacent
/// outputs strictly increase.
pub open spec fn lt_flag(vals: Seq<u64>, i: int) -> int {
    if vals[i] < vals[i + 1] {
        1
    } else {
        0
    }
}

/// The shifted difference an honest prover decomposes into bytes for
/// comparator i: `lhs - rhs + flag * 2^64`, always in `[0, 2^64)`.
pub open spec fn diff_word(vals: Seq<u64>, i: int) -> int {
    if vals[i] < vals[i + 1] {
        pow2(64) - (vals[i + 1] - vals[i])
    } else {
        vals[i] - vals[i + 1]
    }
}

/// One constraint of the configured system: a polynomial identity that must
/// vanish in the field on every row, or a byte-range (lookup) demand on a
/// cell at the row where a selector fires.
pub enum Constraint {
    Poly(SymExpr),
    ByteRange { sel: usize, col: usize },
}

/// A single constraint holds on a grid at a row.
pub open spec fn constraint_holds(c: Constraint, adv: Seq<Seq<int>>, row: int) -> bool {
    match c {
        Constraint::Poly(e) => ieval(e, adv, chip_sel_rows(), row) % field_modulus() == 0,
        Constraint::ByteRange { sel, col } => (0 <= sel < 8 && row == sel_fire_row(sel as int))
            ==> 0 <= cell(adv, col as int, row) < 256,
    }
}

/// A single constraint holds on every row of the region.
pub open spec fn constraint_holds_everywhere(c: Constraint, adv: Seq<Seq<int>>) -> bool {
    forall|row: int| 0 <= row < 10 ==> #[trigger] constraint_holds(c, adv, row)
}

/// A whole constraint list holds on a grid.
pub open spec fn constraints_hold(cs: Seq<Constraint>, adv: Seq<Seq<int>>) -> bool
    decreases cs.len(),
{
    if cs.len() == 0 {
        true
    } else {
        constraints_hold(cs.drop_last(), adv) && constraint_holds_everywhere(cs.last(), adv)
    }
}

/// The immutable description of the constraint system: produced once at
/// setup, read-only thereafter.
pub struct SortNConfig {
    /// How many advice columns the region uses.
    pub num_advice: usize,
    /// The row where each selector fires, master selector first.
    pub selector_rows: Vec<usize>,
    /// The constraints of the system.
    pub constraints: Vec<Constraint>,
}

/// Given the gadget's constraints — the flag boolean, the bytes genuine, the
/// shifted-difference identity in the field — the flag must equal the strict
/// comparison of the operands. This is why a verifying proof cannot claim a
/// non-sorted output: the master term demands flag 1, and flag 1 forces
/// `lhs < rhs`.
pub proof fn lemma_comparator_decides(lhs: int, rhs: int, flag: int, bytes: Seq<int>)
    requires
        0 <= lhs < pow2(64),
        0 <= rhs < pow2(64),
        flag == 0 || flag == 1,
        bytes.len() == 8,
        forall|k: int| 0 <= k < 8 ==> 0 <= #[trigger] bytes[k] < 256,
        (lhs - rhs - byte_seq_val(bytes) + flag * pow2(64)) % field_modulus() == 0,
    ensures
        flag == 1 <==> lhs < rhs,
{
    lemma_byte_seq_val_bounds(bytes);
    let d = byte_seq_val(bytes);
    let v = lhs - rhs - d + flag * pow2(64);
    lemma_pow2_le_modulus(66);
    lemma_pow2_adds(64, 1);
    lemma_pow2_adds(65, 1);
    lemma2_to64();
    assert(-pow2(66) < v < pow2(66));
    lemma_mod_zero_iff_zero(v, field_modulus());
    assert(v == 0);
}

/// Appending a constraint to a list conjoins its everywhere-satisfaction.
proof fn lemma_constraints_push(cs: Seq<Constraint>, c: Constraint, adv: Seq<Seq<int>>)
    ensures
        constraints_hold(cs.push(c), adv) == (constraints_hold(cs, adv)
            && constraint_holds_everywhere(c, adv)),
{
    assert(cs.push(c).drop_last() =~= cs);
    assert(cs.push(c).last() == c);
}

/// Concatenating constraint lists conjoins their satisfaction.
proof fn lemma_constraints_concat(cs: Seq<Constraint>, ds: Seq<Constraint>, adv: Seq<Seq<int>>)
    ensures
        constraints_hold(cs + ds, adv) == (constraints_hold(cs, adv)
            && constraints_hold(ds, adv)),
    decreases ds.len(),
{
    if ds.len() == 0 {
        assert(cs + ds =~= cs);
    } else {
        lemma_constraints_concat(cs, ds.drop_last(), adv);
        assert((cs + ds).drop_last() =~= cs + ds.drop_last());
        assert((cs + ds).last() == ds.last());
    }
}

/// A sequence of query expressions whose values are known recomposes to the
/// recomposition of those values.
proof fn lemma_expr_seq_val_matches(
    qs: Seq<SymExpr>,
    vals: Seq<int>,
    adv: Seq<Seq<int>>,
    sel_rows: Seq<int>,
    row: int,
)
    requires
        qs.len() == vals.len(),
        forall|k: int| 0 <= k < qs.len()
            ==> ieval(#[trigger] qs[k], adv, sel_rows, row) == vals[k],
    ensures
        expr_seq_val(qs, adv, sel_rows, row) == byte_seq_val(vals),
    decreases qs.len(),
{
    if qs.len() > 0 {
        lemma_expr_seq_val_matches(qs.drop_last(), vals.drop_last(), adv, sel_rows, row);
        assert(qs[qs.len() - 1] == qs.last());
    }
}

/// One term of the master gate: under the master selector, comparator i's
/// flag, read at its own row, must equal 1.
fn master_constraint(i: usize) -> (c: Constraint)
    requires
        i < 7,
    ensures
        forall|adv: Seq<Seq<int>>| #[trigger] constraint_holds_everywhere(c, adv)
            <==> (lt_cell(adv, i as int) - 1) % field_modulus() == 0,
{
    let e = SymExpr::Product(
        Box::new(SymExpr::Selector { sel: 0 }),
        Box::new(SymExpr::Sum(
            Box::new(SymExpr::Advice { col: 0, rot: 2 + i as i32 }),
            Box::new(SymExpr::Negated(Box::new(SymExpr::Constant(Felt { rep: 1 })))),
        )),
    );
    let c = Constraint::Poly(e);
    proof {
        assert forall|adv: Seq<Seq<int>>| #[trigger] constraint_holds_everywhere(c, adv)
            <==> (lt_cell(adv, i as int) - 1) % field_modulus() == 0 by {
            assert forall|row: int| 0 <= row < 10
                implies ieval(e, adv, chip_sel_rows(), row) == (if row == 0 {
                    lt_cell(adv, i as int) - 1
                } else {
                    0int
                }) by {
                reveal_with_fuel(ieval, 6);
                assert(chip_sel_rows().len() == 8);
                assert(chip_sel_rows()[0] == 0);
                let sv = ieval(SymExpr::Selector { sel: 0 }, adv, chip_sel_rows(), row);
                assert(sv == if row == 0 { 1int } else { 0int });
                assert(ieval(e, adv, chip_sel_rows(), row)
                    == sv * (cell(adv, 0, row + 2 + i) - 1));
                if row != 0 {
                    assert(sv * (cell(adv, 0, row + 2 + i) - 1) == 0);
                }
            }
            lemma_mod_zero_iff_zero(0, field_modulus());
            if constraint_holds_everywhere(c, adv) {
                assert(constraint_holds(c, adv, 0));
            } else {
                let bad = choose|row: int| 0 <= row < 10
                    && !#[trigger] constraint_holds(c, adv, row);
                assert(bad == 0);
            }
        }
    }
    c
}

/// Comparator i's boolean constraint: under its selector, the flag cell is
/// 0 or 1.
fn comparator_bool_constraint(i: usize) -> (c: Constraint)
    requires
        i < 7,
    ensures
        forall|adv: Seq<Seq<int>>| #[trigger] constraint_holds_everywhere(c, adv)
            <==> range_poly(lt_cell(adv, i as int), 2) % field_modulus() == 0,
{
    let ltq = SymExpr::Advice { col: 0, rot: 0 };
    let bc = bool_check(&ltq);
    let e = SymExpr::Product(Box::new(SymExpr::Selector { sel: 1 + i }), Box::new(bc));
    let c = Constraint::Poly(e);
    proof {
        assert forall|adv: Seq<Seq<int>>| #[trigger] constraint_holds_everywhere(c, adv)
            <==> range_poly(lt_cell(adv, i as int), 2) % field_modulus() == 0 by {
            assert forall|row: int| 0 <= row < 10
                implies ieval(e, adv, chip_sel_rows(), row) == (if row == 2 + i {
                    range_poly(lt_cell(adv, i as int), 2)
                } else {
                    0int
                }) by {
                reveal_with_fuel(ieval, 3);
                assert(chip_sel_rows()[1 + i as int] == 2 + i);
                assert(ieval(bc, adv, chip_sel_rows(), row)
                    == range_poly(ieval(ltq, adv, chip_sel_rows(), row), 2));
                if row == 2 + i {
                    assert(ieval(ltq, adv, chip_sel_rows(), row) == cell(adv, 0, row));
                }
            }
            lemma_mod_zero_iff_zero(0, field_modulus());
            if constraint_holds_everywhere(c, adv) {
                assert(constraint_holds(c, adv, 2 + i as int));
            } else {
                let bad = choose|row: int| 0 <= row < 10
                    && !#[trigger] constraint_holds(c, adv, row);
                assert(bad == 2 + i);
            }
        }
    }
    c
}

/// Comparator i's main identity: under its selector,
/// `out[i] - out[i+1] - diff + flag * 2^64` vanishes, where `diff` is the
/// byte recomposition of its difference cells and the two outputs are read
/// from the output row through a negative rotation.
fn comparator_main_constraint(i: usize) -> (c: Constraint)
    requires
        i < 7,
    ensures
        forall|adv: Seq<Seq<int>>| #[trigger] constraint_holds_everywhere(c, adv)
            <==> (out_cell(adv, i as int) - out_cell(adv, i as int + 1)
                - diff_val(adv, i as int) + lt_cell(adv, i as int) * pow2(64))
                % field_modulus() == 0,
{
    let rot_back: i32 = -1 - i as i32;
    let lhsq = SymExpr::Advice { col: i, rot: rot_back };
    let rhsq = SymExpr::Advice { col: i + 1, rot: rot_back };
    let mut bqs: Vec<SymExpr> = Vec::new();
    let mut k: usize = 0;
    while k < 8
        invariant
            k <= 8,
            bqs@.len() == k,
            forall|kk: int| 0 <= kk < k
                ==> #[trigger] bqs@[kk] == (SymExpr::Advice { col: (1 + kk) as usize, rot: 0i32 }),
        decreases 8 - k,
    {
        bqs.push(SymExpr::Advice { col: 1 + k, rot: 0 });
        k = k + 1;
    }
    let diff_e = expr_from_bytes(&bqs);
    let ltq = SymExpr::Advice { col: 0, rot: 0 };
    let range_const = SymExpr::Constant(Felt { rep: 0x10000000000000000u128 });
    let e = SymExpr::Product(
        Box::new(SymExpr::Selector { sel: 1 + i }),
        Box::new(SymExpr::Sum(
            Box::new(SymExpr::Sum(Box::new(lhsq), Box::new(SymExpr::Negated(Box::new(rhsq))))),
            Box::new(SymExpr::Sum(
                Box::new(SymExpr::Negated(Box::new(diff_e))),
                Box::new(SymExpr::Product(Box::new(ltq), Box::new(range_const))),
            )),
        )),
    );
    let c = Constraint::Poly(e);
    proof {
        lemma2_to64_rest();
        assert forall|adv: Seq<Seq<int>>| #[trigger] constraint_holds_everywhere(c, adv)
            <==> (out_cell(adv, i as int) - out_cell(adv, i as int + 1)
                - diff_val(adv, i as int) + lt_cell(adv, i as int) * pow2(64))
                % field_modulus() == 0 by {
            let target = out_cell(adv, i as int) - out_cell(adv, i as int + 1)
                - diff_val(adv, i as int) + lt_cell(adv, i as int) * pow2(64);
            assert forall|row: int| 0 <= row < 10
                implies ieval(e, adv, chip_sel_rows(), row) == (if row == 2 + i {
                    target
                } else {
                    0int
                }) by {
                reveal_with_fuel(ieval, 8);
                assert(chip_sel_rows()[1 + i as int] == 2 + i);
                if row == 2 + i {
                    assert(ieval(diff_e, adv, chip_sel_rows(), row)
                        == expr_seq_val(bqs@, adv, chip_sel_rows(), row));
                    let bvals = byte_vals(adv, i as int);
                    assert forall|kk: int| 0 <= kk < 8
                        implies ieval(#[trigger] bqs@[kk], adv, chip_sel_rows(), row)
                            == bvals[kk] by {
                        reveal_with_fuel(ieval, 2);
                    }
                    lemma_expr_seq_val_matches(bqs@, bvals, adv, chip_sel_rows(), row);
                    assert(ieval(lhsq, adv, chip_sel_rows(), row)
                        == cell(adv, i as int, 1));
                    assert(ieval(rhsq, adv, chip_sel_rows(), row)
                        == cell(adv, i as int + 1, 1));
                }
            }
            lemma_mod_zero_iff_zero(0, field_modulus());
            if constraint_holds_everywhere(c, adv) {
                assert(constraint_holds(c, adv, 2 + i as int));
            } else {
                let bad = choose|row: int| 0 <= row < 10
                    && !#[trigger] constraint_holds(c, adv, row);
                assert(bad == 2 + i);
            }
        }
    }
    c
}

/// Comparator i's byte-range demand on difference cell k: the model of the
/// byte lookup the range decomposition uses.
fn byte_range_constraint(i: usize, k: usize) -> (c: Constraint)
    requires
        i < 7,
        k < 8,
    ensures
        forall|adv: Seq<Seq<int>>| #[trigger] constraint_holds_everywhere(c, adv)
            <==> 0 <= byte_cell(adv, i as int, k as int) < 256,
{
    let c = Constraint::ByteRange { sel: 1 + i, col: 1 + k };
    proof {
        assert forall|adv: Seq<Seq<int>>| #[trigger] constraint_holds_everywhere(c, adv)
            <==> 0 <= byte_cell(adv, i as int, k as int) < 256 by {
            assert(sel_fire_row(1 + i as int) == 2 + i);
            if constraint_holds_everywhere(c, adv) {
                assert(constraint_holds(c, adv, 2 + i as int));
            } else {
                let bad = choose|row: int| 0 <= row < 10
                    && !#[trigger] constraint_holds(c, adv, row);
                assert(bad == 2 + i);
            }
        }
    }
    c
}

/// All ten constraints owned by comparator i.
fn comparator_constraints(i: usize) -> (v: Vec<Constraint>)
    requires
        i < 7,
    ensures
        forall|adv: Seq<Seq<int>>| #[trigger] constraints_hold(v@, adv)
            <==> comparator_ok(adv, i as int),
{
    let mut v: Vec<Constraint> = Vec::new();
    let cb = comparator_bool_constraint(i);
    let cm = comparator_main_constraint(i);
    proof {
        assert(v@.len() == 0);
    }
    v.push(cb);
    proof {
        assert forall|adv: Seq<Seq<int>>| #[trigger] constraints_hold(v@, adv)
            <==> range_poly(lt_cell(adv, i as int), 2) % field_modulus() == 0 by {
            reveal_with_fuel(constraints_hold, 3);
            assert(v@.drop_last() =~= Seq::<Constraint>::empty());
            assert(constraints_hold(Seq::<Constraint>::empty(), adv));
            assert(v@.last() == cb);
        }
    }
    let ghost v1 = v@;
    v.push(cm);
    proof {
        assert forall|adv: Seq<Seq<int>>| #[trigger] constraints_hold(v@, adv)
            <==> (range_poly(lt_cell(adv, i as int), 2) % field_modulus() == 0
                && (out_cell(adv, i as int) - out_cell(adv, i as int + 1)
                    - diff_val(adv, i as int) + lt_cell(adv, i as int) * pow2(64))
                    % field_modulus() == 0) by {
            lemma_constraints_push(v1, cm, adv);
        }
    }
    let mut k: usize = 0;
    while k < 8
        invariant
            i < 7,
            k <= 8,
            forall|adv: Seq<Seq<int>>| #[trigger] constraints_hold(v@, adv)
                <==> (range_poly(lt_cell(adv, i as int), 2) % field_modulus() == 0
                    && (out_cell(adv, i as int) - out_cell(adv, i as int + 1)
                        - diff_val(adv, i as int) + lt_cell(adv, i as int) * pow2(64))
                        % field_modulus() == 0
                    && bytes_upto(adv, i as int, k as int)),
        decreases 8 - k,
    {
        let cr = byte_range_constraint(i, k);
        let ghost vp = v@;
        v.push(cr);
        proof {
            assert forall|adv: Seq<Seq<int>>| #[trigger] constraints_hold(v@, adv)
                <==> (range_poly(lt_cell(adv, i as int), 2) % field_modulus() == 0
                    && (out_cell(adv, i as int) - out_cell(adv, i as int + 1)
                        - diff_val(adv, i as int) + lt_cell(adv, i as int) * pow2(64))
                        % field_modulus() == 0
                    && bytes_upto(adv, i as int, k as int + 1)) by {
                lemma_constraints_push(vp, cr, adv);
                if constraints_hold(vp, adv) && constraint_holds_everywhere(cr, adv) {
                    assert forall|kk: int| 0 <= kk < k + 1
                        implies 0 <= #[trigger] byte_cell(adv, i as int, kk) < 256 by {
                    }
                }
            }
        }
        k = k + 1;
    }
    v
}

/// Structural copy of a constraint.
pub fn clone_constraint(c: &Constraint) -> (r: Constraint)
    ensures
        r == *c,
{
    match c {
        Constraint::Poly(e) => Constraint::Poly(crate::expr::clone_expr(e)),
        Constraint::ByteRange { sel, col } => Constraint::ByteRange { sel: *sel, col: *col },
    }
}

/// Structural copy of a configuration, for drivers that must hold it in
/// several places.
pub fn clone_config(cfg: &SortNConfig) -> (r: SortNConfig)
    ensures
        r.num_advice == cfg.num_advice,
        r.selector_rows@ == cfg.selector_rows@,
        r.constraints@ == cfg.constraints@,
{
    let mut selector_rows: Vec<usize> = Vec::new();
    let mut s: usize = 0;
    let ns = cfg.selector_rows.len();
    while s < ns
        invariant
            s <= ns == cfg.selector_rows@.len(),
            selector_rows@.len() == s,
            forall|u: int| 0 <= u < s
                ==> #[trigger] selector_rows@[u] == cfg.selector_rows@[u],
        decreases ns - s,
    {
        selector_rows.push(cfg.selector_rows[s]);
        s = s + 1;
    }
    let mut constraints: Vec<Constraint> = Vec::new();
    let mut t: usize = 0;
    let nc = cfg.constraints.len();
    while t < nc
        invariant
            t <= nc == cfg.constraints@.len(),
            constraints@.len() == t,
            forall|u: int| 0 <= u < t
                ==> #[trigger] constraints@[u] == cfg.constraints@[u],
        decreases nc - t,
    {
        constraints.push(clone_constraint(&cfg.constraints[t]));
        t = t + 1;
    }
    proof {
        assert(selector_rows@ =~= cfg.selector_rows@);
        assert(constraints@ =~= cfg.constraints@);
    }
    SortNConfig { num_advice: cfg.num_advice, selector_rows, constraints }
}

/// The sorting chip: holds the configuration and assigns one proof's
/// witness region.
pub struct SortNChip {
    pub config: SortNConfig,
}

impl SortNChip {
    /// Wrap a configuration produced at setup.
    pub fn construct(config: SortNConfig) -> (c: SortNChip)
        ensures
            c.config == config,
    {
        SortNChip { config }
    }

    /// Build the constraint system: the master gate's terms, then every
    /// comparator's own constraints, together with the selector layout.
    /// The returned list is satisfied on a grid exactly when the chip's gate
    /// semantics `gates_ok` holds of it.
    pub fn configure() -> (cfg: SortNConfig)
        ensures
            cfg.num_advice == 16,
            cfg.selector_rows@.len() == 8,
            forall|s: int| 0 <= s < 8
                ==> (#[trigger] cfg.selector_rows@[s]) as int == sel_fire_row(s),
            forall|adv: Seq<Seq<int>>| #[trigger] constraints_hold(cfg.constraints@, adv)
                <==> gates_ok(adv),
    {
        let mut constraints: Vec<Constraint> = Vec::new();
        proof {
            assert forall|adv: Seq<Seq<int>>| #[trigger] constraints_hold(constraints@, adv)
                <==> master_upto(adv, 0) by {
                assert(constraints@.len() == 0);
            }
        }
        let mut i: usize = 0;
        while i < 7
            invariant
                i <= 7,
                forall|adv: Seq<Seq<int>>| #[trigger] constraints_hold(constraints@, adv)
                    <==> master_upto(adv, i as int),
            decreases 7 - i,
        {
            let mc = master_constraint(i);
            let ghost cp = constraints@;
            constraints.push(mc);
            proof {
                assert forall|adv: Seq<Seq<int>>| #[trigger] constraints_hold(constraints@, adv)
                    <==> master_upto(adv, i as int + 1) by {
                    lemma_constraints_push(cp, mc, adv);
                    if constraints_hold(cp, adv) && constraint_holds_everywhere(mc, adv) {
                        assert forall|ii: int| 0 <= ii < i + 1
                            implies (#[trigger] lt_cell(adv, ii) - 1) % field_modulus() == 0 by {
                        }
                    } else {
                        if master_upto(adv, i as int + 1) {
                            assert(master_upto(adv, i as int));
                            assert((lt_cell(adv, i as int) - 1) % field_modulus() == 0);
                        }
                    }
                }
            }
            i = i + 1;
        }
        let mut i2: usize = 0;
        while i2 < 7
            invariant
                i2 <= 7,
                forall|adv: Seq<Seq<int>>| #[trigger] constraints_hold(constraints@, adv)
                    <==> (master_upto(adv, 7) && comparators_upto(adv, i2 as int)),
            decreases 7 - i2,
        {
            let mut cvec = comparator_constraints(i2);
            let ghost cp = constraints@;
            let ghost cv = cvec@;
            constraints.append(&mut cvec);
            proof {
                assert forall|adv: Seq<Seq<int>>| #[trigger] constraints_hold(constraints@, adv)
                    <==> (master_upto(adv, 7) && comparators_upto(adv, i2 as int + 1)) by {
                    lemma_constraints_concat(cp, cv, adv);
                    if constraints_hold(cp, adv) && constraints_hold(cv, adv) {
                        assert forall|ii: int| 0 <= ii < i2 + 1
                            implies #[trigger] comparator_ok(adv, ii) by {
                        }
                    } else {
                        if master_upto(adv, 7) && comparators_upto(adv, i2 as int + 1) {
                            assert(comparators_upto(adv, i2 as int));
                            assert(comparator_ok(adv, i2 as int));
                        }
                    }
                }
            }
            i2 = i2 + 1;
        }
        let mut selector_rows: Vec<usize> = Vec::new();
        let mut s: usize = 0;
        while s < 8
            invariant
                s <= 8,
                selector_rows@.len() == s,
                forall|u: int| 0 <= u < s
                    ==> (#[trigger] selector_rows@[u]) as int == sel_fire_row(u),
            decreases 8 - s,
        {
            if s == 0 {
                selector_rows.push(0);
            } else {
                selector_rows.push(s + 1);
            }
            s = s + 1;
        }
        SortNConfig { num_advice: 16, selector_rows, constraints }
    }

    /// Record the equality constraint binding an already-assigned cell to a
    /// public-instance row: this is how sorted outputs become part of the
    /// publicly verifiable statement.
    pub fn expose_public(&self, a: &mut Assignment, col: usize, row: usize, inst_row: usize)
        requires
            old(a).wf(),
            col < 16,
            row < 10,
            inst_row < 16,
            cell(old(a).grid(), col as int, row as int) == old(a).instance@[inst_row as int],
        ensures
            final(a).cells@ == old(a).cells@,
            final(a).instance@ == old(a).instance@,
            final(a).copies@ == old(a).copies@,
            final(a).inst_copies@ == old(a).inst_copies@.push(
                (InstanceCopy { inst_row, col, row }),
            ),
            final(a).wf(),
            final(a).grid() == old(a).grid(),
            old(a).copies_ok() ==> final(a).copies_ok(),
            old(a).inst_copies_ok() ==> final(a).inst_copies_ok(),
    {
        let ghost pre = *a;
        a.inst_copies.push(InstanceCopy { inst_row, col, row });
        proof {
            assert(a.grid() =~~= pre.grid());
            if pre.inst_copies_ok() {
                assert forall|t: int| 0 <= t < a.inst_copies@.len() implies {
                    let ic = #[trigger] a.inst_copies@[t];
                    &&& ic.inst_row < a.instance@.len()
                    &&& ic.col < 16
                    &&& ic.row < 10
                    &&& cell(a.grid(), ic.col as int, ic.row as int)
                        == a.instance@[ic.inst_row as int]
                } by {
                    if t < pre.inst_copies@.len() {
                        assert(a.inst_copies@[t] == pre.inst_copies@[t]);
                    }
                }
            }
        }
    }
    ///
    /// The caller supplies the public inputs, the claimed sorted values and,
    /// for each output position, the input index its value comes from; the
    /// region binds inputs to the instance, copy-constrains each output to
    /// its specific source cell, and fills each comparator's flag and
    /// difference bytes honestly. The gates of the region are satisfied
    /// exactly when the claimed values strictly increase: synthesis itself
    /// never fails on unsorted or duplicated values; the constraint system
    /// does.
    pub fn assign(&self, inputs: &Vec<u64>, in_indices: &Vec<usize>, values: &Vec<u64>) -> (a:
        Assignment)
        requires
            inputs@.len() == 8,
            in_indices@.len() == 8,
            values@.len() == 8,
            forall|t: int| 0 <= t < 8 ==> (#[trigger] in_indices@[t]) < 8,
            forall|t: int| 0 <= t < 8
                ==> #[trigger] values@[t] == inputs@[in_indices@[t] as int],
        ensures
            a.wf(),
            a.copies_ok(),
            a.inst_copies_ok(),
            forall|t: int| 0 <= t < 8 ==> #[trigger] a.instance@[t] == inputs@[t],
            forall|t: int| 0 <= t < 8 ==> #[trigger] a.instance@[8 + t] == values@[t],
            forall|t: int| 0 <= t < 8 ==> in_cell(a.grid(), t) == inputs@[t],
            forall|t: int| 0 <= t < 8 ==> out_cell(a.grid(), t) == values@[t],
            a.copies@.len() == 8,
            forall|t: int| 0 <= t < 8 ==> {
                let cc = #[trigger] a.copies@[t];
                cc.src_col == in_indices@[t] && cc.src_row == 0 && cc.dst_col == t
                    && cc.dst_row == 1
            },
            a.inst_copies@.len() == 8,
            forall|t: int| 0 <= t < 8 ==> {
                let ic = #[trigger] a.inst_copies@[t];
                ic.inst_row == t && ic.col == t && ic.row == 0
            },
            gates_ok(a.grid()) <==> strictly_increasing(values@),
    {
        proof {
            lemma2_to64();
            lemma2_to64_rest();
        }
        // Comparator witnesses: flag and difference bytes per adjacent pair.
        let mut flags: Vec<u64> = Vec::new();
        let mut dbytes: Vec<Vec<u64>> = Vec::new();
        let mut i: usize = 0;
        while i < 7
            invariant
                i <= 7,
                values@.len() == 8,
                flags@.len() == i,
                dbytes@.len() == i,
                forall|ii: int| 0 <= ii < i
                    ==> (#[trigger] flags@[ii]) as int == lt_flag(values@, ii),
                forall|ii: int| 0 <= ii < i ==> (#[trigger] dbytes@[ii])@.len() == 8,
                forall|ii: int, k: int| 0 <= ii < i && 0 <= k < 8
                    ==> 0 <= (#[trigger] dbytes@[ii]@[k]) < 256,
                forall|ii: int| 0 <= ii < i
                    ==> byte_seq_val(u64s_to_ints((#[trigger] dbytes@[ii])@))
                        == diff_word(values@, ii),
            decreases 7 - i,
        {
            let av = values[i];
            let bv = values[i + 1];
            let flag: u64 = if av < bv {
                1
            } else {
                0
            };
            let d: u64 = if av < bv {
                (u64::MAX - (bv - av)) + 1
            } else {
                av - bv
            };
            proof {
                lemma2_to64_rest();
                assert(d as int == diff_word(values@, i as int));
            }
            let bts = le_bytes(d);
            flags.push(flag);
            dbytes.push(bts);
            i = i + 1;
        }
        // The advice grid, column-major.
        let mut cells: Vec<u64> = Vec::new();
        let mut c: usize = 0;
        while c < 16
            invariant
                c <= 16,
                cells@.len() == c * 10,
                inputs@.len() == 8,
                values@.len() == 8,
                flags@.len() == 7,
                dbytes@.len() == 7,
                forall|ii: int| 0 <= ii < 7
                    ==> (#[trigger] flags@[ii]) as int == lt_flag(values@, ii),
                forall|ii: int| 0 <= ii < 7 ==> (#[trigger] dbytes@[ii])@.len() == 8,
                forall|ii: int, k: int| 0 <= ii < 7 && 0 <= k < 8
                    ==> 0 <= (#[trigger] dbytes@[ii]@[k]) < 256,
                forall|ii: int| 0 <= ii < 7
                    ==> byte_seq_val(u64s_to_ints((#[trigger] dbytes@[ii])@))
                        == diff_word(values@, ii),
                forall|cc: int, rr: int| 0 <= cc < c && 0 <= rr < 10
                    ==> #[trigger] cells@[cc * 10 + rr] == grid_word(
                        inputs@, values@, flags@, dbytes@, cc, rr),
            decreases 16 - c,
        {
            let mut r: usize = 0;
            while r < 10
                invariant
                    c < 16,
                    r <= 10,
                    cells@.len() == c * 10 + r,
                    inputs@.len() == 8,
                    values@.len() == 8,
                    flags@.len() == 7,
                    dbytes@.len() == 7,
                    forall|ii: int| 0 <= ii < 7 ==> (#[trigger] dbytes@[ii])@.len() == 8,
                    forall|cc: int, rr: int| 0 <= cc < c && 0 <= rr < 10
                        ==> #[trigger] cells@[cc * 10 + rr] == grid_word(
                            inputs@, values@, flags@, dbytes@, cc, rr),
                    forall|rr: int| 0 <= rr < r
                        ==> #[trigger] cells@[c as int * 10 + rr] == grid_word(
                            inputs@, values@, flags@, dbytes@, c as int, rr),
                decreases 10 - r,
            {
                let v: u64 = if r == 0 && c < 8 {
                    inputs[c]
                } else if r == 1 && c < 8 {
                    values[c]
                } else if c == 0 && 2 <= r && r <= 8 {
                    flags[r - 2]
                } else if 1 <= c && c <= 8 && 2 <= r && r <= 8 {
                    dbytes[r - 2][c - 1]
                } else {
                    0
                };
                cells.push(v);
                r = r + 1;
            }
            c = c + 1;
        }
        // The instance vector: inputs then claimed sorted outputs.
        let mut instance: Vec<u64> = Vec::new();
        let mut t: usize = 0;
        while t < 8
            invariant
                t <= 8,
                inputs@.len() == 8,
                instance@.len() == t,
                forall|u: int| 0 <= u < t ==> #[trigger] instance@[u] == inputs@[u],
            decreases 8 - t,
        {
            instance.push(inputs[t]);
            t = t + 1;
        }
        let mut t2: usize = 0;
        while t2 < 8
            invariant
                t2 <= 8,
                values@.len() == 8,
                instance@.len() == 8 + t2,
                forall|u: int| 0 <= u < 8 ==> #[trigger] instance@[u] == inputs@[u],
                forall|u: int| 0 <= u < t2 ==> #[trigger] instance@[8 + u] == values@[u],
            decreases 8 - t2,
        {
            instance.push(values[t2]);
            t2 = t2 + 1;
        }
        // The copy constraints: instance-to-advice for the inputs, then one
        // advice copy per output position, from its source input cell.
        let mut inst_copies: Vec<InstanceCopy> = Vec::new();
        let mut t3: usize = 0;
        while t3 < 8
            invariant
                t3 <= 8,
                inst_copies@.len() == t3,
                forall|u: int| 0 <= u < t3 ==> {
                    let ic = #[trigger] inst_copies@[u];
                    ic.inst_row == u && ic.col == u && ic.row == 0
                },
            decreases 8 - t3,
        {
            inst_copies.push(InstanceCopy { inst_row: t3, col: t3, row: 0 });
            t3 = t3 + 1;
        }
        let mut copies: Vec<CellCopy> = Vec::new();
        let mut t4: usize = 0;
        while t4 < 8
            invariant
                t4 <= 8,
                in_indices@.len() == 8,
                forall|u: int| 0 <= u < 8 ==> (#[trigger] in_indices@[u]) < 8,
                copies@.len() == t4,
                forall|u: int| 0 <= u < t4 ==> {
                    let cc = #[trigger] copies@[u];
                    cc.src_col == in_indices@[u] && cc.src_row == 0 && cc.dst_col == u
                        && cc.dst_row == 1
                },
            decreases 8 - t4,
        {
            copies.push(CellCopy { src_col: in_indices[t4], src_row: 0, dst_col: t4, dst_row: 1 });
            t4 = t4 + 1;
        }
        let a = Assignment { cells, instance, copies, inst_copies };
        proof {
            lemma_assign_region_ok(a, inputs@, values@, in_indices@, flags@, dbytes@);
        }
        a
    }
}

/// The honest content of the advice cell at column c, row r, given the
/// comparator witnesses already computed.
pub open spec fn grid_word(
    inputs: Seq<u64>,
    values: Seq<u64>,
    flags: Seq<u64>,
    dbytes: Seq<Vec<u64>>,
    c: int,
    r: int,
) -> int {
    if r == 0 && 0 <= c < 8 {
        inputs[c] as int
    } else if r == 1 && 0 <= c < 8 {
        values[c] as int
    } else if c == 0 && 2 <= r <= 8 {
        flags[r - 2] as int
    } else if 1 <= c <= 8 && 2 <= r <= 8 {
        dbytes[r - 2]@[c - 1] as int
    } else {
        0
    }
}

/// The region an honest assignment builds is well formed, its recorded
/// copies all hold, and its gates are satisfied exactly when the claimed
/// values strictly increase.
proof fn lemma_assign_region_ok(
    a: Assignment,
    inputs: Seq<u64>,
    values: Seq<u64>,
    in_indices: Seq<usize>,
    flags: Seq<u64>,
    dbytes: Seq<Vec<u64>>,
)
    requires
        inputs.len() == 8,
        values.len() == 8,
        in_indices.len() == 8,
        flags.len() == 7,
        dbytes.len() == 7,
        forall|t: int| 0 <= t < 8 ==> (#[trigger] in_indices[t]) < 8,
        forall|t: int| 0 <= t < 8 ==> #[trigger] values[t] == inputs[in_indices[t] as int],
        forall|ii: int| 0 <= ii < 7 ==> (#[trigger] flags[ii]) as int == lt_flag(values, ii),
        forall|ii: int| 0 <= ii < 7 ==> (#[trigger] dbytes[ii])@.len() == 8,
        forall|ii: int, k: int| 0 <= ii < 7 && 0 <= k < 8
            ==> 0 <= (#[trigger] dbytes[ii]@[k]) < 256,
        forall|ii: int| 0 <= ii < 7
            ==> byte_seq_val(u64s_to_ints((#[trigger] dbytes[ii])@)) == diff_word(values, ii),
        a.cells@.len() == 160,
        forall|cc: int, rr: int| 0 <= cc < 16 && 0 <= rr < 10
            ==> #[trigger] a.cells@[cc * 10 + rr] == grid_word(
                inputs, values, flags, dbytes, cc, rr),
        a.instance@.len() == 16,
        forall|u: int| 0 <= u < 8 ==> #[trigger] a.instance@[u] == inputs[u],
        forall|u: int| 0 <= u < 8 ==> #[trigger] a.instance@[8 + u] == values[u],
        a.copies@.len() == 8,
        forall|u: int| 0 <= u < 8 ==> {
            let cc = #[trigger] a.copies@[u];
            cc.src_col == in_indices[u] && cc.src_row == 0 && cc.dst_col == u && cc.dst_row == 1
        },
        a.inst_copies@.len() == 8,
        forall|u: int| 0 <= u < 8 ==> {
            let ic = #[trigger] a.inst_copies@[u];
            ic.inst_row == u && ic.col == u && ic.row == 0
        },
    ensures
        a.wf(),
        a.copies_ok(),
        a.inst_copies_ok(),
        forall|t: int| 0 <= t < 8 ==> in_cell(a.grid(), t) == inputs[t],
        forall|t: int| 0 <= t < 8 ==> out_cell(a.grid(), t) == values[t],
        gates_ok(a.grid()) <==> strictly_increasing(values),
{
    let g = a.grid();
    lemma2_to64();
    lemma2_to64_rest();
    assert forall|cc: int, rr: int| 0 <= cc < 16 && 0 <= rr < 10
        implies #[trigger] cell(g, cc, rr) == grid_word(inputs, values, flags, dbytes, cc, rr) by {
        assert(g[cc][rr] == a.cells@[cc * 10 + rr]);
    }
    assert forall|t: int| 0 <= t < 8 implies in_cell(g, t) == inputs[t] by {
        assert(cell(g, t, 0) == grid_word(inputs, values, flags, dbytes, t, 0));
    }
    assert forall|t: int| 0 <= t < 8 implies out_cell(g, t) == values[t] by {
        assert(cell(g, t, 1) == grid_word(inputs, values, flags, dbytes, t, 1));
    }
    assert forall|ii: int| 0 <= ii < 7 implies lt_cell(g, ii) == lt_flag(values, ii) by {
        assert(cell(g, 0, 2 + ii) == grid_word(inputs, values, flags, dbytes, 0, 2 + ii));
    }
    assert forall|ii: int| 0 <= ii < 7 implies diff_val(g, ii) == diff_word(values, ii)
        && (forall|k: int| 0 <= k < 8 ==> 0 <= #[trigger] byte_cell(g, ii, k) < 256) by {
        assert forall|k: int| 0 <= k < 8
            implies #[trigger] byte_cell(g, ii, k) == dbytes[ii]@[k] as int by {
            assert(cell(g, 1 + k, 2 + ii) == grid_word(
                inputs, values, flags, dbytes, 1 + k, 2 + ii));
        }
        assert(byte_vals(g, ii) =~= u64s_to_ints(dbytes[ii]@));
    }
    // The copies hold: each output cell carries the value of its source
    // input cell, each input cell the instance value it was copied from.
    assert forall|u: int| 0 <= u < a.copies@.len() implies {
        let cc = #[trigger] a.copies@[u];
        &&& cc.src_col < 16
        &&& cc.src_row < 10
        &&& cc.dst_col < 16
        &&& cc.dst_row < 10
        &&& cell(g, cc.src_col as int, cc.src_row as int)
            == cell(g, cc.dst_col as int, cc.dst_row as int)
    } by {
        let cc = a.copies@[u];
        assert(cell(g, cc.src_col as int, 0) == inputs[in_indices[u] as int]);
        assert(cell(g, u, 1) == values[u]);
    }
    assert forall|u: int| 0 <= u < a.inst_copies@.len() implies {
        let ic = #[trigger] a.inst_copies@[u];
        &&& ic.inst_row < a.instance@.len()
        &&& ic.col < 16
        &&& ic.row < 10
        &&& cell(g, ic.col as int, ic.row as int) == a.instance@[ic.inst_row as int]
    } by {
        let ic = a.inst_copies@[u];
        assert(cell(g, u, 0) == inputs[u]);
    }
    // Every comparator's own constraints hold by construction.
    assert forall|ii: int| 0 <= ii < 7 implies #[trigger] comparator_ok(g, ii) by {
        let f = lt_cell(g, ii);
        assert(f == lt_flag(values, ii));
        assert(range_poly(f, 2) == range_poly(f, 1) * (1 - f));
        assert(range_poly(f, 1) == f);
        assert(f == 0 || f == 1);
        assert((f == 0 || f == 1) ==> f * (1 - f) == 0) by (nonlinear_arith);
        assert(range_poly(f, 2) == 0);
        lemma_mod_zero_iff_zero(0, field_modulus());
        let main_v = out_cell(g, ii) - out_cell(g, ii + 1) - diff_val(g, ii) + f * pow2(64);
        assert(out_cell(g, ii) == values[ii]);
        assert(out_cell(g, ii + 1) == values[ii + 1]);
        assert(diff_val(g, ii) == diff_word(values, ii));
        if values[ii] < values[ii + 1] {
            assert(f == 1);
            assert(main_v == 0);
        } else {
            assert(f == 0);
            assert(main_v == 0);
        }
    }
    // The master gate holds exactly when every flag is 1, which is exactly
    // strict ascent of the claimed values.
    assert(gates_ok(g) <==> strictly_increasing(values)) by {
        if strictly_increasing(values) {
            assert forall|ii: int| 0 <= ii < 7
                implies (#[trigger] lt_cell(g, ii) - 1) % field_modulus() == 0 by {
                assert(values[ii] < values[ii + 1]);
                assert(lt_cell(g, ii) == 1);
                lemma_mod_zero_iff_zero(0, field_modulus());
            }
        }
        if gates_ok(g) {
            assert forall|t: int| 0 <= t < values.len() - 1
                implies #[trigger] values[t] < values[t + 1] by {
                assert((lt_cell(g, t) - 1) % field_modulus() == 0);
                lemma_mod_zero_iff_zero(lt_cell(g, t) - 1, field_modulus());
                lemma_pow2_le_modulus(1);
                assert(lt_cell(g, t) == 1);
                assert(lt_flag(values, t) == 1);
            }
        }
    }
}

/// Soundness of the whole constraint system on machine-word witnesses: if
/// every gate constraint holds on a well-formed region, the claimed outputs
/// strictly increase. A verifying proof therefore cannot claim a non-sorted
/// output sequence.
pub proof fn lemma_gates_force_sorted(a: Assignment)
    requires
        a.wf(),
        gates_ok(a.grid()),
    ensures
        forall|i: int| 0 <= i < 7 ==> #[trigger] out_cell(a.grid(), i) < out_cell(a.grid(), i + 1),
{
    let g = a.grid();
    assert forall|i: int| 0 <= i < 7 implies #[trigger] out_cell(g, i) < out_cell(g, i + 1) by {
        lemma2_to64();
        lemma2_to64_rest();
        lemma_pow2_le_modulus(128);
        assert(comparator_ok(g, i));
        let lhs = out_cell(g, i);
        let rhs = out_cell(g, i + 1);
        let f = lt_cell(g, i);
        assert(lhs == a.cells@[i * 10 + 1] && 0 <= lhs < pow2(64));
        assert(rhs == a.cells@[(i + 1) * 10 + 1] && 0 <= rhs < pow2(64));
        assert(f == a.cells@[2 + i] && 0 <= f < pow2(64));
        // The boolean constraint forces the flag to 0 or 1: its polynomial
        // stays below the modulus in magnitude, so it must vanish exactly.
        assert(range_poly(f, 2) == range_poly(f, 1) * (1 - f));
        assert(range_poly(f, 1) == f);
        if f != 0 && f != 1 {
            assert((2 <= f < pow2(64)) ==> (-(pow2(64) * pow2(64)) < f * (1 - f) <= -2))
                by (nonlinear_arith);
            lemma_pow2_adds(64, 64);
            lemma_mod_zero_iff_zero(f * (1 - f), field_modulus());
            assert(false);
        }
        // The master term forces the flag to 1.
        assert((f - 1) % field_modulus() == 0);
        lemma_mod_zero_iff_zero(f - 1, field_modulus());
        assert(f == 1);
        // The difference decomposition then decides the comparison.
        lemma_comparator_decides(lhs, rhs, f, byte_vals(g, i));
    }
}

/// No rearrangement of a value multiset with a duplicate satisfies the
/// gates: satisfied gates force strictly increasing, hence distinct,
/// outputs, and a permutation carries that distinctness back to the inputs.
pub proof fn lemma_duplicate_values_unsatisfiable(
    a: Assignment,
    values: Seq<u64>,
    idx: Seq<usize>,
)
    requires
        a.wf(),
        values.len() == 8,
        crate::sort::is_index_perm(idx, 8),
        forall|t: int| 0 <= t < 8 ==> out_cell(a.grid(), t) == values[#[trigger] idx[t] as int],
        !crate::sort::distinct(values),
    ensures
        !gates_ok(a.grid()),
{
    let g = a.grid();
    if gates_ok(g) {
        lemma_gates_force_sorted(a);
        let outs = Seq::new(8, |t: int| values[idx[t] as int]);
        assert forall|t: int| 0 <= t < outs.len() - 1 implies #[trigger] outs[t] < outs[t + 1] by {
            assert(outs[t] == out_cell(g, t));
            assert(outs[t + 1] == out_cell(g, t + 1));
        }
        crate::sort::lemma_strictly_increasing_distinct(outs);
        crate::sort::lemma_perm_preserves_distinct(values, idx, outs);
        assert(false);
    }
}

/// Decide whether comparator i's constraints and its master-gate term hold
/// on a region's grid.
fn check_comparator(a: &Assignment, i: usize) -> (r: bool)
    requires
        a.wf(),
        i < 7,
    ensures
        r == (comparator_ok(a.grid(), i as int)
            && (lt_cell(a.grid(), i as int) - 1) % field_modulus() == 0),
{
    let ghost g = a.grid();
    proof {
        lemma2_to64();
        lemma2_to64_rest();
        lemma_pow2_le_modulus(128);
        lemma_pow2_le_modulus(66);
    }
    let base: usize = 2 + i;
    let lt = a.cells[base];
    proof {
        assert(lt_cell(g, i as int) == a.cells@[base as int]);
    }
    let mut bytes_ok = true;
    let mut dacc: i128 = 0;
    let mut mult: i128 = 1;
    let mut k: usize = 0;
    while k < 8
        invariant
            a.wf(),
            g == a.grid(),
            i < 7,
            base == 2 + i,
            k <= 8,
            mult == pow2((8 * k) as nat),
            bytes_ok ==> bytes_upto(g, i as int, k as int),
            bytes_ok ==> dacc == byte_seq_val(byte_vals(g, i as int).take(k as int)),
            0 <= dacc < 0x10000000000000000i128,
            !bytes_ok ==> !bytes_upto(g, i as int, 8),
        decreases 8 - k,
    {
        proof {
            lemma2_to64();
            lemma2_to64_rest();
        }
        let b = a.cells[(1 + k) * 10 + base];
        proof {
            assert(byte_cell(g, i as int, k as int)
                == a.cells@[((1 + k) * 10 + base) as int]);
        }
        if b >= 256 {
            if bytes_ok {
                proof {
                    assert(!(0 <= byte_cell(g, i as int, k as int) < 256));
                }
            }
            bytes_ok = false;
            proof {
                assert(!bytes_upto(g, i as int, 8));
            }
        } else if bytes_ok {
            proof {
                vstd::arithmetic::power2::lemma_pow2_strictly_increases((8 * k) as nat, 64);
                if 8 * k < 56 {
                    vstd::arithmetic::power2::lemma_pow2_strictly_increases((8 * k) as nat, 56);
                }
                let m = pow2((8 * k) as nat);
                assert((0 <= b < 256 && 0 < m <= pow2(56))
                    ==> (0 <= b * m && b * m <= 255 * pow2(56))) by (nonlinear_arith);
                let taken = byte_vals(g, i as int).take(k as int + 1);
                assert(taken.drop_last() =~= byte_vals(g, i as int).take(k as int));
                assert(taken.last() == byte_cell(g, i as int, k as int));
                lemma_byte_seq_val_bounds(taken);
                lemma_pow2_adds((8 * k) as nat, 8);
                if 8 * (k + 1) < 64 {
                    vstd::arithmetic::power2::lemma_pow2_strictly_increases(
                        (8 * (k + 1)) as nat, 64);
                }
            }
            dacc = dacc + (b as i128) * mult;
        }
        proof {
            lemma_pow2_adds((8 * k) as nat, 8);
            vstd::arithmetic::power2::lemma_pow2_strictly_increases((8 * k) as nat, 64);
        }
        mult = mult * 256;
        k = k + 1;
    }
    if !bytes_ok {
        return false;
    }
    proof {
        assert(byte_vals(g, i as int).take(8) =~= byte_vals(g, i as int));
        assert(dacc == diff_val(g, i as int));
    }
    let lt_ok = lt == 0 || lt == 1;
    proof {
        let f = lt_cell(g, i as int);
        assert(range_poly(f, 2) == range_poly(f, 1) * (1 - f));
        assert(range_poly(f, 1) == f);
        if lt_ok {
            assert((f == 0 || f == 1) ==> f * (1 - f) == 0) by (nonlinear_arith);
            lemma_mod_zero_iff_zero(0, field_modulus());
        } else {
            assert(2 <= f < pow2(64));
            assert((2 <= f < pow2(64)) ==> (-(pow2(64) * pow2(64)) < f * (1 - f) <= -2))
                by (nonlinear_arith);
            lemma_pow2_adds(64, 64);
            lemma_mod_zero_iff_zero(f * (1 - f), field_modulus());
        }
    }
    if !lt_ok {
        return false;
    }
    let lhs = a.cells[i * 10 + 1];
    let rhs = a.cells[(i + 1) * 10 + 1];
    proof {
        assert(out_cell(g, i as int) == a.cells@[(i * 10 + 1) as int]);
        assert(out_cell(g, i as int + 1) == a.cells@[((i + 1) * 10 + 1) as int]);
    }
    let v: i128 = lhs as i128 - rhs as i128 - dacc + (lt as i128) * 0x10000000000000000i128;
    let main_ok = v == 0;
    let master_ok_term = lt == 1;
    proof {
        let target = out_cell(g, i as int) - out_cell(g, i as int + 1) - diff_val(g, i as int)
            + lt_cell(g, i as int) * pow2(64);
        assert(target == v as int);
        lemma_mod_zero_iff_zero(target, field_modulus());
        lemma_mod_zero_iff_zero(lt_cell(g, i as int) - 1, field_modulus());
    }
    main_ok && master_ok_term
}

/// Decide whether every gate constraint of the chip holds on a region's
/// grid: the model-level counterpart of handing the region to a verifier.
pub fn check_gates(a: &Assignment) -> (r: bool)
    requires
        a.wf(),
    ensures
        r == gates_ok(a.grid()),
{
    let ghost g = a.grid();
    let mut ok = true;
    let mut i: usize = 0;
    while i < 7
        invariant
            a.wf(),
            g == a.grid(),
            i <= 7,
            ok == (master_upto(g, i as int) && comparators_upto(g, i as int)),
        decreases 7 - i,
    {
        let ci = check_comparator(a, i);
        proof {
            if ok && ci {
                assert forall|ii: int| 0 <= ii < i + 1
                    implies (#[trigger] lt_cell(g, ii) - 1) % field_modulus() == 0 by {
                }
                assert forall|ii: int| 0 <= ii < i + 1
                    implies #[trigger] comparator_ok(g, ii) by {
                }
            } else {
                if master_upto(g, i as int + 1) && comparators_upto(g, i as int + 1) {
                    assert(master_upto(g, i as int));
                    assert(comparators_upto(g, i as int));
                    assert((lt_cell(g, i as int) - 1) % field_modulus() == 0);
                    assert(comparator_ok(g, i as int));
                }
            }
        }
        ok = ok && ci;
        i = i + 1;
    }
    ok
}

} // verus!
