//! Model of the prime field the circuit works over.
//!
//! Field elements are modeled by their canonical integer representative in
//! `[0, field_modulus())`. Every value the circuit itself manipulates fits in
//! the fixed byte width of the comparator (eight bytes), so the executable
//! representation carries a `u128`, which is always canonical because the
//! modulus exceeds `2^128`.

use vstd::prelude::*;

verus! {

use vstd::arithmetic::power2::{pow2, lemma_pow2_adds, lemma_pow2_strictly_increases,
    lemma_pow2_unfold, lemma2_to64, lemma2_to64_rest};
use vstd::arithmetic::div_mod::{lemma_small_mod, lemma_mod_multiples_vanish};

/// The modulus of the field: the order of the base field of the Pallas curve,
/// the field the proving backend instantiates the circuit with.
pub open spec fn field_modulus() -> int {
    0x40000000000000000000000000000000224698fc0994a8dd8c46eb2100000001int
}

/// A field element held by its canonical representative.
///
/// Only values below `2^128` occur in the circuit description (constants,
/// byte-recomposition weights, powers of two up to the comparator range), and
/// `2^128 < field_modulus()`, so the representative is always canonical.
#[derive(Clone, Copy, PartialEq, Eq, Structural, Debug)]
pub struct Felt {
    pub rep: u128,
}

impl Felt {
    /// The integer this field element stands for.
    pub open spec fn as_int(self) -> int {
        self.rep as int
    }

    /// Embed a machine word into the field.
    pub fn from_u64(v: u64) -> (r: Felt)
        ensures
            r.as_int() == v as int,
    {
        Felt { rep: v as u128 }
    }
}

/// `pow2(k) < field_modulus()` for every exponent up to 254; in particular
/// every `u128` representative is canonical.
pub proof fn lemma_pow2_le_modulus(k: nat)
    requires
        k <= 254,
    ensures
        pow2(k) < field_modulus(),
{
    lemma2_to64();
    lemma2_to64_rest();
    lemma_pow2_adds(64, 64);
    lemma_pow2_adds(128, 64);
    lemma_pow2_adds(192, 62);
    assert(pow2(254) < field_modulus());
    if k < 254 {
        lemma_pow2_strictly_increases(k, 254);
    }
}

/// A residue strictly between `-m` and `m` is divisible by `m` exactly when
/// it is zero.
pub proof fn lemma_mod_zero_iff_zero(v: int, m: int)
    requires
        0 < m,
        -m < v < m,
    ensures
        (v % m == 0) <==> (v == 0),
{
    if v >= 0 {
        lemma_small_mod(v as nat, m as nat);
    } else {
        lemma_mod_multiples_vanish(1, v, m);
        lemma_small_mod((m + v) as nat, m as nat);
    }
}

/// Returns `2^by` as a field element.
///
/// The exponent is limited by the executable representation; the circuit only
/// ever asks for exponents up to the comparator's bit width.
pub fn pow_of_two(by: usize) -> (r: Felt)
    requires
        by < 128,
    ensures
        r.as_int() == pow2(by as nat),
{
    let mut acc: u128 = 1;
    let mut i: usize = 0;
    proof {
        lemma2_to64();
    }
    while i < by
        invariant
            i <= by < 128,
            acc == pow2(i as nat),
        decreases by - i,
    {
        proof {
            lemma_pow2_unfold((i + 1) as nat);
            lemma_pow2_adds(64, 63);
            lemma2_to64();
            lemma2_to64_rest();
            if i + 1 < 127 {
                lemma_pow2_strictly_increases((i + 1) as nat, 127);
            }
        }
        acc = acc * 2;
        i = i + 1;
    }
    Felt { rep: acc }
}

} // verus!
