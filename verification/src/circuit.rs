//! The circuit driver: computes the private sorting permutation and runs the
//! chip's configure / assign / expose-public lifecycle for one proof.

use vstd::prelude::*;

verus! {

use crate::chip::{Assignment, SortNChip, SortNConfig, constraints_hold, gates_ok, out_cell,
    sel_fire_row};
use crate::expr::cell;
use crate::sort::{sort_with_indices, sorted_nonstrict, strictly_increasing, distinct,
    is_rearrangement, lemma_sorted_strict_iff_distinct, lemma_perm_preserves_distinct};

/// The sorting circuit: eight private field-element values, each within the
/// comparator's eight-byte width.
pub struct SortNCircuit {
    /// The unsorted private inputs.
    pub values: Vec<u64>,
}

impl SortNCircuit {
    /// A circuit over the given inputs.
    pub fn new(values: Vec<u64>) -> (c: SortNCircuit)
        ensures
            c.values == values,
    {
        SortNCircuit { values }
    }

    /// The same circuit shape with every witness zeroed, as key generation
    /// wants it.
    pub fn without_witnesses(&self) -> (c: SortNCircuit)
        ensures
            c.values@.len() == self.values@.len(),
            forall|t: int| 0 <= t < c.values@.len() ==> #[trigger] c.values@[t] == 0,
    {
        let mut zeroes: Vec<u64> = Vec::new();
        let mut t: usize = 0;
        let n = self.values.len();
        while t < n
            invariant
                t <= n,
                zeroes@.len() == t,
                forall|u: int| 0 <= u < t ==> #[trigger] zeroes@[u] == 0,
            decreases n - t,
        {
            zeroes.push(0);
            t = t + 1;
        }
        SortNCircuit { values: zeroes }
    }

    /// Build the constraint system once at setup.
    pub fn configure() -> (cfg: SortNConfig)
        ensures
            cfg.num_advice == 16,
            cfg.selector_rows@.len() == 8,
            forall|s: int| 0 <= s < 8
                ==> (#[trigger] cfg.selector_rows@[s]) as int == sel_fire_row(s),
            forall|adv: Seq<Seq<int>>| #[trigger] constraints_hold(cfg.constraints@, adv)
                <==> gates_ok(adv),
    {
        SortNChip::configure()
    }

    /// One proof's synthesis: sort the private values, assign the witness
    /// region along the resulting permutation, and expose the sorted outputs
    /// on the public instance.
    ///
    /// Synthesis always succeeds structurally; whether the region satisfies
    /// the gates is a separate question, answered by the final clause: the
    /// gates hold exactly when the inputs are pairwise distinct, because the
    /// sortedness gate demands strict increase between every adjacent pair
    /// of outputs.
    pub fn synthesize(&self, config: SortNConfig) -> (a: Assignment)
        requires
            self.values@.len() == 8,
        ensures
            a.wf(),
            a.copies_ok(),
            a.inst_copies_ok(),
            a.instance@.len() == 16,
            forall|t: int| 0 <= t < 8 ==> #[trigger] a.instance@[t] == self.values@[t],
            sorted_nonstrict(a.instance@.subrange(8, 16)),
            exists|idx: Seq<usize>| is_rearrangement(
                a.instance@.subrange(8, 16), self.values@, idx),
            gates_ok(a.grid()) <==> distinct(self.values@),
    {
        let chip = SortNChip::construct(config);
        let sorted_pair = sort_with_indices(&self.values);
        let sorted_vals = sorted_pair.0;
        let indices = sorted_pair.1;
        let mut a = chip.assign(&self.values, &indices, &sorted_vals);
        let ghost a0 = a;
        let mut t: usize = 0;
        while t < 8
            invariant
                t <= 8,
                sorted_vals@.len() == 8,
                a.wf(),
                a.copies_ok(),
                a.inst_copies_ok(),
                a.cells@ == a0.cells@,
                a.instance@ == a0.instance@,
                a.copies@ == a0.copies@,
                a.grid() == a0.grid(),
                a.instance@.len() == 16,
                forall|u: int| 0 <= u < 8
                    ==> out_cell(a.grid(), u) == #[trigger] sorted_vals@[u],
                forall|u: int| 0 <= u < 8
                    ==> #[trigger] a.instance@[8 + u] == sorted_vals@[u],
            decreases 8 - t,
        {
            proof {
                assert(cell(a.grid(), t as int, 1) == out_cell(a.grid(), t as int));
            }
            chip.expose_public(&mut a, t, 1, 8 + t);
            t = t + 1;
        }
        proof {
            let outs = a.instance@.subrange(8, 16);
            assert forall|u: int| 0 <= u < 8 implies outs[u] == sorted_vals@[u] by {
                assert(outs[u] == a.instance@[8 + u]);
                assert(a.instance@[8 + u] == sorted_vals@[u]);
            }
            assert(outs =~= sorted_vals@);
            assert(is_rearrangement(outs, self.values@, indices@));
            lemma_sorted_strict_iff_distinct(sorted_vals@);
            lemma_perm_preserves_distinct(self.values@, indices@, sorted_vals@);
            assert(gates_ok(a.grid()) <==> strictly_increasing(sorted_vals@));
        }
        a
    }
}

} // verus!
