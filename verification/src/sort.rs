//! The private sorting step of witness synthesis: a stable exchange sort
//! that also records, for every output position, the original index its
//! value came from. The recorded indices drive the copy constraints that
//! prove the output is a rearrangement of the input.

use vstd::prelude::*;

verus! {

/// Ascending order, allowing equal neighbours.
pub open spec fn sorted_nonstrict(s: Seq<u64>) -> bool {
    forall|a: int, b: int| 0 <= a < b < s.len() ==> s[a] <= s[b]
}

/// Every adjacent pair strictly increases: the order the sortedness gate
/// demands.
pub open spec fn strictly_increasing(s: Seq<u64>) -> bool {
    forall|a: int| 0 <= a < s.len() - 1 ==> #[trigger] s[a] < s[a + 1]
}

/// No value occurs twice.
pub open spec fn distinct(s: Seq<u64>) -> bool {
    forall|a: int, b: int| 0 <= a < b < s.len() ==> s[a] != s[b]
}

/// Some position of `idx` holds the value `v`.
pub open spec fn appears(idx: Seq<usize>, v: int) -> bool {
    exists|a: int| 0 <= a < idx.len() && (#[trigger] idx[a]) == v
}

/// `idx` is a permutation of the positions `0, …, n-1`.
pub open spec fn is_index_perm(idx: Seq<usize>, n: int) -> bool {
    &&& idx.len() == n
    &&& forall|a: int| 0 <= a < n ==> (#[trigger] idx[a]) < n
    &&& forall|a: int, b: int| 0 <= a < b < n ==> idx[a] != idx[b]
    &&& forall|v: int| 0 <= v < n ==> #[trigger] appears(idx, v)
}

/// `out` is the rearrangement of `values` along the index permutation `idx`.
pub open spec fn is_rearrangement(out: Seq<u64>, values: Seq<u64>, idx: Seq<usize>) -> bool {
    &&& is_index_perm(idx, values.len() as int)
    &&& out.len() == values.len()
    &&& forall|t: int| 0 <= t < out.len() ==> out[t] == values[#[trigger] idx[t] as int]
}

/// A non-strictly sorted sequence strictly increases exactly when its values
/// are pairwise distinct.
pub proof fn lemma_sorted_strict_iff_distinct(s: Seq<u64>)
    requires
        sorted_nonstrict(s),
    ensures
        strictly_increasing(s) <==> distinct(s),
{
    if strictly_increasing(s) {
        assert forall|a: int, b: int| 0 <= a < b < s.len() implies s[a] != s[b] by {
            lemma_strict_chain(s, a, b);
        }
    }
}

/// A strictly increasing sequence has pairwise distinct values.
pub proof fn lemma_strictly_increasing_distinct(s: Seq<u64>)
    requires
        strictly_increasing(s),
    ensures
        distinct(s),
{
    assert forall|a: int, b: int| 0 <= a < b < s.len() implies s[a] != s[b] by {
        lemma_strict_chain(s, a, b);
    }
}

/// In a strictly increasing sequence, a value strictly precedes every later
/// one.
proof fn lemma_strict_chain(s: Seq<u64>, a: int, b: int)
    requires
        strictly_increasing(s),
        0 <= a < b < s.len(),
    ensures
        s[a] < s[b],
    decreases b - a,
{
    if b == a + 1 {
    } else {
        lemma_strict_chain(s, a, b - 1);
        assert(s[b - 1] < s[b]);
    }
}

/// A permutation carries distinctness both ways between the original values
/// and the rearranged ones.
pub proof fn lemma_perm_preserves_distinct(values: Seq<u64>, idx: Seq<usize>, out: Seq<u64>)
    requires
        is_index_perm(idx, values.len() as int),
        out.len() == values.len(),
        forall|a: int| 0 <= a < out.len() ==> out[a] == values[#[trigger] idx[a] as int],
    ensures
        distinct(out) <==> distinct(values),
{
    let n = values.len() as int;
    if distinct(values) {
        assert forall|a: int, b: int| 0 <= a < b < n implies out[a] != out[b] by {
            if idx[a] < idx[b] {
                assert(values[idx[a] as int] != values[idx[b] as int]);
            } else {
                assert(idx[b] < idx[a]);
                assert(values[idx[b] as int] != values[idx[a] as int]);
            }
        }
    }
    if distinct(out) {
        assert forall|p: int, q: int| 0 <= p < q < n implies values[p] != values[q] by {
            assert(appears(idx, p));
            assert(appears(idx, q));
            let a = choose|a: int| 0 <= a < idx.len() && (#[trigger] idx[a]) == p;
            let b = choose|b: int| 0 <= b < idx.len() && (#[trigger] idx[b]) == q;
            assert(out[a] == values[p]);
            assert(out[b] == values[q]);
            if a < b {
                assert(out[a] != out[b]);
            } else {
                assert(b < a);
                assert(out[b] != out[a]);
            }
        }
    }
}

/// Sort the values ascending and report, for each output position, the index
/// of the input the value was taken from.
pub fn sort_with_indices(values: &Vec<u64>) -> (r: (Vec<u64>, Vec<usize>))
    ensures
        r.0@.len() == values@.len(),
        sorted_nonstrict(r.0@),
        is_index_perm(r.1@, values@.len() as int),
        forall|a: int| 0 <= a < values@.len()
            ==> r.0@[a] == values@[#[trigger] r.1@[a] as int],
{
    let n = values.len();
    let mut vals: Vec<u64> = Vec::new();
    let mut idx: Vec<usize> = Vec::new();
    let mut t: usize = 0;
    while t < n
        invariant
            t <= n == values@.len(),
            vals@.len() == t,
            idx@.len() == t,
            forall|a: int| 0 <= a < t ==> vals@[a] == values@[a],
            forall|a: int| 0 <= a < t ==> (#[trigger] idx@[a]) == a,
        decreases n - t,
    {
        vals.push(values[t]);
        idx.push(t);
        t = t + 1;
    }
    proof {
        assert forall|v: int| 0 <= v < n implies #[trigger] appears(idx@, v) by {
            assert(idx@[v] == v);
        }
    }
    let mut i: usize = 1;
    while i < n
        invariant
            1 <= i || n == 0,
            i <= n == values@.len() || n == 0,
            vals@.len() == n,
            idx@.len() == n,
            forall|a: int| 0 <= a < n ==> (#[trigger] idx@[a]) < n,
            forall|a: int, b: int| 0 <= a < b < n ==> idx@[a] != idx@[b],
            forall|v: int| 0 <= v < n ==> #[trigger] appears(idx@, v),
            forall|a: int| 0 <= a < n ==> vals@[a] == values@[#[trigger] idx@[a] as int],
            forall|a: int, b: int| 0 <= a < b < n && n - i + 1 <= b
                ==> vals@[a] <= vals@[b],
        decreases n - i,
    {
        let mut j: usize = 1;
        while j < n - i + 1
            invariant
                1 <= i < n == values@.len(),
                1 <= j <= n - i + 1,
                vals@.len() == n,
                idx@.len() == n,
                forall|a: int| 0 <= a < n ==> (#[trigger] idx@[a]) < n,
                forall|a: int, b: int| 0 <= a < b < n ==> idx@[a] != idx@[b],
                forall|v: int| 0 <= v < n ==> #[trigger] appears(idx@, v),
                forall|a: int| 0 <= a < n ==> vals@[a] == values@[#[trigger] idx@[a] as int],
                forall|a: int, b: int| 0 <= a < b < n && n - i + 1 <= b
                    ==> vals@[a] <= vals@[b],
                forall|a: int| 0 <= a < j ==> #[trigger] vals@[a] <= vals@[j - 1],
            decreases n - i + 1 - j,
        {
            if vals[j] < vals[j - 1] {
                let ghost old_vals = vals@;
                let ghost old_idx = idx@;
                let va = vals[j - 1];
                let vb = vals[j];
                vals.set(j - 1, vb);
                vals.set(j, va);
                let ia = idx[j - 1];
                let ib = idx[j];
                idx.set(j - 1, ib);
                idx.set(j, ia);
                proof {
                    assert forall|v: int| 0 <= v < n implies #[trigger] appears(idx@, v) by {
                        assert(appears(old_idx, v));
                        let w = choose|a: int| 0 <= a < old_idx.len() && (#[trigger] old_idx[a]) == v;
                        if w == j - 1 {
                            assert(idx@[j as int] == v);
                        } else if w == j {
                            assert(idx@[j - 1] == v);
                        } else {
                            assert(idx@[w] == v);
                        }
                    }
                }
            }
            j = j + 1;
        }
        i = i + 1;
    }
    proof {
        if n > 0 {
            assert forall|a: int, b: int| 0 <= a < b < n implies vals@[a] <= vals@[b] by {
                assert(n - n + 1 <= 1);
            }
        }
    }
    (vals, idx)
}

} // verus!
