//! The powerset enumerator: every subset of a finite list, one per bit
//! mask, each subset keeping the order of the original list.

use vstd::prelude::*;
use vstd::arithmetic::power2::pow2;
use vstd::arithmetic::power2::lemma2_to64;
use vstd::arithmetic::power2::lemma_pow2_strictly_increases;

use crate::eval::pow2_u64;

verus! {

/// An element of the input list tagged with the bit that selects it.
#[derive(Clone, Copy, Debug, PartialEq, Eq, Structural)]
pub struct PowerSet {
    pub value: i32,
    pub position: u32,
}

/// Tags each element of the list with its selecting bit, two to its index.
pub fn parse(set: &Vec<i32>) -> (r: Vec<PowerSet>)
    requires
        set@.len() <= 31,
    ensures
        r@.len() == set@.len(),
        forall|j: int|
            0 <= j < r@.len() ==> (#[trigger] r@[j]).value == set@[j] && r@[j].position == pow2(
                j as nat,
            ),
{
    let mut power: Vec<PowerSet> = Vec::new();
    let mut i: usize = 0;
    while i < set.len()
        invariant
            i <= set@.len() <= 31,
            power@.len() == i,
            forall|j: int|
                0 <= j < i ==> (#[trigger] power@[j]).value == set@[j] && power@[j].position
                    == pow2(j as nat),
        decreases set@.len() - i,
    {
        let p = pow2_u64(i);
        proof {
            lemma_pow2_strictly_increases(i as nat, 31);
            lemma2_to64();
        }
        power.push(PowerSet { value: set[i], position: p as u32 });
        i = i + 1;
    }
    power
}

/// The subset of the list that a bit mask selects, read from index `j` on:
/// element `j` belongs to the subset exactly when bit `j` of the mask is
/// set.
pub open spec fn subset_by_mask(set: Seq<i32>, mask: nat, j: int) -> Seq<i32>
    decreases set.len() - j,
{
    if j < 0 || j >= set.len() {
        Seq::empty()
    } else if (mask / pow2(j as nat)) % 2 == 1 {
        seq![set[j]] + subset_by_mask(set, mask, j + 1)
    } else {
        subset_by_mask(set, mask, j + 1)
    }
}

/// Enumerates every subset of the list, one per bit mask from zero up,
/// each subset keeping the order of the original list.
pub fn powerset(set: Vec<i32>) -> (r: Vec<Vec<i32>>)
    requires
        set@.len() <= 31,
    ensures
        r@.len() == pow2(set@.len()),
        forall|m: int|
            0 <= m < r@.len() ==> (#[trigger] r@[m])@ == subset_by_mask(set@, m as nat, 0),
{
    let n = set.len();
    let total = pow2_u64(n);
    proof {
        lemma2_to64();
        if n < 31 {
            lemma_pow2_strictly_increases(n as nat, 31);
        }
    }
    let mut out: Vec<Vec<i32>> = Vec::new();
    let mut i: u64 = 0;
    while i < total
        invariant
            i <= total,
            total == pow2(set@.len()),
            total <= 0x8000_0000,
            n == set@.len() <= 31,
            out@.len() == i,
            forall|m: int|
                0 <= m < i ==> (#[trigger] out@[m])@ == subset_by_mask(set@, m as nat, 0),
        decreases total - i,
    {
        let mut sub: Vec<i32> = Vec::new();
        let mut j: usize = 0;
        while j < n
            invariant
                j <= n,
                n == set@.len() <= 31,
                subset_by_mask(set@, i as nat, 0) == sub@ + subset_by_mask(
                    set@,
                    i as nat,
                    j as int,
                ),
            decreases n - j,
        {
            let p = pow2_u64(j);
            let ghost before = sub@;
            if (i / p) % 2 == 1 {
                sub.push(set[j]);
                proof {
                    assert(subset_by_mask(set@, i as nat, j as int) =~= seq![set@[j as int]]
                        + subset_by_mask(set@, i as nat, j as int + 1));
                    assert(sub@ + subset_by_mask(set@, i as nat, j as int + 1) =~= before
                        + subset_by_mask(set@, i as nat, j as int));
                }
            } else {
                proof {
                    assert(subset_by_mask(set@, i as nat, j as int) == subset_by_mask(
                        set@,
                        i as nat,
                        j as int + 1,
                    ));
                }
            }
            j = j + 1;
        }
        proof {
            assert(subset_by_mask(set@, i as nat, n as int) =~= Seq::<i32>::empty());
            assert(sub@ + Seq::<i32>::empty() =~= sub@);
        }
        out.push(sub);
        i = i + 1;
    }
    out
}

} // verus!
