//! Integer side of the streaming central-moment estimator: the binomial
//! coefficients of the one-pass update rule and the check on class labels.

use vstd::prelude::*;
use vstd::arithmetic::power2::{pow2, lemma_pow2_unfold, lemma_pow2_strictly_increases, lemma2_to64_rest};
use crate::topology::BpError;

verus! {

/// The binomial coefficient `C(n, k)`, by Pascal's rule.
pub open spec fn binom(n: nat, k: nat) -> nat
    decreases n,
{
    if k == 0 {
        1
    } else if n == 0 {
        0
    } else {
        binom((n - 1) as nat, (k - 1) as nat) + binom((n - 1) as nat, k)
    }
}

proof fn lemma_binom_bound(n: nat, k: nat)
    ensures
        binom(n, k) <= pow2(n),
    decreases n,
{
    if k == 0 {
        vstd::arithmetic::power2::lemma_pow2_pos(n);
    } else if n > 0 {
        lemma_binom_bound((n - 1) as nat, (k - 1) as nat);
        lemma_binom_bound((n - 1) as nat, k);
        lemma_pow2_unfold(n);
    }
}

/// The row `C(n, 0), ..., C(n, n)` of Pascal's triangle.
pub fn binomial_row(n: usize) -> (r: Vec<u64>)
    requires
        n <= 63,
    ensures
        r@.len() == n + 1,
        forall|k: int| 0 <= k <= n ==> #[trigger] r@[k] as nat == binom(n as nat, k as nat),
{
    let mut row: Vec<u64> = Vec::new();
    row.push(1);
    let mut i: usize = 0;
    while i < n
        invariant
            i <= n <= 63,
            row@.len() == i + 1,
            forall|k: int| 0 <= k <= i ==> #[trigger] row@[k] as nat == binom(i as nat, k as nat),
        decreases n - i,
    {
        let mut next: Vec<u64> = Vec::new();
        next.push(1);
        let mut k: usize = 1;
        while k <= i
            invariant
                1 <= k <= i + 1,
                i < n <= 63,
                row@.len() == i + 1,
                forall|m: int| 0 <= m <= i ==> #[trigger] row@[m] as nat == binom(i as nat, m as nat),
                next@.len() == k,
                forall|m: int| 0 <= m < k ==> #[trigger] next@[m] as nat == binom((i + 1) as nat, m as nat),
            decreases i + 1 - k,
        {
            proof {
                lemma_binom_bound((i + 1) as nat, k as nat);
                lemma_pow2_strictly_increases((i + 1) as nat, 64);
                lemma2_to64_rest();
                assert(binom((i + 1) as nat, k as nat) == binom(i as nat, (k - 1) as nat) + binom(i as nat, k as nat));
            }
            next.push(row[k - 1] + row[k]);
            k += 1;
        }
        proof {
            assert(binom(i as nat, (i + 1) as nat) == 0) by {
                lemma_binom_beyond(i as nat, (i + 1) as nat);
            }
            lemma_binom_beyond(i as nat, (i + 1) as nat);
            assert(binom((i + 1) as nat, (i + 1) as nat) == binom(i as nat, i as nat) + binom(i as nat, (i + 1) as nat));
        }
        next.push(row[i]);
        row = next;
        i += 1;
    }
    row
}

proof fn lemma_binom_beyond(n: nat, k: nat)
    requires
        k > n,
    ensures
        binom(n, k) == 0,
    decreases n,
{
    if n > 0 {
        lemma_binom_beyond((n - 1) as nat, (k - 1) as nat);
        lemma_binom_beyond((n - 1) as nat, k);
    }
}

/// The terms of the one-pass update of the central sum of order `j`, highest
/// order first: for `j` from `2 * d` down to 2, the pairs `(C(j, k), k)` for
/// `k` in `1..=j-2`.
pub fn update_coefficients(d: usize) -> (r: Vec<(usize, Vec<(u64, usize)>)>)
    requires
        d <= 31,
    ensures
        r@.len() == if d == 0 { 0 } else { 2 * d - 1 },
        forall|t: int| 0 <= t < r@.len() ==> (#[trigger] r@[t]).0 == 2 * d - t && r@[t].1@.len() == r@[t].0 - 2,
        forall|t: int, k: int| 0 <= t < r@.len() && 1 <= k <= r@[t].0 - 2 ==> #[trigger] r@[t].1@[k - 1]
            == (binom(r@[t].0 as nat, k as nat) as u64, k as usize),
{
    let mut out: Vec<(usize, Vec<(u64, usize)>)> = Vec::new();
    let mut j: usize = 2 * d;
    while j >= 2
        invariant
            d <= 31,
            j <= 2 * d,
            d == 0 ==> j == 0,
            d > 0 ==> j >= 1,
            out@.len() == 2 * d - j,
            forall|t: int| 0 <= t < out@.len() ==> (#[trigger] out@[t]).0 == 2 * d - t && out@[t].1@.len() == out@[t].0 - 2,
            forall|t: int, k: int| 0 <= t < out@.len() && 1 <= k <= out@[t].0 - 2 ==> #[trigger] out@[t].1@[k - 1]
                == (binom(out@[t].0 as nat, k as nat) as u64, k as usize),
        decreases j,
    {
        let row = binomial_row(j);
        let mut terms: Vec<(u64, usize)> = Vec::new();
        let mut k: usize = 1;
        while k + 1 < j
            invariant
                2 <= j <= 62,
                1 <= k <= j - 1,
                row@.len() == j + 1,
                forall|m: int| 0 <= m <= j ==> #[trigger] row@[m] as nat == binom(j as nat, m as nat),
                terms@.len() == k - 1,
                forall|m: int| 1 <= m < k ==> #[trigger] terms@[m - 1] == (binom(j as nat, m as nat) as u64, m as usize),
            decreases j - k,
        {
            terms.push((row[k], k));
            k += 1;
        }
        out.push((j, terms));
        j -= 1;
    }
    proof {
        if d > 0 {
            assert(j == 1);
        }
    }
    out
}

/// Every class label is 0 or 1.
pub open spec fn labels_ok(y: Seq<u16>) -> bool {
    forall|i: int| 0 <= i < y.len() ==> #[trigger] y[i] <= 1
}

/// Checks the class labels of a batch of traces.
pub fn check_labels(y: &Vec<u16>) -> (r: Result<(), BpError>)
    ensures
        r is Ok <==> labels_ok(y@),
        r is Err ==> r->Err_0 is InvalidLabel,
{
    let mut i: usize = 0;
    while i < y.len()
        invariant
            i <= y@.len(),
            forall|k: int| 0 <= k < i ==> #[trigger] y@[k] <= 1,
        decreases y@.len() - i,
    {
        if y[i] > 1 {
            return Err(BpError::InvalidLabel);
        }
        i += 1;
    }
    Ok(())
}

} // verus!
