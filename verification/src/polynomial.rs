//! The exponent data of tropical polynomials: each monomial contributes one
//! exponent vector, and a polynomial keeps all of them in one dimension.
use crate::newton_polytope::{sum_of_coords, total_degree};
use vstd::prelude::*;

verus! {

/// The largest length among the first `k` exponent vectors (zero if none).
pub open spec fn max_len_prefix(rows: Seq<Vec<u32>>, k: nat) -> nat
    decreases k,
{
    if k == 0 {
        0
    } else {
        let m = max_len_prefix(rows, (k - 1) as nat);
        let l = rows[k - 1]@.len();
        if l > m {
            l
        } else {
            m
        }
    }
}

/// The number of variables of a polynomial with these exponent vectors: the
/// longest one.
pub open spec fn num_vars(rows: Seq<Vec<u32>>) -> nat {
    max_len_prefix(rows, rows.len())
}

/// `x` padded with zeros to length `n`.
pub open spec fn padded(x: Seq<u32>, n: nat) -> Seq<u32> {
    Seq::new(n, |k: int| if k < x.len() { x[k] } else { 0u32 })
}

proof fn lemma_max_len_bounds(rows: Seq<Vec<u32>>, k: nat)
    requires
        k <= rows.len(),
    ensures
        forall|i: int| 0 <= i < k ==> (#[trigger] rows[i])@.len() <= max_len_prefix(rows, k),
        k > 0 ==> exists|i: int| 0 <= i < k && (#[trigger] rows[i])@.len() == max_len_prefix(rows, k),
    decreases k,
{
    if k > 0 {
        lemma_max_len_bounds(rows, (k - 1) as nat);
        if k > 1 {
            let i = choose|i: int| 0 <= i < k - 1 && (#[trigger] rows[i])@.len() == max_len_prefix(rows, (k - 1) as nat);
        }
    }
}

/// Extend every exponent vector with zeros to the number of variables of
/// the polynomial (the length of the longest).
pub fn normalize_exponents(rows: Vec<Vec<u32>>) -> (r: Vec<Vec<u32>>)
    ensures
        r.len() == rows.len(),
        forall|i: int| 0 <= i < rows.len() ==> (#[trigger] r[i])@ == padded(rows[i]@, num_vars(rows@)),
        forall|i: int, j: int| 0 <= i < r.len() && 0 <= j < rows.len() ==> (#[trigger] r[i])@.len() >= (#[trigger] rows[j])@.len(),
        forall|i: int| 0 <= i < r.len() ==> (#[trigger] r[i])@.take(rows[i]@.len() as int) == rows[i]@,
{
    let n = rows.len();
    let mut nvar: usize = 0;
    let mut i: usize = 0;
    while i < n
        invariant
            n == rows.len(),
            i <= n,
            nvar == max_len_prefix(rows@, i as nat),
        decreases n - i,
    {
        if rows[i].len() > nvar {
            nvar = rows[i].len();
        }
        i += 1;
    }
    proof {
        lemma_max_len_bounds(rows@, n as nat);
    }
    let mut r: Vec<Vec<u32>> = Vec::new();
    let mut k: usize = 0;
    while k < n
        invariant
            n == rows.len(),
            nvar == num_vars(rows@),
            forall|i: int| 0 <= i < n ==> (#[trigger] rows[i])@.len() <= nvar,
            k <= n,
            r.len() == k,
            forall|i: int| 0 <= i < k ==> (#[trigger] r[i])@ == padded(rows[i]@, nvar as nat),
        decreases n - k,
    {
        let mut row = rows[k].clone();
        assert(row@ =~= rows[k as int]@);
        assert(row.len() <= nvar);
        while row.len() < nvar
            invariant
                nvar == num_vars(rows@),
                k < n,
                n == rows.len(),
                rows[k as int]@.len() <= row.len() <= nvar,
                forall|j: int| 0 <= j < row.len() ==> #[trigger] row@[j] == (if j < rows[k as int]@.len() { rows[k as int]@[j] } else { 0u32 }),
            decreases nvar - row.len(),
        {
            row.push(0);
        }
        assert(row@ =~= padded(rows[k as int]@, nvar as nat));
        r.push(row);
        k += 1;
    }
    proof {
        lemma_normalized_rows(rows@, r@);
    }
    r
}

/// Padding keeps every monomial's exponents and gives every row the length
/// of the longest input row: each padded row starts with its input row, is
/// at least as long as every input row, and all padded rows have the length
/// of one of the input rows.
pub proof fn lemma_normalized_rows(rows: Seq<Vec<u32>>, r: Seq<Vec<u32>>)
    requires
        r.len() == rows.len(),
        forall|i: int| 0 <= i < rows.len() ==> (#[trigger] r[i])@ == padded(rows[i]@, num_vars(rows)),
    ensures
        forall|i: int, j: int| 0 <= i < r.len() && 0 <= j < rows.len() ==> (#[trigger] r[i])@.len() >= (#[trigger] rows[j])@.len(),
        forall|i: int| 0 <= i < r.len() ==> (#[trigger] r[i])@.take(rows[i]@.len() as int) == rows[i]@,
        rows.len() > 0 ==> exists|j: int|
            #![trigger rows[j]]
            0 <= j < rows.len() && forall|i: int| 0 <= i < r.len() ==> (#[trigger] r[i])@.len() == rows[j]@.len(),
{
    lemma_max_len_bounds(rows, rows.len());
    assert forall|i: int, j: int| 0 <= i < r.len() && 0 <= j < rows.len() implies (#[trigger] r[i])@.len() >= (#[trigger] rows[j])@.len() by {
        assert(r[i]@ == padded(rows[i]@, num_vars(rows)));
        assert(rows[j]@.len() <= max_len_prefix(rows, rows.len()));
    }
    assert forall|i: int| 0 <= i < r.len() implies (#[trigger] r[i])@.take(rows[i]@.len() as int) == rows[i]@ by {
        assert(r[i]@ == padded(rows[i]@, num_vars(rows)));
        assert(rows[i]@.len() <= max_len_prefix(rows, rows.len()));
        assert(r[i]@.take(rows[i]@.len() as int) =~= rows[i]@);
    }
    if rows.len() > 0 {
        let j = choose|j: int| 0 <= j < rows.len() && (#[trigger] rows[j])@.len() == max_len_prefix(rows, rows.len());
        assert forall|i: int| 0 <= i < r.len() implies (#[trigger] r[i])@.len() == rows[j]@.len() by {
            assert(r[i]@ == padded(rows[i]@, num_vars(rows)));
        }
    }
}

/// The largest total degree among the first `k` exponent vectors (zero if none).
pub open spec fn max_total_degree_prefix(rows: Seq<Vec<u32>>, k: nat) -> int
    decreases k,
{
    if k == 0 {
        0
    } else {
        let m = max_total_degree_prefix(rows, (k - 1) as nat);
        let d = total_degree(rows[k - 1]@);
        if d > m {
            d
        } else {
            m
        }
    }
}

/// The total degree of a polynomial: the largest total degree of its
/// monomials (zero for no monomial).
pub fn max_total_degree(rows: &Vec<Vec<u32>>) -> (r: u32)
    requires
        forall|i: int| 0 <= i < rows.len() ==> total_degree(#[trigger] rows[i]@) <= u32::MAX,
    ensures
        r == max_total_degree_prefix(rows@, rows.len() as nat),
        forall|i: int| 0 <= i < rows.len() ==> total_degree(#[trigger] rows[i]@) <= r,
        rows.len() > 0 ==> exists|i: int| 0 <= i < rows.len() && r == total_degree(#[trigger] rows[i]@),
{
    let mut best: u32 = 0;
    let mut i: usize = 0;
    while i < rows.len()
        invariant
            forall|i: int| 0 <= i < rows.len() ==> total_degree(#[trigger] rows[i]@) <= u32::MAX,
            i <= rows.len(),
            best == max_total_degree_prefix(rows@, i as nat),
        decreases rows.len() - i,
    {
        let d = sum_of_coords(&rows[i]);
        if d > best {
            best = d;
        }
        i += 1;
    }
    proof {
        lemma_max_total_degree(rows@);
    }
    best
}

proof fn lemma_total_degree_nonnegative(x: Seq<u32>, k: nat)
    requires
        k <= x.len(),
    ensures
        crate::newton_polytope::coord_sum(x, k) >= 0,
    decreases k,
{
    if k > 0 {
        lemma_total_degree_nonnegative(x, (k - 1) as nat);
    }
}

proof fn lemma_max_total_degree_prefix(rows: Seq<Vec<u32>>, k: nat)
    requires
        k <= rows.len(),
    ensures
        forall|i: int| 0 <= i < k ==> total_degree(#[trigger] rows[i]@) <= max_total_degree_prefix(rows, k),
        k > 0 ==> exists|i: int| 0 <= i < k && max_total_degree_prefix(rows, k) == total_degree(#[trigger] rows[i]@),
    decreases k,
{
    if k > 0 {
        let k1 = (k - 1) as nat;
        lemma_max_total_degree_prefix(rows, k1);
        lemma_total_degree_nonnegative(rows[k1 as int]@, rows[k1 as int]@.len());
        if k1 > 0 {
            let j = choose|j: int| 0 <= j < k1 && max_total_degree_prefix(rows, k1) == total_degree(#[trigger] rows[j]@);
            if max_total_degree_prefix(rows, k) == max_total_degree_prefix(rows, k1) {
                assert(max_total_degree_prefix(rows, k) == total_degree(rows[j]@));
            } else {
                assert(max_total_degree_prefix(rows, k) == total_degree(rows[k1 as int]@));
            }
        } else {
            assert(max_total_degree_prefix(rows, 0) == 0);
            assert(max_total_degree_prefix(rows, k) == total_degree(rows[0]@));
        }
    }
}

/// The total degree of a polynomial bounds the total degree of every one of
/// its monomials, and is the total degree of one of them when there is one.
pub proof fn lemma_max_total_degree(rows: Seq<Vec<u32>>)
    ensures
        forall|i: int| 0 <= i < rows.len() ==> total_degree(#[trigger] rows[i]@) <= max_total_degree_prefix(rows, rows.len()),
        rows.len() > 0 ==> exists|i: int| 0 <= i < rows.len() && max_total_degree_prefix(rows, rows.len()) == total_degree(
            #[trigger] rows[i]@,
        ),
{
    lemma_max_total_degree_prefix(rows, rows.len());
}

} // verus!
