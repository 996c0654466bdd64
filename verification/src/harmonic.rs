//! Harmonic analysis via tropical geometry.
//!
//! Chords are vectors of integer pitches. The max-plus semiring acts on them
//! elementwise: tropical addition is the maximum, tropical multiplication is
//! ordinary addition. The tropical distance between two chords is the
//! smallest, over all ways of matching their voices, of the largest
//! displacement of a single voice.
use vstd::prelude::*;
use crate::permutation::{
    entries_below, identity_perm, inverse_perm, is_perm, lemma_inverse_perm, lemma_lex_total, lemma_next_arrangement,
    lemma_non_decreasing_is_smallest, lemma_non_increasing_is_largest, lemma_perm_entries_below,
    lemma_lex_asymmetric, lemma_lex_transitive, lemma_rank_bound, lemma_rank_monotone, lex_le, lex_lt, lex_rank, non_decreasing,
    non_increasing,
};

verus! {

// ---------------------------------------------------------------------------
// Mathematical model: vectors over the max-plus semiring
// ---------------------------------------------------------------------------

/// The integers held by a vector of pitches.
pub open spec fn ints(v: Seq<i32>) -> Seq<int> {
    v.map_values(|x: i32| x as int)
}

/// Elementwise tropical sum: the maximum of the two entries.
pub open spec fn max_plus_add(a: Seq<int>, b: Seq<int>) -> Seq<int> {
    Seq::new(a.len(), |i: int| if a[i] >= b[i] { a[i] } else { b[i] })
}

/// Elementwise tropical product: the ordinary sum of the two entries.
pub open spec fn max_plus_mul(a: Seq<int>, b: Seq<int>) -> Seq<int> {
    Seq::new(a.len(), |i: int| a[i] + b[i])
}

/// Tropical scalar multiple: the scalar added to every entry.
pub open spec fn max_plus_scale(s: int, v: Seq<int>) -> Seq<int> {
    Seq::new(v.len(), |i: int| v[i] + s)
}

/// `a` tropically dominates `b`: every entry of `a` is at least the entry of
/// `b` at the same place, over the places that both vectors have.
pub open spec fn dominates(a: Seq<int>, b: Seq<int>) -> bool {
    forall|k: int| 0 <= k < a.len() && k < b.len() ==> a[k] >= b[k]
}

/// The tropical multiplicative identity for vectors of length `n`: all zeros.
pub open spec fn max_plus_one(n: nat) -> Seq<int> {
    Seq::new(n, |i: int| 0)
}

/// Every entrywise sum of `a` and `b` fits in an `i32`.
pub open spec fn sum_fits(a: Seq<i32>, b: Seq<i32>) -> bool {
    forall|i: int| 0 <= i < a.len() ==> i32::MIN <= #[trigger] a[i] + b[i] <= i32::MAX
}

// ---------------------------------------------------------------------------
// Executable vector operations
// ---------------------------------------------------------------------------

/// Tropical addition of two vectors (elementwise max).
pub fn tropical_add(a: &[i32], b: &[i32]) -> (r: Vec<i32>)
    requires
        a.len() == b.len(),
    ensures
        ints(r@) == max_plus_add(ints(a@), ints(b@)),
{
    let mut r: Vec<i32> = Vec::new();
    let mut i: usize = 0;
    while i < a.len()
        invariant
            a.len() == b.len(),
            i <= a.len(),
            r.len() == i,
            forall|k: int| 0 <= k < i ==> r[k] == (if a[k] >= b[k] { a[k] } else { b[k] }),
        decreases a.len() - i,
    {
        let x = a[i];
        let y = b[i];
        r.push(if x >= y { x } else { y });
        i = i + 1;
    }
    assert(ints(r@) =~= max_plus_add(ints(a@), ints(b@)));
    r
}

/// Tropical multiplication of two vectors (elementwise addition).
pub fn tropical_mul(a: &[i32], b: &[i32]) -> (r: Vec<i32>)
    requires
        a.len() == b.len(),
        sum_fits(a@, b@),
    ensures
        ints(r@) == max_plus_mul(ints(a@), ints(b@)),
{
    let mut r: Vec<i32> = Vec::new();
    let mut i: usize = 0;
    while i < a.len()
        invariant
            a.len() == b.len(),
            sum_fits(a@, b@),
            i <= a.len(),
            r.len() == i,
            forall|k: int| 0 <= k < i ==> r[k] == a[k] + b[k],
        decreases a.len() - i,
    {
        assert(i32::MIN <= a[i as int] + b[i as int] <= i32::MAX);
        r.push(a[i] + b[i]);
        i = i + 1;
    }
    assert(ints(r@) =~= max_plus_mul(ints(a@), ints(b@)));
    r
}

/// Tropical scalar multiplication (add scalar to each element).
pub fn tropical_scalar_mul(scalar: i32, v: &[i32]) -> (r: Vec<i32>)
    requires
        forall|i: int| 0 <= i < v.len() ==> i32::MIN <= #[trigger] v[i] + scalar <= i32::MAX,
    ensures
        ints(r@) == max_plus_scale(scalar as int, ints(v@)),
{
    let mut r: Vec<i32> = Vec::new();
    let mut i: usize = 0;
    while i < v.len()
        invariant
            forall|i: int| 0 <= i < v.len() ==> i32::MIN <= #[trigger] v[i] + scalar <= i32::MAX,
            i <= v.len(),
            r.len() == i,
            forall|k: int| 0 <= k < i ==> r[k] == v[k] + scalar,
        decreases v.len() - i,
    {
        assert(i32::MIN <= v[i as int] + scalar <= i32::MAX);
        r.push(v[i] + scalar);
        i = i + 1;
    }
    assert(ints(r@) =~= max_plus_scale(scalar as int, ints(v@)));
    r
}

/// Whether `a` dominates `b` at every place both have.
fn dominates_exec(a: &Vec<i32>, b: &Vec<i32>) -> (r: bool)
    ensures
        r == dominates(ints(a@), ints(b@)),
{
    let mut k: usize = 0;
    while k < a.len() && k < b.len()
        invariant
            k <= a.len(),
            forall|m: int| 0 <= m < k ==> a[m] >= b[m],
        decreases a.len() - k,
    {
        if a[k] < b[k] {
            assert(!(ints(a@)[k as int] >= ints(b@)[k as int]));
            return false;
        }
        k = k + 1;
    }
    true
}

/// The tropical dominance relation of a list of chords.
///
/// `dom[i][j]` holds when `i != j` and chord `i` dominates chord `j`.
pub fn tropical_dominance(chords: &[Vec<i32>]) -> (dom: Vec<Vec<bool>>)
    ensures
        dom.len() == chords.len(),
        forall|i: int| 0 <= i < chords.len() ==> (#[trigger] dom[i]).len() == chords.len(),
        forall|i: int, j: int|
            0 <= i < chords.len() && 0 <= j < chords.len() ==> #[trigger] dom[i][j] == (i != j
                && dominates(ints(chords[i]@), ints(chords[j]@))),
{
    let n = chords.len();
    let mut dom: Vec<Vec<bool>> = Vec::new();
    let mut i: usize = 0;
    while i < n
        invariant
            n == chords.len(),
            i <= n,
            dom.len() == i,
            forall|a: int| 0 <= a < i ==> (#[trigger] dom[a]).len() == n,
            forall|a: int, b: int|
                0 <= a < i && 0 <= b < n ==> #[trigger] dom[a][b] == (a != b && dominates(
                    ints(chords[a]@),
                    ints(chords[b]@),
                )),
        decreases n - i,
    {
        let mut row: Vec<bool> = Vec::new();
        let mut j: usize = 0;
        while j < n
            invariant
                n == chords.len(),
                i < n,
                j <= n,
                row.len() == j,
                forall|b: int|
                    0 <= b < j ==> #[trigger] row[b] == (i != b && dominates(
                        ints(chords[i as int]@),
                        ints(chords[b]@),
                    )),
            decreases n - j,
        {
            if i == j {
                row.push(false);
            } else {
                let d = dominates_exec(&chords[i], &chords[j]);
                row.push(d);
            }
            j = j + 1;
        }
        dom.push(row);
        i = i + 1;
    }
    dom
}


// ---------------------------------------------------------------------------
// Chords in tropical space
// ---------------------------------------------------------------------------

/// The pitches are in ascending order.
pub open spec fn ascending(s: Seq<i32>) -> bool {
    forall|i: int, j: int| 0 <= i < j < s.len() ==> s[i] <= s[j]
}

/// The pitches of `v` in ascending order.
fn sorted_pitches(v: &Vec<i32>) -> (r: Vec<i32>)
    ensures
        ascending(r@),
        r@.to_multiset() == v@.to_multiset(),
{
    broadcast use vstd::seq_lib::group_to_multiset_ensures;

    let mut r: Vec<i32> = Vec::new();
    let mut k: usize = 0;
    while k < v.len()
        invariant
            k <= v.len(),
            ascending(r@),
            r@.to_multiset() == v@.take(k as int).to_multiset(),
        decreases v.len() - k,
    {
        let x = v[k];
        let mut pos: usize = 0;
        while pos < r.len() && r[pos] <= x
            invariant
                pos <= r.len(),
                forall|m: int| 0 <= m < pos ==> r[m] <= x,
            decreases r.len() - pos,
        {
            pos = pos + 1;
        }
        let ghost old_r = r@;
        r.insert(pos, x);
        assert(r@ == old_r.insert(pos as int, x));
        assert(v@.take(k + 1) =~= v@.take(k as int).push(x));
        proof {
            vstd::seq_lib::to_multiset_insert(old_r, pos as int, x);
            v@.take(k as int).to_multiset_ensures();
        }
        assert forall|i: int, j: int| 0 <= i < j < r@.len() implies r@[i] <= r@[j] by {
            if j < pos {
            } else if j == pos {
            } else if i < pos {
                assert(old_r[j - 1] >= old_r[pos as int]);
            } else if i == pos {
                assert(old_r[j - 1] >= old_r[pos as int]);
            } else {
            }
        }
        k = k + 1;
    }
    assert(v@.take(v.len() as int) =~= v@);
    r
}

/// Two ascending pitch lists with the same pitches, counted with
/// multiplicity, are equal.
pub proof fn lemma_ascending_unique(a: Seq<i32>, b: Seq<i32>)
    requires
        ascending(a),
        ascending(b),
        a.to_multiset() == b.to_multiset(),
    ensures
        a == b,
{
    let leq = |x: i32, y: i32| x <= y;
    assert(vstd::relations::total_ordering(leq));
    assert(vstd::relations::sorted_by(a, leq));
    assert(vstd::relations::sorted_by(b, leq));
    vstd::seq_lib::lemma_sorted_unique(a, b, leq);
}

/// A chord embedded in tropical space.
#[derive(Debug, Clone, PartialEq, Eq)]
pub struct TropicalChordSpace {
    /// Chord pitches sorted ascending.
    pub pitches: Vec<i32>,
    /// Dimension of the embedding (equals pitches.len()).
    pub dim: usize,
}

impl TropicalChordSpace {
    /// Create a new tropical chord from raw pitches (will be sorted).
    pub fn new(pitches: Vec<i32>) -> (r: TropicalChordSpace)
        ensures
            ascending(r.pitches@),
            r.pitches@.to_multiset() == pitches@.to_multiset(),
            r.dim == pitches.len(),
    {
        broadcast use vstd::seq_lib::group_to_multiset_ensures;

        let p = sorted_pitches(&pitches);
        assert(p@.len() == p@.to_multiset().len());
        TropicalChordSpace { dim: p.len(), pitches: p }
    }

    /// Project onto a lower-dimensional tropical subspace by keeping the
    /// voices at the given indices.
    pub fn project(&self, keep_indices: &[usize]) -> (r: TropicalChordSpace)
        requires
            forall|k: int| 0 <= k < keep_indices.len() ==> #[trigger] keep_indices[k] < self.pitches.len(),
        ensures
            ascending(r.pitches@),
            r.pitches@.to_multiset() == keep_indices@.map_values(|i: usize| self.pitches@[i as int]).to_multiset(),
            r.dim == keep_indices.len(),
    {
        broadcast use vstd::seq_lib::group_to_multiset_ensures;

        let mut p: Vec<i32> = Vec::new();
        let mut k: usize = 0;
        while k < keep_indices.len()
            invariant
                forall|k: int| 0 <= k < keep_indices.len() ==> #[trigger] keep_indices[k] < self.pitches.len(),
                k <= keep_indices.len(),
                p@ == keep_indices@.take(k as int).map_values(|i: usize| self.pitches@[i as int]),
            decreases keep_indices.len() - k,
        {
            p.push(self.pitches[keep_indices[k]]);
            k = k + 1;
            assert(p@ =~= keep_indices@.take(k as int).map_values(|i: usize| self.pitches@[i as int]));
        }
        assert(keep_indices@.take(keep_indices.len() as int) =~= keep_indices@);
        let dim = p.len();
        let sorted = sorted_pitches(&p);
        TropicalChordSpace { pitches: sorted, dim }
    }
}


// ---------------------------------------------------------------------------
// Voice leadings and the tropical distance between chords
// ---------------------------------------------------------------------------

/// Absolute value of an integer.
pub open spec fn abs_int(x: int) -> int {
    if x < 0 {
        -x
    } else {
        x
    }
}

/// Every pitch of `c1` differs from every pitch of `c2` by an amount whose
/// absolute value fits in an `i32`.
pub open spec fn differences_fit(c1: Seq<i32>, c2: Seq<i32>) -> bool {
    forall|i: int, j: int|
        0 <= i < c1.len() && 0 <= j < c2.len() ==> -i32::MAX <= #[trigger] c1[i] - #[trigger] c2[j]
            <= i32::MAX
}

/// The displacement of voice `i` when it moves from `c1[i]` to `c2[p[i]]`.
pub open spec fn voice_displacement(c1: Seq<i32>, c2: Seq<i32>, p: Seq<usize>, i: int) -> int {
    abs_int(c1[i] - c2[p[i] as int])
}

/// The largest displacement among the first `k` voices (zero when `k == 0`).
pub open spec fn leading_width(c1: Seq<i32>, c2: Seq<i32>, p: Seq<usize>, k: nat) -> int
    decreases k,
{
    if k == 0 {
        0
    } else {
        let w = leading_width(c1, c2, p, (k - 1) as nat);
        let d = voice_displacement(c1, c2, p, k - 1);
        if d > w {
            d
        } else {
            w
        }
    }
}

/// The tropical (max-plus) width of the voice leading that sends voice `i`
/// of `c1` to voice `p[i]` of `c2`: the largest single displacement.
pub open spec fn leading_cost(c1: Seq<i32>, c2: Seq<i32>, p: Seq<usize>) -> int {
    leading_width(c1, c2, p, c1.len())
}

/// `d` is the smallest width over all matchings of the voices of `c1` with
/// those of `c2`: the tropical distance between the chords.
pub open spec fn is_tropical_distance(c1: Seq<i32>, c2: Seq<i32>, d: int) -> bool {
    &&& forall|q: Seq<usize>| is_perm(q, c1.len()) ==> d <= #[trigger] leading_cost(c1, c2, q)
    &&& exists|q: Seq<usize>| is_perm(q, c1.len()) && d == #[trigger] leading_cost(c1, c2, q)
}

/// Step to the lexicographically next arrangement of `perm`, in place.
/// Returns `false`, leaving `perm` unchanged, when `perm` is already the
/// largest arrangement of its entries.
fn next_permutation(perm: &mut Vec<usize>) -> (advanced: bool)
    ensures
        !advanced ==> final(perm)@ == old(perm)@ && non_increasing(old(perm)@),
        advanced ==> {
            &&& final(perm)@.to_multiset() == old(perm)@.to_multiset()
            &&& lex_lt(old(perm)@, final(perm)@)
            &&& forall|q: Seq<usize>|
                q.to_multiset() == old(perm)@.to_multiset() && lex_lt(old(perm)@, q) ==> !lex_lt(
                    q,
                    final(perm)@,
                )
        },
{
    let ghost s = perm@;
    let n = perm.len();
    if n < 2 {
        return false;
    }
    // find largest i such that perm[i] < perm[i+1]
    let mut i = n - 2;
    while perm[i] >= perm[i + 1]
        invariant
            n == perm.len(),
            perm@ == s,
            i + 1 < n,
            forall|a: int, b: int| i + 1 <= a < b < n ==> s[a] >= s[b],
        decreases i,
    {
        if i == 0 {
            return false;
        }
        i -= 1;
    }
    // find largest j > i such that perm[i] < perm[j]
    let mut j = n - 1;
    while perm[i] >= perm[j]
        invariant
            n == perm.len(),
            perm@ == s,
            i < j < n,
            s[i as int] < s[i + 1],
            forall|m: int| j < m < n ==> s[m] <= s[i as int],
        decreases j,
    {
        j -= 1;
    }
    let pi = perm[i];
    let pj = perm[j];
    perm.set(i, pj);
    perm.set(j, pi);
    let ghost t = perm@;
    assert(t == s.update(i as int, s[j as int]).update(j as int, s[i as int]));
    // reverse perm[i+1..]
    let mut lo = i + 1;
    let mut hi = n - 1;
    while lo < hi
        invariant
            n == perm.len(),
            t.len() == n,
            i < lo <= hi + 1,
            hi < n,
            lo + hi == n + i,
            forall|m: int| 0 <= m <= i ==> perm[m] == t[m],
            forall|m: int| lo <= m <= hi ==> perm[m] == t[m],
            forall|m: int| (i < m < lo || hi < m < n) ==> perm[m] == t[n + i - m],
        decreases hi + 1 - lo,
    {
        let a = perm[lo];
        let b = perm[hi];
        perm.set(lo, b);
        perm.set(hi, a);
        lo += 1;
        hi -= 1;
    }
    proof {
        lemma_next_arrangement(s, i as int, j as int, t, perm@);
    }
    true
}

/// The width of the voice leading given by `perm`.
fn leading_width_exec(c1: &Vec<i32>, c2: &Vec<i32>, perm: &Vec<usize>) -> (d: u32)
    requires
        c1.len() == perm.len(),
        entries_below(perm@, c2.len() as nat),
        differences_fit(c1@, c2@),
    ensures
        d == leading_cost(c1@, c2@, perm@),
{
    let mut d: u32 = 0;
    let mut i: usize = 0;
    while i < c1.len()
        invariant
            c1.len() == perm.len(),
            entries_below(perm@, c2.len() as nat),
            differences_fit(c1@, c2@),
            i <= c1.len(),
            d == leading_width(c1@, c2@, perm@, i as nat),
        decreases c1.len() - i,
    {
        let k = perm[i];
        assert(k < c2.len());
        assert(-i32::MAX <= c1@[i as int] - c2@[k as int] <= i32::MAX);
        let diff = c1[i] - c2[k];
        let a: u32 = if diff < 0 {
            (-diff) as u32
        } else {
            diff as u32
        };
        if a > d {
            d = a;
        }
        i += 1;
    }
    d
}

/// The identity arrangement `0, ..., n - 1`.
fn identity_vec(n: usize) -> (v: Vec<usize>)
    ensures
        v@ == identity_perm(n as nat),
{
    let mut v: Vec<usize> = Vec::new();
    let mut i: usize = 0;
    while i < n
        invariant
            i <= n,
            v@ == identity_perm(i as nat),
        decreases n - i,
    {
        v.push(i);
        i += 1;
        assert(v@ =~= identity_perm(i as nat));
    }
    v
}

proof fn lemma_identity_is_smallest(n: nat)
    requires
        n <= usize::MAX,
    ensures
        is_perm(identity_perm(n), n),
        non_decreasing(identity_perm(n)),
        forall|q: Seq<usize>| is_perm(q, n) && lex_le(q, identity_perm(n)) ==> q == identity_perm(n),
{
    assert forall|a: int, b: int| 0 <= a < b < n implies identity_perm(n)[a] <= identity_perm(n)[b] by {
    }
    assert forall|q: Seq<usize>| is_perm(q, n) && lex_le(q, identity_perm(n)) implies q
        == identity_perm(n) by {
        lemma_non_decreasing_is_smallest(identity_perm(n), q);
    }
}

/// After one enumeration step from `prev` to `next`, every arrangement not
/// beyond `next` is `next` itself or not beyond `prev`.
proof fn lemma_enumeration_step(prev: Seq<usize>, next: Seq<usize>, n: nat)
    requires
        is_perm(prev, n),
        next.to_multiset() == prev.to_multiset(),
        lex_lt(prev, next),
        forall|q: Seq<usize>| q.to_multiset() == prev.to_multiset() && lex_lt(prev, q) ==> !lex_lt(q, next),
    ensures
        is_perm(next, n),
        forall|q: Seq<usize>| is_perm(q, n) && lex_le(q, next) ==> q == next || lex_le(q, prev),
        lex_rank(prev, n) < lex_rank(next, n),
{
    broadcast use vstd::seq_lib::group_to_multiset_ensures;

    assert(next.len() == next.to_multiset().len());
    assert(prev.len() == prev.to_multiset().len());
    assert forall|q: Seq<usize>| is_perm(q, n) && lex_le(q, next) implies q == next || lex_le(q, prev) by {
        if q != next {
            lemma_lex_total(q, prev);
        }
    }
    lemma_perm_entries_below(prev, n);
    lemma_perm_entries_below(next, n);
    lemma_rank_monotone(prev, next, n);
}

/// When the enumeration stops at a largest arrangement, every arrangement
/// is not beyond it.
proof fn lemma_enumeration_done(last: Seq<usize>, n: nat)
    requires
        is_perm(last, n),
        non_increasing(last),
    ensures
        forall|q: Seq<usize>| is_perm(q, n) ==> lex_le(q, last),
{
    broadcast use vstd::seq_lib::group_to_multiset_ensures;

    assert forall|q: Seq<usize>| is_perm(q, n) implies lex_le(q, last) by {
        lemma_non_increasing_is_largest(last, q);
        lemma_lex_total(q, last);
    }
}

/// Compute the tropical (max-plus) distance between two chords: the
/// smallest, over all matchings of the voices, of the largest displacement,
/// `min_σ max_i |c1[i] - c2[σ(i)]|`.
///
/// The matchings are enumerated in lexicographic order.
pub fn tropical_chord_distance(c1: Vec<i32>, c2: Vec<i32>) -> (d: u32)
    requires
        c1.len() == c2.len(),
        differences_fit(c1@, c2@),
    ensures
        is_tropical_distance(c1@, c2@, d as int),
{
    let n = c1.len();
    let mut perm = identity_vec(n);
    proof {
        lemma_identity_is_smallest(n as nat);
        lemma_perm_entries_below(perm@, n as nat);
    }
    let mut best = leading_width_exec(&c1, &c2, &perm);
    let ghost mut witness = perm@;
    loop
        invariant
            n == c1.len(),
            n == c2.len(),
            differences_fit(c1@, c2@),
            is_perm(perm@, n as nat),
            forall|q: Seq<usize>| is_perm(q, n as nat) && lex_le(q, perm@) ==> best <= #[trigger] leading_cost(c1@, c2@, q),
            is_perm(witness, n as nat),
            best == leading_cost(c1@, c2@, witness),
        ensures
            is_perm(perm@, n as nat),
            non_increasing(perm@),
        decreases vstd::arithmetic::power::pow(n as int, n as nat) - lex_rank(perm@, n as nat),
    {
        let ghost prev = perm@;
        if !next_permutation(&mut perm) {
            break;
        }
        proof {
            lemma_enumeration_step(prev, perm@, n as nat);
            lemma_perm_entries_below(perm@, n as nat);
            lemma_rank_bound(perm@, n as nat);
        }
        let d = leading_width_exec(&c1, &c2, &perm);
        if d < best {
            best = d;
            proof {
                witness = perm@;
            }
        }
    }
    proof {
        lemma_enumeration_done(perm@, n as nat);
    }
    best
}


/// Result of an optimal voice-leading search between two chords.
#[derive(Debug, Clone, PartialEq, Eq)]
pub struct VoiceLeading {
    /// Starting chord pitches (MIDI-like integers).
    pub from_chord: Vec<i32>,
    /// Target chord pitches.
    pub to_chord: Vec<i32>,
    /// Per-voice displacements (to - from) for the optimal mapping.
    pub displacements: Vec<i32>,
    /// Tropical (max-plus) distance of the optimal voice leading.
    pub tropical_distance: u32,
    /// Permutation mapping: voice i in `from_chord` maps to `permutation[i]` in `to_chord`.
    pub permutation: Vec<usize>,
}

/// The largest absolute value among the first `k` entries (zero when `k == 0`).
pub open spec fn max_abs_prefix(d: Seq<i32>, k: nat) -> int
    decreases k,
{
    if k == 0 {
        0
    } else {
        let m = max_abs_prefix(d, (k - 1) as nat);
        let a = abs_int(d[k - 1] as int);
        if a > m {
            a
        } else {
            m
        }
    }
}

/// The sum of the absolute values of the first `k` entries.
pub open spec fn sum_abs_prefix(d: Seq<i32>, k: nat) -> int
    decreases k,
{
    if k == 0 {
        0
    } else {
        sum_abs_prefix(d, (k - 1) as nat) + abs_int(d[k - 1] as int)
    }
}

proof fn lemma_sum_abs_monotone(d: Seq<i32>, k: nat, l: nat)
    requires
        k <= l <= d.len(),
    ensures
        0 <= sum_abs_prefix(d, k) <= sum_abs_prefix(d, l),
    decreases l,
{
    if k < l {
        lemma_sum_abs_monotone(d, k, (l - 1) as nat);
    } else if l > 0 {
        lemma_sum_abs_monotone(d, (l - 1) as nat, (l - 1) as nat);
    }
}

impl VoiceLeading {
    /// The maximal absolute displacement (voice-leading "width" in tropical metric).
    pub fn maximal_displacement(&self) -> (r: i32)
        requires
            forall|i: int| 0 <= i < self.displacements.len() ==> #[trigger] self.displacements[i] != i32::MIN,
        ensures
            r == max_abs_prefix(self.displacements@, self.displacements.len() as nat),
    {
        let mut m: i32 = 0;
        let mut i: usize = 0;
        while i < self.displacements.len()
            invariant
                forall|i: int| 0 <= i < self.displacements.len() ==> #[trigger] self.displacements[i] != i32::MIN,
                i <= self.displacements.len(),
                m == max_abs_prefix(self.displacements@, i as nat),
                m >= 0,
            decreases self.displacements.len() - i,
        {
            let d = self.displacements[i];
            let a = if d < 0 { -d } else { d };
            if a > m {
                m = a;
            }
            i += 1;
        }
        m
    }

    /// Sum of absolute displacements (L1 norm).
    pub fn total_displacement(&self) -> (r: i32)
        requires
            sum_abs_prefix(self.displacements@, self.displacements.len() as nat) <= i32::MAX,
        ensures
            r == sum_abs_prefix(self.displacements@, self.displacements.len() as nat),
    {
        let mut t: i32 = 0;
        let mut i: usize = 0;
        while i < self.displacements.len()
            invariant
                sum_abs_prefix(self.displacements@, self.displacements.len() as nat) <= i32::MAX,
                i <= self.displacements.len(),
                t == sum_abs_prefix(self.displacements@, i as nat),
            decreases self.displacements.len() - i,
        {
            proof {
                lemma_sum_abs_monotone(self.displacements@, (i + 1) as nat, self.displacements.len() as nat);
                lemma_sum_abs_monotone(self.displacements@, i as nat, i as nat);
            }
            let d = self.displacements[i];
            let a = if d < 0 { -d } else { d };
            t = t + a;
            i += 1;
        }
        t
    }
}

/// One enumeration step keeps the chosen arrangement the lexicographically
/// first one of least width among those seen.
proof fn lemma_first_minimizer_step(
    c1: Seq<i32>,
    c2: Seq<i32>,
    prev: Seq<usize>,
    next: Seq<usize>,
    chosen: Seq<usize>,
    best: int,
    n: nat,
)
    requires
        is_perm(next, n),
        lex_lt(prev, next),
        lex_le(chosen, prev),
        forall|q: Seq<usize>| is_perm(q, n) && lex_le(q, next) ==> q == next || lex_le(q, prev),
        forall|q: Seq<usize>|
            is_perm(q, n) && lex_le(q, prev) && lex_lt(q, chosen) ==> best < #[trigger] leading_cost(c1, c2, q),
    ensures
        lex_le(chosen, next),
        forall|q: Seq<usize>|
            is_perm(q, n) && lex_le(q, next) && lex_lt(q, chosen) ==> best < #[trigger] leading_cost(c1, c2, q),
{
    if chosen != prev {
        lemma_lex_transitive(chosen, prev, next);
    }
    assert forall|q: Seq<usize>| is_perm(q, n) && lex_le(q, next) && lex_lt(q, chosen) implies best
        < #[trigger] leading_cost(c1, c2, q) by {
        if q == next {
            if chosen == prev {
                lemma_lex_asymmetric(prev, next);
            } else {
                lemma_lex_transitive(chosen, prev, next);
                lemma_lex_asymmetric(chosen, next);
            }
        }
    }
}

/// Find the optimal voice leading between two chords using tropical distance.
///
/// Returns the permutation and displacements that minimise the tropical
/// (max-plus) distance; among several optimal permutations, the
/// lexicographically first.
pub fn optimal_voice_leading(from_chord: Vec<i32>, to_chord: Vec<i32>) -> (vl: VoiceLeading)
    requires
        from_chord.len() == to_chord.len(),
        differences_fit(from_chord@, to_chord@),
    ensures
        vl.from_chord@ == from_chord@,
        vl.to_chord@ == to_chord@,
        is_perm(vl.permutation@, from_chord.len() as nat),
        vl.tropical_distance == leading_cost(from_chord@, to_chord@, vl.permutation@),
        is_tropical_distance(from_chord@, to_chord@, vl.tropical_distance as int),
        forall|q: Seq<usize>|
            is_perm(q, from_chord.len() as nat) && leading_cost(from_chord@, to_chord@, q)
                == vl.tropical_distance ==> lex_le(vl.permutation@, q),
        vl.displacements.len() == from_chord.len(),
        forall|i: int|
            0 <= i < from_chord.len() ==> #[trigger] vl.displacements[i] == to_chord[vl.permutation[i] as int]
                - from_chord[i],
{
    let n = from_chord.len();
    if n == 0 {
        proof {
            lemma_identity_is_smallest(0);
            assert(identity_perm(0) =~= Seq::<usize>::empty());
            assert forall|q: Seq<usize>| is_perm(q, 0) implies q == Seq::<usize>::empty() by {
                assert(q =~= Seq::<usize>::empty());
            }
            assert(leading_cost(from_chord@, to_chord@, Seq::<usize>::empty()) == 0);
        }
        return VoiceLeading {
            from_chord: vec![],
            to_chord: vec![],
            displacements: vec![],
            tropical_distance: 0,
            permutation: vec![],
        };
    }
    let mut perm = identity_vec(n);
    proof {
        lemma_identity_is_smallest(n as nat);
        lemma_perm_entries_below(perm@, n as nat);
    }
    let mut best_dist = leading_width_exec(&from_chord, &to_chord, &perm);
    let mut best_perm = perm.clone();
    assert(best_perm@ =~= perm@);
    loop
        invariant
            n == from_chord.len(),
            n == to_chord.len(),
            differences_fit(from_chord@, to_chord@),
            is_perm(perm@, n as nat),
            forall|q: Seq<usize>|
                is_perm(q, n as nat) && lex_le(q, perm@) ==> best_dist <= #[trigger] leading_cost(
                    from_chord@,
                    to_chord@,
                    q,
                ),
            is_perm(best_perm@, n as nat),
            best_dist == leading_cost(from_chord@, to_chord@, best_perm@),
            lex_le(best_perm@, perm@),
            forall|q: Seq<usize>|
                is_perm(q, n as nat) && lex_le(q, perm@) && lex_lt(q, best_perm@) ==> best_dist
                    < #[trigger] leading_cost(from_chord@, to_chord@, q),
        ensures
            is_perm(perm@, n as nat),
            non_increasing(perm@),
        decreases vstd::arithmetic::power::pow(n as int, n as nat) - lex_rank(perm@, n as nat),
    {
        let ghost prev = perm@;
        if !next_permutation(&mut perm) {
            break;
        }
        proof {
            lemma_enumeration_step(prev, perm@, n as nat);
            lemma_perm_entries_below(perm@, n as nat);
            lemma_rank_bound(perm@, n as nat);
            lemma_first_minimizer_step(
                from_chord@,
                to_chord@,
                prev,
                perm@,
                best_perm@,
                best_dist as int,
                n as nat,
            );
        }
        let d = leading_width_exec(&from_chord, &to_chord, &perm);
        if d < best_dist {
            best_dist = d;
            best_perm = perm.clone();
            assert(best_perm@ =~= perm@);
        }
    }
    proof {
        lemma_enumeration_done(perm@, n as nat);
        assert forall|q: Seq<usize>|
            is_perm(q, n as nat) && leading_cost(from_chord@, to_chord@, q) == best_dist implies lex_le(
            best_perm@,
            q,
        ) by {
            lemma_lex_total(q, best_perm@);
        }
    }
    proof {
        lemma_perm_entries_below(best_perm@, n as nat);
    }
    let mut displacements: Vec<i32> = Vec::new();
    let mut i: usize = 0;
    while i < n
        invariant
            n == from_chord.len(),
            n == to_chord.len(),
            n == best_perm.len(),
            differences_fit(from_chord@, to_chord@),
            entries_below(best_perm@, n as nat),
            i <= n,
            displacements.len() == i,
            forall|k: int|
                0 <= k < i ==> #[trigger] displacements[k] == to_chord[best_perm[k] as int]
                    - from_chord[k],
        decreases n - i,
    {
        let k = best_perm[i];
        assert(-i32::MAX <= from_chord@[i as int] - to_chord@[k as int] <= i32::MAX);
        displacements.push(to_chord[k] - from_chord[i]);
        i += 1;
    }
    VoiceLeading {
        from_chord,
        to_chord,
        displacements,
        tropical_distance: best_dist,
        permutation: best_perm,
    }
}

impl TropicalChordSpace {
    /// Tropical (max-plus) distance to another chord of the same dimension.
    pub fn tropical_distance_to(&self, other: &TropicalChordSpace) -> (d: u32)
        requires
            self.pitches.len() == other.pitches.len(),
            differences_fit(self.pitches@, other.pitches@),
        ensures
            is_tropical_distance(self.pitches@, other.pitches@, d as int),
    {
        let a = self.pitches.clone();
        let b = other.pitches.clone();
        assert(a@ =~= self.pitches@);
        assert(b@ =~= other.pitches@);
        tropical_chord_distance(a, b)
    }
}


/// The distance from a chord to itself is zero.
pub proof fn lemma_distance_to_self_is_zero(c: Seq<i32>)
    requires
        c.len() <= usize::MAX,
    ensures
        is_tropical_distance(c, c, 0),
{
    let id = identity_perm(c.len());
    lemma_identity_is_smallest(c.len());
    assert forall|q: Seq<usize>| is_perm(q, c.len()) implies 0 <= #[trigger] leading_cost(c, c, q) by {
        lemma_leading_width_nonnegative(c, c, q, c.len());
    }
    lemma_leading_width_of_identity(c, c.len());
    assert(leading_cost(c, c, id) == 0);
}

/// The width of the first `k` voices is at least each of their
/// displacements, and at most any non-negative bound on all of them.
proof fn lemma_leading_width_is_max(c1: Seq<i32>, c2: Seq<i32>, p: Seq<usize>, k: nat, bound: int)
    ensures
        leading_width(c1, c2, p, k) >= 0,
        forall|i: int| 0 <= i < k ==> #[trigger] voice_displacement(c1, c2, p, i) <= leading_width(c1, c2, p, k),
        bound >= 0 && (forall|i: int| 0 <= i < k ==> #[trigger] voice_displacement(c1, c2, p, i) <= bound)
            ==> leading_width(c1, c2, p, k) <= bound,
    decreases k,
{
    if k > 0 {
        lemma_leading_width_is_max(c1, c2, p, (k - 1) as nat, bound);
    }
}

/// Matching the voices of `c2` back along the inverse arrangement has the
/// same width as matching those of `c1` along `p`.
proof fn lemma_cost_of_inverse(c1: Seq<i32>, c2: Seq<i32>, p: Seq<usize>, n: nat)
    requires
        c1.len() == n,
        c2.len() == n,
        n <= usize::MAX + 1,
        is_perm(p, n),
    ensures
        is_perm(inverse_perm(p), n),
        leading_cost(c2, c1, inverse_perm(p)) == leading_cost(c1, c2, p),
{
    let q = inverse_perm(p);
    lemma_inverse_perm(p, n);
    lemma_perm_entries_below(p, n);
    lemma_perm_entries_below(q, n);
    let m1 = leading_cost(c1, c2, p);
    let m2 = leading_cost(c2, c1, q);
    lemma_leading_width_is_max(c1, c2, p, n, m2);
    lemma_leading_width_is_max(c2, c1, q, n, m1);
    assert forall|i: int| 0 <= i < n implies #[trigger] voice_displacement(c1, c2, p, i) <= m2 by {
        let j = p[i] as int;
        assert(q[j] as int == i);
        assert(voice_displacement(c2, c1, q, j) <= m2);
    }
    assert forall|j: int| 0 <= j < n implies #[trigger] voice_displacement(c2, c1, q, j) <= m1 by {
        let i = q[j] as int;
        assert(p[i] as int == j);
        assert(voice_displacement(c1, c2, p, i) <= m1);
    }
}

proof fn lemma_distance_reversed(c1: Seq<i32>, c2: Seq<i32>, d: int)
    requires
        c1.len() == c2.len() <= usize::MAX,
        is_tropical_distance(c1, c2, d),
    ensures
        is_tropical_distance(c2, c1, d),
{
    let n = c1.len();
    assert forall|r: Seq<usize>| is_perm(r, c2.len()) implies d <= #[trigger] leading_cost(c2, c1, r) by {
        lemma_cost_of_inverse(c2, c1, r, n);
        assert(d <= leading_cost(c1, c2, inverse_perm(r)));
    }
    let q = choose|q: Seq<usize>| is_perm(q, c1.len()) && d == #[trigger] leading_cost(c1, c2, q);
    lemma_cost_of_inverse(c1, c2, q, n);
    assert(is_perm(inverse_perm(q), c2.len()) && d == leading_cost(c2, c1, inverse_perm(q)));
}

/// The tropical distance between chords with the same number of voices is
/// symmetric: `d` is the distance from `c1` to `c2` exactly when it is the
/// distance from `c2` to `c1`.
pub proof fn lemma_distance_symmetric(c1: Seq<i32>, c2: Seq<i32>, d: int)
    requires
        c1.len() == c2.len() <= usize::MAX,
    ensures
        is_tropical_distance(c1, c2, d) <==> is_tropical_distance(c2, c1, d),
{
    if is_tropical_distance(c1, c2, d) {
        lemma_distance_reversed(c1, c2, d);
    }
    if is_tropical_distance(c2, c1, d) {
        lemma_distance_reversed(c2, c1, d);
    }
}

/// The tropical distance between two chords is one number: the width of
/// the voice leading that `optimal_voice_leading` finds is the distance that
/// `tropical_chord_distance` returns.
pub proof fn lemma_distance_unique(c1: Seq<i32>, c2: Seq<i32>, d1: int, d2: int)
    requires
        is_tropical_distance(c1, c2, d1),
        is_tropical_distance(c1, c2, d2),
    ensures
        d1 == d2,
{
    let q1 = choose|q: Seq<usize>| is_perm(q, c1.len()) && d1 == #[trigger] leading_cost(c1, c2, q);
    let q2 = choose|q: Seq<usize>| is_perm(q, c1.len()) && d2 == #[trigger] leading_cost(c1, c2, q);
    assert(d1 <= leading_cost(c1, c2, q2));
    assert(d2 <= leading_cost(c1, c2, q1));
}

/// Following `p` and then `q`.
pub open spec fn compose_perms(p: Seq<usize>, q: Seq<usize>) -> Seq<usize> {
    Seq::new(p.len(), |i: int| q[p[i] as int])
}

/// The tropical distance obeys the triangle inequality on chords with the
/// same number of voices: going from `c1` to `c3` directly is never wider
/// than going through `c2`.
pub proof fn lemma_distance_triangle(c1: Seq<i32>, c2: Seq<i32>, c3: Seq<i32>, d12: int, d23: int, d13: int)
    requires
        c1.len() == c2.len() == c3.len() <= usize::MAX,
        is_tropical_distance(c1, c2, d12),
        is_tropical_distance(c2, c3, d23),
        is_tropical_distance(c1, c3, d13),
    ensures
        d13 <= d12 + d23,
{
    let n = c1.len();
    let p = choose|q: Seq<usize>| is_perm(q, c1.len()) && d12 == #[trigger] leading_cost(c1, c2, q);
    let q = choose|q: Seq<usize>| is_perm(q, c2.len()) && d23 == #[trigger] leading_cost(c2, c3, q);
    let r = compose_perms(p, q);
    lemma_perm_entries_below(p, n);
    lemma_perm_entries_below(q, n);
    crate::permutation::lemma_perm_no_duplicates(p, n);
    crate::permutation::lemma_perm_no_duplicates(q, n);
    assert(r.no_duplicates()) by {
        assert forall|a: int, b: int| 0 <= a < r.len() && 0 <= b < r.len() && a != b implies r[a] != r[b] by {
            assert(p[a] != p[b]);
        }
    }
    assert(entries_below(r, n));
    crate::permutation::lemma_distinct_below_is_perm(r, n);
    lemma_leading_width_is_max(c1, c2, p, n, 0);
    lemma_leading_width_is_max(c2, c3, q, n, 0);
    assert forall|i: int| 0 <= i < n implies #[trigger] voice_displacement(c1, c3, r, i) <= d12 + d23 by {
        let j = p[i] as int;
        assert(voice_displacement(c1, c2, p, i) <= d12);
        assert(voice_displacement(c2, c3, q, j) <= d23);
    }
    lemma_leading_width_is_max(c1, c3, r, n, d12 + d23);
    assert(d13 <= leading_cost(c1, c3, r));
}

/// The voices of `c` rearranged: voice `i` takes the pitch of voice `s[i]`.
pub open spec fn reorder_voices(c: Seq<i32>, s: Seq<usize>) -> Seq<i32> {
    Seq::new(c.len(), |i: int| c[s[i] as int])
}

proof fn lemma_compose_is_perm(p: Seq<usize>, q: Seq<usize>, n: nat)
    requires
        n <= usize::MAX,
        is_perm(p, n),
        is_perm(q, n),
    ensures
        is_perm(compose_perms(p, q), n),
{
    let r = compose_perms(p, q);
    lemma_perm_entries_below(p, n);
    lemma_perm_entries_below(q, n);
    crate::permutation::lemma_perm_no_duplicates(p, n);
    crate::permutation::lemma_perm_no_duplicates(q, n);
    assert(r.no_duplicates()) by {
        assert forall|a: int, b: int| 0 <= a < r.len() && 0 <= b < r.len() && a != b implies r[a] != r[b] by {
            assert(p[a] != p[b]);
        }
    }
    assert(entries_below(r, n));
    crate::permutation::lemma_distinct_below_is_perm(r, n);
}

proof fn lemma_width_after_reorder(c1: Seq<i32>, c2: Seq<i32>, s: Seq<usize>, q: Seq<usize>, k: nat)
    requires
        k <= c1.len(),
        c1.len() == c2.len() == s.len() == q.len(),
        entries_below(q, c1.len()),
    ensures
        leading_width(c1, reorder_voices(c2, s), q, k) == leading_width(c1, c2, compose_perms(q, s), k),
    decreases k,
{
    if k > 0 {
        lemma_width_after_reorder(c1, c2, s, q, (k - 1) as nat);
        assert(q[k - 1] < c1.len());
    }
}

/// Rearranging the voices of the second chord does not change the tropical
/// distance: `d` is the distance from `c1` to `c2` exactly when it is the
/// distance from `c1` to `c2` with its voices reordered by `s`.
pub proof fn lemma_distance_reorder_second(c1: Seq<i32>, c2: Seq<i32>, s: Seq<usize>, d: int)
    requires
        c1.len() == c2.len() <= usize::MAX,
        is_perm(s, c2.len()),
    ensures
        is_tropical_distance(c1, c2, d) <==> is_tropical_distance(c1, reorder_voices(c2, s), d),
{
    let n = c1.len();
    let t = inverse_perm(s);
    crate::permutation::lemma_inverse_perm(s, n);
    lemma_perm_entries_below(s, n);
    lemma_perm_entries_below(t, n);
    assert(reorder_voices(reorder_voices(c2, s), t) =~= c2);
    lemma_distance_reorder_one_way(c1, c2, s, d);
    lemma_distance_reorder_one_way(c1, reorder_voices(c2, s), t, d);
}

proof fn lemma_distance_reorder_one_way(c1: Seq<i32>, c2: Seq<i32>, s: Seq<usize>, d: int)
    requires
        c1.len() == c2.len() <= usize::MAX,
        is_perm(s, c2.len()),
    ensures
        is_tropical_distance(c1, c2, d) ==> is_tropical_distance(c1, reorder_voices(c2, s), d),
{
    let n = c1.len();
    let c3 = reorder_voices(c2, s);
    if is_tropical_distance(c1, c2, d) {
        assert forall|q: Seq<usize>| is_perm(q, c1.len()) implies d <= #[trigger] leading_cost(c1, c3, q) by {
            lemma_perm_entries_below(q, n);
            lemma_width_after_reorder(c1, c2, s, q, n);
            lemma_compose_is_perm(q, s, n);
            assert(d <= leading_cost(c1, c2, compose_perms(q, s)));
        }
        let q0 = choose|q: Seq<usize>| is_perm(q, c1.len()) && d == #[trigger] leading_cost(c1, c2, q);
        let t = inverse_perm(s);
        crate::permutation::lemma_inverse_perm(s, n);
        let q1 = compose_perms(q0, t);
        lemma_compose_is_perm(q0, t, n);
        lemma_perm_entries_below(q0, n);
        lemma_perm_entries_below(q1, n);
        assert(compose_perms(q1, s) =~= q0);
        lemma_width_after_reorder(c1, c2, s, q1, n);
        assert(is_perm(q1, c1.len()) && d == leading_cost(c1, c3, q1));
    }
}

/// Rearranging the voices of either chord does not change the tropical
/// distance between two chords with the same number of voices.
pub proof fn lemma_distance_reorder(c1: Seq<i32>, c2: Seq<i32>, s1: Seq<usize>, s2: Seq<usize>, d: int)
    requires
        c1.len() == c2.len() <= usize::MAX,
        is_perm(s1, c1.len()),
        is_perm(s2, c2.len()),
    ensures
        is_tropical_distance(c1, c2, d) <==> is_tropical_distance(reorder_voices(c1, s1), reorder_voices(c2, s2), d),
{
    let c3 = reorder_voices(c1, s1);
    let c4 = reorder_voices(c2, s2);
    lemma_distance_reorder_second(c1, c2, s2, d);
    lemma_distance_symmetric(c1, c4, d);
    lemma_distance_reorder_second(c4, c1, s1, d);
    lemma_distance_symmetric(c3, c4, d);
}

proof fn lemma_leading_width_attained(c1: Seq<i32>, c2: Seq<i32>, p: Seq<usize>, k: nat)
    requires
        k > 0,
    ensures
        exists|i: int| 0 <= i < k && leading_width(c1, c2, p, k) == #[trigger] voice_displacement(c1, c2, p, i),
    decreases k,
{
    if k > 1 {
        lemma_leading_width_attained(c1, c2, p, (k - 1) as nat);
        let j = choose|i: int| 0 <= i < k - 1 && leading_width(c1, c2, p, (k - 1) as nat) == #[trigger] voice_displacement(c1, c2, p, i);
        if leading_width(c1, c2, p, k) != voice_displacement(c1, c2, p, k - 1) {
            assert(leading_width(c1, c2, p, k) == voice_displacement(c1, c2, p, j));
        }
    } else {
        lemma_leading_width_nonnegative(c1, c2, p, 0);
        assert(voice_displacement(c1, c2, p, 0) >= 0);
    }
}

/// The width of a voice leading is its largest single displacement: it is
/// at least the displacement of every voice, and is the displacement of one
/// of them when there is a voice.
pub proof fn lemma_leading_cost_is_widest(c1: Seq<i32>, c2: Seq<i32>, p: Seq<usize>)
    ensures
        forall|i: int| 0 <= i < c1.len() ==> #[trigger] voice_displacement(c1, c2, p, i) <= leading_cost(c1, c2, p),
        c1.len() > 0 ==> exists|i: int| 0 <= i < c1.len() && leading_cost(c1, c2, p) == #[trigger] voice_displacement(c1, c2, p, i),
{
    lemma_leading_width_is_max(c1, c2, p, c1.len(), 0);
    if c1.len() > 0 {
        lemma_leading_width_attained(c1, c2, p, c1.len());
    }
}

proof fn lemma_max_abs_prefix(d: Seq<i32>, k: nat)
    requires
        k <= d.len(),
    ensures
        forall|i: int| 0 <= i < k ==> abs_int(#[trigger] d[i] as int) <= max_abs_prefix(d, k),
        k > 0 ==> exists|i: int| 0 <= i < k && max_abs_prefix(d, k) == abs_int(#[trigger] d[i] as int),
        max_abs_prefix(d, k) >= 0,
    decreases k,
{
    if k > 0 {
        lemma_max_abs_prefix(d, (k - 1) as nat);
        if k > 1 {
            let j = choose|i: int| 0 <= i < k - 1 && max_abs_prefix(d, (k - 1) as nat) == abs_int(#[trigger] d[i] as int);
            if max_abs_prefix(d, k) != abs_int(d[k - 1] as int) {
                assert(max_abs_prefix(d, k) == abs_int(d[j] as int));
            }
        }
    }
}

proof fn lemma_sum_abs_prefix(d: Seq<i32>, k: nat)
    requires
        k <= d.len(),
    ensures
        forall|i: int| 0 <= i < k ==> abs_int(#[trigger] d[i] as int) <= sum_abs_prefix(d, k),
        sum_abs_prefix(d, k) <= k * max_abs_prefix(d, k),
        sum_abs_prefix(d, k) >= 0,
    decreases k,
{
    if k > 0 {
        let k1 = (k - 1) as nat;
        lemma_sum_abs_prefix(d, k1);
        lemma_max_abs_prefix(d, k);
        lemma_max_abs_prefix(d, k1);
        let m1 = max_abs_prefix(d, k1);
        let m = max_abs_prefix(d, k);
        assert(m >= m1);
        assert(k1 * m1 <= k1 * m) by (nonlinear_arith)
            requires
                m >= m1,
        ;
        assert(k * m == k1 * m + m) by (nonlinear_arith)
            requires
                k == k1 + 1,
        ;
    }
}

/// The largest displacement of a voice leading bounds the displacement of
/// every voice and is one of them; the total displacement is at least each
/// single displacement and at most the number of voices times the largest.
pub proof fn lemma_displacement_norms(d: Seq<i32>)
    ensures
        forall|i: int| 0 <= i < d.len() ==> abs_int(#[trigger] d[i] as int) <= max_abs_prefix(d, d.len()),
        d.len() > 0 ==> exists|i: int| 0 <= i < d.len() && max_abs_prefix(d, d.len()) == abs_int(#[trigger] d[i] as int),
        forall|i: int| 0 <= i < d.len() ==> abs_int(#[trigger] d[i] as int) <= sum_abs_prefix(d, d.len()),
        max_abs_prefix(d, d.len()) <= sum_abs_prefix(d, d.len()) <= d.len() * max_abs_prefix(d, d.len()),
{
    lemma_max_abs_prefix(d, d.len());
    lemma_sum_abs_prefix(d, d.len());
    if d.len() > 0 {
        let i = choose|i: int| 0 <= i < d.len() && max_abs_prefix(d, d.len()) == abs_int(#[trigger] d[i] as int);
        assert(abs_int(d[i] as int) <= sum_abs_prefix(d, d.len()));
    }
}

proof fn lemma_leading_width_nonnegative(c1: Seq<i32>, c2: Seq<i32>, p: Seq<usize>, k: nat)
    ensures
        leading_width(c1, c2, p, k) >= 0,
    decreases k,
{
    if k > 0 {
        lemma_leading_width_nonnegative(c1, c2, p, (k - 1) as nat);
    }
}

proof fn lemma_leading_width_of_identity(c: Seq<i32>, k: nat)
    requires
        k <= c.len() <= usize::MAX,
    ensures
        leading_width(c, c, identity_perm(c.len()), k) == 0,
    decreases k,
{
    if k > 0 {
        lemma_leading_width_of_identity(c, (k - 1) as nat);
    }
}

/// Harmonic analysis of a chord progression in tropical geometry.
#[derive(Debug, Clone)]
pub struct TropicalHarmonicAnalysis {
    /// The chord progression.
    pub progression: Vec<TropicalChordSpace>,
    /// Pairwise tropical distances.
    pub pairwise_distances: Vec<Vec<u32>>,
}

/// All chords have `n` voices, and any two of their pitches differ by an
/// amount that fits in an `i32`.
pub open spec fn chords_comparable(chords: Seq<Vec<i32>>) -> bool {
    &&& forall|a: int, b: int|
        0 <= a < chords.len() && 0 <= b < chords.len() ==> (#[trigger] chords[a]).len() == (
        #[trigger] chords[b]).len()
    &&& forall|a: int, b: int|
        0 <= a < chords.len() && 0 <= b < chords.len() ==> differences_fit(
            #[trigger] chords[a]@,
            #[trigger] chords[b]@,
        )
}

proof fn lemma_rearranged_differences_fit(a: Seq<i32>, b: Seq<i32>, ra: Seq<i32>, rb: Seq<i32>)
    requires
        differences_fit(a, b),
        ra.to_multiset() == a.to_multiset(),
        rb.to_multiset() == b.to_multiset(),
    ensures
        differences_fit(ra, rb),
{
    broadcast use vstd::seq_lib::group_to_multiset_ensures;

    assert forall|i: int, j: int| 0 <= i < ra.len() && 0 <= j < rb.len() implies -i32::MAX <= #[trigger] ra[i]
        - #[trigger] rb[j] <= i32::MAX by {
        assert(ra.contains(ra[i]));
        assert(rb.contains(rb[j]));
        assert(ra.to_multiset().count(ra[i]) > 0);
        assert(rb.to_multiset().count(rb[j]) > 0);
        assert(a.contains(ra[i]));
        assert(b.contains(rb[j]));
        let x = choose|x: int| 0 <= x < a.len() && a[x] == ra[i];
        let y = choose|y: int| 0 <= y < b.len() && b[y] == rb[j];
        assert(-i32::MAX <= a[x] - b[y] <= i32::MAX);
    }
}

impl TropicalHarmonicAnalysis {
    /// Every distance between consecutive chords is in the table.
    pub open spec fn steps_readable(&self) -> bool {
        forall|j: int|
            0 <= j && j + 1 < self.progression.len() ==> j < self.pairwise_distances.len()
                && (#[trigger] self.pairwise_distances[j]).len() > j + 1
    }

    /// The distance table is square, one row and one column per chord.
    pub open spec fn well_shaped(&self) -> bool {
        &&& self.pairwise_distances.len() == self.progression.len()
        &&& forall|i: int|
            0 <= i < self.progression.len() ==> (#[trigger] self.pairwise_distances[i]).len()
                == self.progression.len()
    }

    /// Analyse a chord progression.
    pub fn from_progression(chords: Vec<Vec<i32>>) -> (r: TropicalHarmonicAnalysis)
        requires
            chords_comparable(chords@),
        ensures
            r.well_shaped(),
            r.progression.len() == chords.len(),
            forall|i: int|
                0 <= i < chords.len() ==> ascending(#[trigger] r.progression[i].pitches@)
                    && r.progression[i].pitches@.to_multiset() == chords[i]@.to_multiset()
                    && r.progression[i].dim == chords[i].len(),
            forall|i: int| 0 <= i < chords.len() ==> #[trigger] r.pairwise_distances[i][i] == 0,
            forall|i: int, j: int|
                0 <= i < j < chords.len() ==> is_tropical_distance(
                    r.progression[i].pitches@,
                    r.progression[j].pitches@,
                    #[trigger] r.pairwise_distances[i][j] as int,
                ) && r.pairwise_distances[j][i] == r.pairwise_distances[i][j],
    {
        let n = chords.len();
        let mut progression: Vec<TropicalChordSpace> = Vec::new();
        let mut k: usize = 0;
        while k < n
            invariant
                n == chords.len(),
                k <= n,
                progression.len() == k,
                forall|i: int|
                    0 <= i < k ==> ascending(#[trigger] progression[i].pitches@)
                        && progression[i].pitches@.to_multiset() == chords[i]@.to_multiset()
                        && progression[i].dim == chords[i].len(),
            decreases n - k,
        {
            let c = chords[k].clone();
            assert(c@ =~= chords[k as int]@);
            progression.push(TropicalChordSpace::new(c));
            k += 1;
        }
        let mut pairwise: Vec<Vec<u32>> = Vec::new();
        let mut r: usize = 0;
        while r < n
            invariant
                r <= n,
                pairwise.len() == r,
                forall|i: int| 0 <= i < r ==> (#[trigger] pairwise[i]).len() == n,
                forall|i: int, j: int| 0 <= i < r && 0 <= j < n ==> #[trigger] pairwise[i][j] == 0,
            decreases n - r,
        {
            let mut row: Vec<u32> = Vec::new();
            let mut c: usize = 0;
            while c < n
                invariant
                    c <= n,
                    row.len() == c,
                    forall|j: int| 0 <= j < c ==> #[trigger] row[j] == 0,
                decreases n - c,
            {
                row.push(0);
                c += 1;
            }
            pairwise.push(row);
            r += 1;
        }
        let mut i: usize = 0;
        while i < n
            invariant
                n == chords.len(),
                n == progression.len(),
                chords_comparable(chords@),
                forall|a: int|
                    0 <= a < n ==> ascending(#[trigger] progression[a].pitches@)
                        && progression[a].pitches@.to_multiset() == chords[a]@.to_multiset()
                        && progression[a].dim == chords[a].len(),
                i <= n,
                pairwise.len() == n,
                forall|a: int| 0 <= a < n ==> (#[trigger] pairwise[a]).len() == n,
                forall|a: int| 0 <= a < n ==> #[trigger] pairwise[a][a] == 0,
                forall|a: int, b: int|
                    0 <= a < b < n && a < i ==> is_tropical_distance(
                        progression[a].pitches@,
                        progression[b].pitches@,
                        #[trigger] pairwise[a][b] as int,
                    ) && pairwise[b][a] == pairwise[a][b],
                forall|a: int, b: int|
                    0 <= a < b < n && a >= i ==> #[trigger] pairwise[a][b] == 0 && pairwise[b][a] == 0,
            decreases n - i,
        {
            let mut j: usize = i + 1;
            while j < n
                invariant
                    n == chords.len(),
                    n == progression.len(),
                    chords_comparable(chords@),
                    forall|a: int|
                        0 <= a < n ==> ascending(#[trigger] progression[a].pitches@)
                            && progression[a].pitches@.to_multiset() == chords[a]@.to_multiset()
                            && progression[a].dim == chords[a].len(),
                    i < n,
                    i + 1 <= j <= n,
                    pairwise.len() == n,
                    forall|a: int| 0 <= a < n ==> (#[trigger] pairwise[a]).len() == n,
                    forall|a: int| 0 <= a < n ==> #[trigger] pairwise[a][a] == 0,
                    forall|a: int, b: int|
                        0 <= a < b < n && (a < i || (a == i && b < j)) ==> is_tropical_distance(
                            progression[a].pitches@,
                            progression[b].pitches@,
                            #[trigger] pairwise[a][b] as int,
                        ) && pairwise[b][a] == pairwise[a][b],
                    forall|a: int, b: int|
                        0 <= a < b < n && (a > i || (a == i && b >= j)) ==> #[trigger] pairwise[a][b]
                            == 0 && pairwise[b][a] == 0,
                decreases n - j,
            {
                proof {
                    vstd::seq_lib::to_multiset_len(progression[i as int].pitches@);
                    vstd::seq_lib::to_multiset_len(chords[i as int]@);
                    vstd::seq_lib::to_multiset_len(progression[j as int].pitches@);
                    vstd::seq_lib::to_multiset_len(chords[j as int]@);
                    assert(chords[i as int].len() == chords[j as int].len());
                    assert(differences_fit(chords[i as int]@, chords[j as int]@));
                    lemma_rearranged_differences_fit(
                        chords[i as int]@,
                        chords[j as int]@,
                        progression[i as int].pitches@,
                        progression[j as int].pitches@,
                    );
                }
                let d = progression[i].tropical_distance_to(&progression[j]);
                let mut row_i = pairwise[i].clone();
                row_i.set(j, d);
                pairwise.set(i, row_i);
                let mut row_j = pairwise[j].clone();
                row_j.set(i, d);
                pairwise.set(j, row_j);
                j += 1;
            }
            i += 1;
        }
        TropicalHarmonicAnalysis { progression, pairwise_distances: pairwise }
    }
}


impl TropicalHarmonicAnalysis {
    /// The tropical distance between chord `i - 1` and chord `i`.
    pub open spec fn step_distance(&self, i: int) -> int {
        self.pairwise_distances[i - 1][i] as int
    }

    /// Sum of the consecutive distances before chord `k`.
    pub open spec fn length_prefix(&self, k: nat) -> int
        decreases k,
    {
        if k <= 1 {
            0
        } else {
            self.length_prefix((k - 1) as nat) + self.step_distance(k - 1)
        }
    }

    /// Largest consecutive distance before chord `k` (zero if there is none).
    pub open spec fn max_step_prefix(&self, k: nat) -> int
        decreases k,
    {
        if k <= 1 {
            0
        } else {
            let m = self.max_step_prefix((k - 1) as nat);
            let d = self.step_distance(k - 1);
            if d > m {
                d
            } else {
                m
            }
        }
    }

    proof fn lemma_max_step(&self, k: nat)
        ensures
            forall|i: int| 1 <= i < k ==> #[trigger] self.step_distance(i) <= self.max_step_prefix(k),
            k >= 2 ==> exists|i: int| 1 <= i < k && self.max_step_prefix(k) == #[trigger] self.step_distance(i),
        decreases k,
    {
        if k >= 2 {
            let k1 = (k - 1) as nat;
            self.lemma_max_step(k1);
            assert(self.step_distance(k1 as int) >= 0);
            if k1 >= 2 {
                let j = choose|j: int| 1 <= j < k1 && self.max_step_prefix(k1) == #[trigger] self.step_distance(j);
                if self.max_step_prefix(k) == self.max_step_prefix(k1) {
                    assert(self.max_step_prefix(k) == self.step_distance(j));
                } else {
                    assert(self.max_step_prefix(k) == self.step_distance(k1 as int));
                }
            } else {
                assert(self.max_step_prefix(1) == 0);
                assert(self.max_step_prefix(k) == self.step_distance(1));
            }
        }
    }

    /// The largest consecutive voice-leading distance of a progression bounds
    /// every step from one chord to the next, and is one of those steps when
    /// there are at least two chords.
    pub proof fn lemma_max_voice_leading_distance(&self)
        ensures
            forall|i: int| 1 <= i < self.progression.len() ==> #[trigger] self.step_distance(i) <= self.max_step_prefix(
                self.progression.len() as nat,
            ),
            self.progression.len() >= 2 ==> exists|i: int|
                1 <= i < self.progression.len() && self.max_step_prefix(self.progression.len() as nat) == #[trigger] self.step_distance(i),
    {
        self.lemma_max_step(self.progression.len() as nat);
    }

    proof fn lemma_length_prefix(&self, k: nat)
        ensures
            forall|i: int| 1 <= i < k ==> #[trigger] self.step_distance(i) <= self.length_prefix(k),
            self.length_prefix(k) <= (if k >= 1 { k - 1 } else { 0 }) * self.max_step_prefix(k),
            self.length_prefix(k) >= 0,
        decreases k,
    {
        self.lemma_max_step(k);
        if k >= 2 {
            let k1 = (k - 1) as nat;
            self.lemma_length_prefix(k1);
            self.lemma_max_step(k1);
            let m1 = self.max_step_prefix(k1);
            let m = self.max_step_prefix(k);
            let s = self.step_distance(k1 as int);
            assert(s >= 0);
            assert(m >= m1 && m >= s);
            assert(m1 >= 0) by {
                if k1 >= 2 {
                    assert(self.step_distance(1) >= 0);
                    assert(self.step_distance(1) <= m1);
                } else {
                    assert(self.max_step_prefix(k1) == 0);
                }
            }
            let c = if k1 >= 1 { k1 - 1 } else { 0 };
            assert(c * m1 <= c * m) by (nonlinear_arith)
                requires
                    m >= m1,
                    c >= 0,
            ;
            assert((k - 1) * m == c * m + m) by (nonlinear_arith)
                requires
                    k - 1 == c + 1,
            ;
        } else {
            assert(self.length_prefix(k) == 0);
            assert(self.max_step_prefix(k) == 0);
        }
    }

    /// The total tropical length of a progression is at least each step from
    /// one chord to the next, and at most the number of steps times the
    /// largest of them.
    pub proof fn lemma_total_tropical_length(&self)
        ensures
            forall|i: int| 1 <= i < self.progression.len() ==> #[trigger] self.step_distance(i) <= self.length_prefix(
                self.progression.len() as nat,
            ),
            self.length_prefix(self.progression.len() as nat) <= (if self.progression.len() >= 1 {
                self.progression.len() - 1
            } else {
                0
            }) * self.max_step_prefix(self.progression.len() as nat),
    {
        self.lemma_length_prefix(self.progression.len() as nat);
    }

    /// Total tropical length of the progression (sum of consecutive distances).
    pub fn total_tropical_length(&self) -> (r: u128)
        requires
            self.steps_readable(),
        ensures
            r == self.length_prefix(self.progression.len() as nat),
    {
        let mut total: u128 = 0;
        let mut i: usize = 1;
        while i < self.progression.len()
            invariant
                self.steps_readable(),
                1 <= i,
                i <= self.progression.len() || (self.progression.len() == 0 && i == 1),
                total == self.length_prefix(i as nat),
                total <= (i as int) * (u32::MAX as int),
            decreases self.progression.len() - i,
        {
            assert(self.pairwise_distances[i - 1].len() > i) by {
                assert(self.pairwise_distances[(i - 1) as int].len() > (i - 1) + 1);
            }
            let d = self.pairwise_distances[i - 1][i];
            assert(total + d <= (i + 1) * (u32::MAX as int)) by (nonlinear_arith)
                requires
                    total <= (i as int) * (u32::MAX as int),
                    d <= u32::MAX,
            ;
            assert((i as int + 1) * (u32::MAX as int) <= u128::MAX) by (nonlinear_arith)
                requires
                    i < usize::MAX,
                    usize::MAX <= u64::MAX,
            ;
            total = total + d as u128;
            i += 1;
        }
        if self.progression.len() == 0 {
            assert(self.length_prefix(1) == 0);
            assert(self.length_prefix(0) == 0);
        } else {
            assert(i == self.progression.len());
        }
        total
    }

    /// The most "distant" voice leading (max consecutive tropical distance).
    pub fn max_voice_leading_distance(&self) -> (r: u32)
        requires
            self.steps_readable(),
        ensures
            r == self.max_step_prefix(self.progression.len() as nat),
            forall|i: int| 1 <= i < self.progression.len() ==> #[trigger] self.step_distance(i) <= r,
            self.progression.len() >= 2 ==> exists|i: int| 1 <= i < self.progression.len() && r == #[trigger] self.step_distance(i),
    {
        proof {
            self.lemma_max_step(self.progression.len() as nat);
        }
        let mut max_d: u32 = 0;
        let mut i: usize = 1;
        while i < self.progression.len()
            invariant
                self.steps_readable(),
                1 <= i,
                i <= self.progression.len() || (self.progression.len() == 0 && i == 1),
                max_d == self.max_step_prefix(i as nat),
            decreases self.progression.len() - i,
        {
            assert(self.pairwise_distances[i - 1].len() > i) by {
                assert(self.pairwise_distances[(i - 1) as int].len() > (i - 1) + 1);
            }
            let d = self.pairwise_distances[i - 1][i];
            if d > max_d {
                max_d = d;
            }
            i += 1;
        }
        if self.progression.len() == 0 {
            assert(self.max_step_prefix(1) == 0);
            assert(self.max_step_prefix(0) == 0);
        } else {
            assert(i == self.progression.len());
        }
        max_d
    }

    /// `faces` splits the progression into consecutive runs: each run is
    /// non-empty, no consecutive distance inside a run exceeds `threshold`,
    /// and every boundary between two runs is a distance that does.
    pub open spec fn is_face_decomposition(&self, faces: Seq<(usize, usize)>, threshold: int) -> bool {
        let n = self.progression.len();
        if n == 0 {
            faces.len() == 0
        } else {
            &&& faces.len() > 0
            &&& faces[0].0 == 0
            &&& faces.last().1 == n
            &&& forall|k: int| 0 <= k < faces.len() ==> (#[trigger] faces[k]).0 < faces[k].1
            &&& forall|k: int| 0 <= k < faces.len() - 1 ==> (#[trigger] faces[k]).1 == faces[k + 1].0
            &&& forall|k: int, i: int|
                0 <= k < faces.len() && (#[trigger] faces[k]).0 < i < faces[k].1 ==> #[trigger] self.step_distance(i)
                    <= threshold
            &&& forall|k: int|
                0 <= k < faces.len() - 1 ==> self.step_distance((#[trigger] faces[k]).1 as int) > threshold
        }
    }

    /// Decompose the progression into tropical polytope faces.
    ///
    /// Returns segments `(start, end)` where each segment spans a locally
    /// "smooth" voice leading: a boundary falls where the consecutive
    /// tropical distance exceeds `threshold`.
    pub fn decompose_polytope_faces(&self, threshold: i64) -> (faces: Vec<(usize, usize)>)
        requires
            self.steps_readable(),
        ensures
            self.is_face_decomposition(faces@, threshold as int),
    {
        let n = self.progression.len();
        if n == 0 {
            return vec![];
        }
        let mut faces: Vec<(usize, usize)> = Vec::new();
        let mut start: usize = 0;
        let mut i: usize = 1;
        while i < n
            invariant
                self.steps_readable(),
                n == self.progression.len(),
                n > 0,
                1 <= i <= n,
                start < i,
                faces.len() == 0 ==> start == 0,
                faces.len() > 0 ==> faces[0].0 == 0 && faces@.last().1 == start,
                forall|k: int| 0 <= k < faces.len() ==> (#[trigger] faces[k]).0 < faces[k].1,
                forall|k: int| 0 <= k < faces.len() - 1 ==> (#[trigger] faces[k]).1 == faces[k + 1].0,
                forall|k: int, m: int|
                    0 <= k < faces.len() && (#[trigger] faces[k]).0 < m < faces[k].1 ==> #[trigger] self.step_distance(m)
                        <= threshold,
                forall|k: int|
                    0 <= k < faces.len() ==> self.step_distance((#[trigger] faces[k]).1 as int) > threshold,
                forall|m: int| start < m < i ==> #[trigger] self.step_distance(m) <= threshold,
            decreases n - i,
        {
            assert(self.pairwise_distances[i - 1].len() > i) by {
                assert(self.pairwise_distances[(i - 1) as int].len() > (i - 1) + 1);
            }
            if self.pairwise_distances[i - 1][i] as i64 > threshold {
                faces.push((start, i));
                start = i;
            }
            i += 1;
        }
        faces.push((start, n));
        faces
    }
}

// ---------------------------------------------------------------------------
// Laws of the max-plus semiring on vectors
// ---------------------------------------------------------------------------

/// Tropical addition is idempotent: `a ⊕ a = a`.
pub proof fn lemma_add_idempotent(a: Seq<int>)
    ensures
        max_plus_add(a, a) == a,
{
    assert(max_plus_add(a, a) =~= a);
}

/// Tropical addition is commutative: `a ⊕ b = b ⊕ a`.
pub proof fn lemma_add_commutative(a: Seq<int>, b: Seq<int>)
    requires
        a.len() == b.len(),
    ensures
        max_plus_add(a, b) == max_plus_add(b, a),
{
    assert(max_plus_add(a, b) =~= max_plus_add(b, a));
}

/// Tropical addition is associative: `(a ⊕ b) ⊕ c = a ⊕ (b ⊕ c)`.
pub proof fn lemma_add_associative(a: Seq<int>, b: Seq<int>, c: Seq<int>)
    requires
        a.len() == b.len(),
        b.len() == c.len(),
    ensures
        max_plus_add(max_plus_add(a, b), c) == max_plus_add(a, max_plus_add(b, c)),
{
    assert(max_plus_add(max_plus_add(a, b), c) =~= max_plus_add(a, max_plus_add(b, c)));
}

/// Tropical multiplication is commutative: `a ⊗ b = b ⊗ a`.
pub proof fn lemma_mul_commutative(a: Seq<int>, b: Seq<int>)
    requires
        a.len() == b.len(),
    ensures
        max_plus_mul(a, b) == max_plus_mul(b, a),
{
    assert(max_plus_mul(a, b) =~= max_plus_mul(b, a));
}

/// Tropical multiplication is associative: `(a ⊗ b) ⊗ c = a ⊗ (b ⊗ c)`.
pub proof fn lemma_mul_associative(a: Seq<int>, b: Seq<int>, c: Seq<int>)
    requires
        a.len() == b.len(),
        b.len() == c.len(),
    ensures
        max_plus_mul(max_plus_mul(a, b), c) == max_plus_mul(a, max_plus_mul(b, c)),
{
    assert(max_plus_mul(max_plus_mul(a, b), c) =~= max_plus_mul(a, max_plus_mul(b, c)));
}

/// Tropical multiplication distributes over tropical addition:
/// `a ⊗ (b ⊕ c) = (a ⊗ b) ⊕ (a ⊗ c)`.
pub proof fn lemma_mul_distributes_over_add(a: Seq<int>, b: Seq<int>, c: Seq<int>)
    requires
        a.len() == b.len(),
        b.len() == c.len(),
    ensures
        max_plus_mul(a, max_plus_add(b, c)) == max_plus_add(max_plus_mul(a, b), max_plus_mul(a, c)),
{
    assert(max_plus_mul(a, max_plus_add(b, c)) =~= max_plus_add(
        max_plus_mul(a, b),
        max_plus_mul(a, c),
    ));
}

/// The zero vector is the identity of tropical multiplication: `a ⊗ 0 = a`.
pub proof fn lemma_mul_one(a: Seq<int>)
    ensures
        max_plus_mul(a, max_plus_one(a.len())) == a,
{
    assert(max_plus_mul(a, max_plus_one(a.len())) =~= a);
}

/// A tropical scalar multiple distributes over tropical addition:
/// `s ⊗ (a ⊕ b) = (s ⊗ a) ⊕ (s ⊗ b)`.
pub proof fn lemma_scale_distributes_over_add(s: int, a: Seq<int>, b: Seq<int>)
    requires
        a.len() == b.len(),
    ensures
        max_plus_scale(s, max_plus_add(a, b)) == max_plus_add(
            max_plus_scale(s, a),
            max_plus_scale(s, b),
        ),
{
    assert(max_plus_scale(s, max_plus_add(a, b)) =~= max_plus_add(
        max_plus_scale(s, a),
        max_plus_scale(s, b),
    ));
}

/// Absorption: `a ⊕ (a ⊗ b) = a` whenever every entry of `b` is at most
/// the tropical one, zero.
pub proof fn lemma_absorption(a: Seq<int>, b: Seq<int>)
    requires
        a.len() == b.len(),
        forall|i: int| 0 <= i < b.len() ==> b[i] <= 0,
    ensures
        max_plus_add(a, max_plus_mul(a, b)) == a,
{
    assert(max_plus_add(a, max_plus_mul(a, b)) =~= a);
}

/// Dominance is the order of the semiring: `a` dominates `b` exactly when
/// `a ⊕ b = a`.
pub proof fn lemma_dominates_iff_add_absorbs(a: Seq<int>, b: Seq<int>)
    requires
        a.len() == b.len(),
    ensures
        dominates(a, b) <==> max_plus_add(a, b) == a,
{
    if dominates(a, b) {
        assert(max_plus_add(a, b) =~= a);
    }
    if max_plus_add(a, b) == a {
        assert forall|k: int| 0 <= k < a.len() && k < b.len() implies a[k] >= b[k] by {
            assert(max_plus_add(a, b)[k] == a[k]);
        }
    }
}

} // verus!
