//! Lexicographic order on index sequences, and the facts about it that make
//! the enumeration of all permutations in lexicographic order complete.
use vstd::multiset::Multiset;
use vstd::prelude::*;

verus! {

/// `a` and `b` agree before index `k`, and `a[k] < b[k]`.
pub open spec fn first_diff_lt(a: Seq<usize>, b: Seq<usize>, k: int) -> bool {
    &&& 0 <= k < a.len()
    &&& k < b.len()
    &&& a[k] < b[k]
    &&& forall|m: int| 0 <= m < k ==> a[m] == b[m]
}

/// Strict lexicographic order on sequences of the same length.
pub open spec fn lex_lt(a: Seq<usize>, b: Seq<usize>) -> bool {
    &&& a.len() == b.len()
    &&& exists|k: int| #[trigger] first_diff_lt(a, b, k)
}

/// The entries never increase from left to right.
pub open spec fn non_increasing(s: Seq<usize>) -> bool {
    forall|a: int, b: int| 0 <= a < b < s.len() ==> s[a] >= s[b]
}

/// The entries never decrease from left to right.
pub open spec fn non_decreasing(s: Seq<usize>) -> bool {
    forall|a: int, b: int| 0 <= a < b < s.len() ==> s[a] <= s[b]
}

/// The identity arrangement `0, 1, ..., n - 1`.
pub open spec fn identity_perm(n: nat) -> Seq<usize> {
    Seq::new(n, |i: int| i as usize)
}

/// `p` is an arrangement of `0, 1, ..., n - 1`.
pub open spec fn is_perm(p: Seq<usize>, n: nat) -> bool {
    &&& p.len() == n
    &&& p.to_multiset() == identity_perm(n).to_multiset()
}

// ---------------------------------------------------------------------------
// The lexicographic order is a strict total order (asymmetric, transitive,
// total)
// ---------------------------------------------------------------------------

pub proof fn lemma_lex_asymmetric(a: Seq<usize>, b: Seq<usize>)
    requires
        lex_lt(a, b),
    ensures
        !lex_lt(b, a),
{
    let k = choose|k: int| #[trigger] first_diff_lt(a, b, k);
    if lex_lt(b, a) {
        let l = choose|l: int| #[trigger] first_diff_lt(b, a, l);
        if k < l {
            assert(b[k] == a[k]);
        } else if l < k {
            assert(a[l] == b[l]);
        }
    }
}

pub proof fn lemma_lex_transitive(a: Seq<usize>, b: Seq<usize>, c: Seq<usize>)
    requires
        lex_lt(a, b),
        lex_lt(b, c),
    ensures
        lex_lt(a, c),
{
    let k = choose|k: int| #[trigger] first_diff_lt(a, b, k);
    let l = choose|l: int| #[trigger] first_diff_lt(b, c, l);
    if k <= l {
        assert(first_diff_lt(a, c, k));
    } else {
        assert(first_diff_lt(a, c, l));
    }
}

pub proof fn lemma_lex_total(a: Seq<usize>, b: Seq<usize>)
    requires
        a.len() == b.len(),
    ensures
        a == b || lex_lt(a, b) || lex_lt(b, a),
{
    if a != b {
        assert(!(a =~= b));
        let k = choose|k: int| 0 <= k < a.len() && a[k] != b[k];
        lemma_least_difference(a, b, k);
        let m = choose|m: int|
            0 <= m <= k && a[m] != b[m] && forall|i: int| 0 <= i < m ==> a[i] == b[i];
        if a[m] < b[m] {
            assert(first_diff_lt(a, b, m));
        } else {
            assert(first_diff_lt(b, a, m));
        }
    }
}

proof fn lemma_least_difference(a: Seq<usize>, b: Seq<usize>, k: int)
    requires
        0 <= k < a.len(),
        k < b.len(),
        a[k] != b[k],
    ensures
        exists|m: int| 0 <= m <= k && a[m] != b[m] && forall|i: int| 0 <= i < m ==> a[i] == b[i],
    decreases k,
{
    if exists|i: int| 0 <= i < k && a[i] != b[i] {
        let i = choose|i: int| 0 <= i < k && a[i] != b[i];
        lemma_least_difference(a, b, i);
    } else {
        assert(forall|i: int| 0 <= i < k ==> a[i] == b[i]);
    }
}

/// Sequences that are equal or compared lexicographically: `a <= b`.
pub open spec fn lex_le(a: Seq<usize>, b: Seq<usize>) -> bool {
    a == b || lex_lt(a, b)
}

// ---------------------------------------------------------------------------
// Extreme arrangements of a multiset
// ---------------------------------------------------------------------------

proof fn lemma_drop_first_multiset(s: Seq<usize>)
    requires
        s.len() > 0,
    ensures
        s.drop_first().to_multiset() == s.to_multiset().remove(s[0]),
        s.to_multiset().count(s[0]) > 0,
{
    broadcast use vstd::seq_lib::group_to_multiset_ensures;

    assert(s.remove(0) =~= s.drop_first());
    vstd::seq_lib::to_multiset_remove(s, 0);
    assert(s.contains(s[0]));
}

proof fn lemma_member_of_multiset(s: Seq<usize>, x: usize) -> (i: int)
    requires
        s.to_multiset().count(x) > 0,
    ensures
        0 <= i < s.len(),
        s[i] == x,
{
    broadcast use vstd::seq_lib::group_to_multiset_ensures;

    assert(s.contains(x));
    choose|i: int| 0 <= i < s.len() && s[i] == x
}

/// A non-increasing sequence is the lexicographically largest arrangement
/// of its entries.
pub proof fn lemma_non_increasing_is_largest(s: Seq<usize>, t: Seq<usize>)
    requires
        non_increasing(s),
        s.to_multiset() == t.to_multiset(),
    ensures
        !lex_lt(s, t),
    decreases s.len(),
{
    broadcast use vstd::seq_lib::group_to_multiset_ensures;

    if s.len() > 0 && t.len() == s.len() {
        lemma_drop_first_multiset(t);
        lemma_drop_first_multiset(s);
        let i = lemma_member_of_multiset(s, t[0]);
        assert(t[0] <= s[0]);
        if lex_lt(s, t) {
            let k = choose|k: int| #[trigger] first_diff_lt(s, t, k);
            if k > 0 {
                assert(s[0] == t[0]);
                assert(first_diff_lt(s.drop_first(), t.drop_first(), k - 1));
                lemma_non_increasing_is_largest(s.drop_first(), t.drop_first());
            }
        }
    }
}

/// A non-decreasing sequence is the lexicographically smallest arrangement
/// of its entries.
pub proof fn lemma_non_decreasing_is_smallest(s: Seq<usize>, t: Seq<usize>)
    requires
        non_decreasing(s),
        s.to_multiset() == t.to_multiset(),
    ensures
        !lex_lt(t, s),
    decreases s.len(),
{
    broadcast use vstd::seq_lib::group_to_multiset_ensures;

    if s.len() > 0 && t.len() == s.len() {
        lemma_drop_first_multiset(t);
        lemma_drop_first_multiset(s);
        let i = lemma_member_of_multiset(s, t[0]);
        assert(t[0] >= s[0]);
        if lex_lt(t, s) {
            let k = choose|k: int| #[trigger] first_diff_lt(t, s, k);
            if k > 0 {
                assert(s[0] == t[0]);
                assert(first_diff_lt(t.drop_first(), s.drop_first(), k - 1));
                lemma_non_decreasing_is_smallest(s.drop_first(), t.drop_first());
            }
        }
    }
}

proof fn lemma_multiset_add_cancel(p: Multiset<usize>, a: Multiset<usize>, b: Multiset<usize>)
    requires
        p.add(a) == p.add(b),
    ensures
        a == b,
{
    broadcast use vstd::multiset::group_multiset_axioms;

    assert forall|x: usize| a.count(x) == b.count(x) by {
        assert(p.add(a).count(x) == p.count(x) + a.count(x));
        assert(p.add(b).count(x) == p.count(x) + b.count(x));
    }
    assert(a =~= b);
}

/// When two arrangements of the same multiset agree before index `k`, their
/// suffixes from `k` are arrangements of the same multiset.
pub proof fn lemma_suffix_multiset(a: Seq<usize>, b: Seq<usize>, k: int)
    requires
        a.len() == b.len(),
        0 <= k <= a.len(),
        a.to_multiset() == b.to_multiset(),
        forall|m: int| 0 <= m < k ==> a[m] == b[m],
    ensures
        a.subrange(k, a.len() as int).to_multiset() == b.subrange(k, b.len() as int).to_multiset(),
{
    let n = a.len() as int;
    let pa = a.subrange(0, k);
    let pb = b.subrange(0, k);
    assert(pa =~= pb);
    assert(a =~= pa + a.subrange(k, n));
    assert(b =~= pb + b.subrange(k, n));
    vstd::seq_lib::lemma_multiset_commutative(pa, a.subrange(k, n));
    vstd::seq_lib::lemma_multiset_commutative(pb, b.subrange(k, n));
    lemma_multiset_add_cancel(pa.to_multiset(), a.subrange(k, n).to_multiset(), b.subrange(k, n).to_multiset());
}

proof fn lemma_swap_multiset(s: Seq<usize>, i: int, j: int)
    requires
        0 <= i < s.len(),
        0 <= j < s.len(),
    ensures
        s.update(i, s[j]).update(j, s[i]).to_multiset() == s.to_multiset(),
{
    broadcast use vstd::seq_lib::group_to_multiset_ensures;
    broadcast use vstd::multiset::group_multiset_axioms;

    let t1 = s.update(i, s[j]);
    let t2 = t1.update(j, s[i]);
    vstd::seq_lib::to_multiset_update(s, i, s[j]);
    vstd::seq_lib::to_multiset_update(t1, j, s[i]);
    assert(s.contains(s[i]));
    assert(s.contains(s[j]));
    assert(t2.to_multiset() =~= s.to_multiset());
}

/// The arrangement built by the next-permutation step (swap the pivot with
/// the smallest larger entry to its right, then reverse the suffix) is the
/// lexicographic successor of `s` among the arrangements of its entries.
pub proof fn lemma_next_arrangement(s: Seq<usize>, i: int, j: int, t: Seq<usize>, u: Seq<usize>)
    requires
        0 <= i < j < s.len(),
        s[i] < s[j],
        forall|a: int, b: int| i + 1 <= a < b < s.len() ==> s[a] >= s[b],
        forall|m: int| j < m < s.len() ==> s[m] <= s[i],
        t == s.update(i, s[j]).update(j, s[i]),
        u.len() == s.len(),
        forall|m: int| 0 <= m <= i ==> u[m] == t[m],
        forall|m: int| i < m < s.len() ==> u[m] == t[s.len() + i - m],
    ensures
        u.to_multiset() == s.to_multiset(),
        lex_lt(s, u),
        forall|q: Seq<usize>| q.to_multiset() == s.to_multiset() && lex_lt(s, q) ==> !lex_lt(q, u),
{
    let n = s.len() as int;
    // u is an arrangement of the entries of s
    lemma_swap_multiset(s, i, j);
    let head = t.subrange(0, i + 1);
    let tail = t.subrange(i + 1, n);
    assert(t =~= head + tail);
    assert(u =~= head + tail.reverse());
    vstd::seq_lib::lemma_multiset_commutative(head, tail);
    vstd::seq_lib::lemma_multiset_commutative(head, tail.reverse());
    tail.lemma_reverse_to_multiset();
    // u is larger than s
    assert(first_diff_lt(s, u, i));
    // the suffix of u after i is the smallest arrangement of its entries
    let us = u.subrange(i + 1, n);
    assert forall|a: int, b: int| 0 <= a < b < us.len() implies us[a] <= us[b] by {
        let x = n + i - (a + i + 1);
        let y = n + i - (b + i + 1);
        assert(i < y < x < n);
        if x == j {
            assert(t[x] == s[i]);
            assert(s[y] >= s[j]);
        } else if y == j {
            assert(t[y] == s[i]);
            assert(s[x] <= s[i]);
        } else {
            assert(s[y] >= s[x]);
        }
    }
    assert forall|q: Seq<usize>| q.to_multiset() == s.to_multiset() && lex_lt(s, q) implies !lex_lt(
        q,
        u,
    ) by {
        lemma_next_arrangement_minimal(s, i, j, t, u, q);
    }
}

proof fn lemma_next_arrangement_minimal(
    s: Seq<usize>,
    i: int,
    j: int,
    t: Seq<usize>,
    u: Seq<usize>,
    q: Seq<usize>,
)
    requires
        0 <= i < j < s.len(),
        s[i] < s[j],
        forall|a: int, b: int| i + 1 <= a < b < s.len() ==> s[a] >= s[b],
        forall|m: int| j < m < s.len() ==> s[m] <= s[i],
        t == s.update(i, s[j]).update(j, s[i]),
        u.len() == s.len(),
        forall|m: int| 0 <= m <= i ==> u[m] == t[m],
        forall|m: int| i < m < s.len() ==> u[m] == t[s.len() + i - m],
        u.to_multiset() == s.to_multiset(),
        non_decreasing(u.subrange(i + 1, s.len() as int)),
        q.to_multiset() == s.to_multiset(),
        lex_lt(s, q),
    ensures
        !lex_lt(q, u),
{
    let n = s.len() as int;
    let k = choose|k: int| #[trigger] first_diff_lt(s, q, k);
    if k > i {
        // s is the largest arrangement from k on, so q cannot exceed it there
        lemma_suffix_multiset(s, q, k);
        let ss = s.subrange(k, n);
        let qs = q.subrange(k, n);
        assert(first_diff_lt(ss, qs, 0));
        lemma_non_increasing_is_largest(ss, qs);
        assert(false);
    } else if k < i {
        assert(first_diff_lt(u, q, k));
        lemma_lex_asymmetric(u, q);
    } else {
        // q and s agree before i and q[i] > s[i]; q[i] is an entry of s after i
        lemma_suffix_multiset(s, q, i);
        let ss = s.subrange(i, n);
        let qs = q.subrange(i, n);
        lemma_drop_first_multiset(qs);
        let p = lemma_member_of_multiset(ss, qs[0]);
        assert(s[i + p] == q[i]);
        assert(p != 0);
        assert(i + p <= j);
        assert(q[i] >= s[j]);
        if q[i] > u[i] {
            assert(first_diff_lt(u, q, i));
            lemma_lex_asymmetric(u, q);
        } else {
            // q agrees with u up to i; u's suffix is the smallest arrangement
            assert forall|m: int| 0 <= m < i + 1 implies q[m] == u[m] by {
                if m < i {
                    assert(q[m] == s[m]);
                }
            }
            lemma_suffix_multiset(u, q, i + 1);
            lemma_non_decreasing_is_smallest(u.subrange(i + 1, n), q.subrange(i + 1, n));
            if lex_lt(q, u) {
                let l = choose|l: int| #[trigger] first_diff_lt(q, u, l);
                assert(l > i);
                assert(first_diff_lt(q.subrange(i + 1, n), u.subrange(i + 1, n), l - i - 1));
            }
        }
    }
}

// ---------------------------------------------------------------------------
// A numeric rank that grows with the lexicographic order
// ---------------------------------------------------------------------------

/// The sequence read as the digits of a number in the given base.
pub open spec fn lex_rank(s: Seq<usize>, base: nat) -> nat
    decreases s.len(),
{
    if s.len() == 0 {
        0
    } else {
        lex_rank(s.drop_last(), base) * base + s.last() as nat
    }
}

/// Every entry is below `bound`.
pub open spec fn entries_below(s: Seq<usize>, bound: nat) -> bool {
    forall|i: int| 0 <= i < s.len() ==> s[i] < bound
}

pub proof fn lemma_rank_bound(s: Seq<usize>, base: nat)
    requires
        entries_below(s, base),
    ensures
        lex_rank(s, base) < vstd::arithmetic::power::pow(base as int, s.len()),
    decreases s.len(),
{
    vstd::arithmetic::power::lemma_pow0(base as int);
    if s.len() > 0 {
        let r = s.drop_last();
        lemma_rank_bound(r, base);
        let x = lex_rank(r, base) as int;
        let pw = vstd::arithmetic::power::pow(base as int, r.len());
        vstd::arithmetic::power::lemma_pow_adds(base as int, r.len(), 1);
        vstd::arithmetic::power::lemma_pow1(base as int);
        let l = s.last() as int;
        assert(x * base + l < pw * base) by (nonlinear_arith)
            requires
                0 <= x < pw,
                0 <= l < base,
        ;
        assert(pw * base == vstd::arithmetic::power::pow(base as int, s.len())) by {
            assert(s.len() == r.len() + 1);
        }
    }
}

pub proof fn lemma_rank_monotone(a: Seq<usize>, b: Seq<usize>, base: nat)
    requires
        entries_below(a, base),
        entries_below(b, base),
        lex_lt(a, b),
    ensures
        lex_rank(a, base) < lex_rank(b, base),
    decreases a.len(),
{
    let k = choose|k: int| #[trigger] first_diff_lt(a, b, k);
    let n = a.len() as int;
    let ra = a.drop_last();
    let rb = b.drop_last();
    if k < n - 1 {
        assert(first_diff_lt(ra, rb, k));
        lemma_rank_monotone(ra, rb, base);
        let x = lex_rank(ra, base) as int;
        let y = lex_rank(rb, base) as int;
        let la = a.last() as int;
        let lb = b.last() as int;
        assert(x * base + la < y * base + lb) by (nonlinear_arith)
            requires
                0 <= x < y,
                0 <= la < base,
                0 <= lb,
        ;
    } else {
        assert(ra =~= rb);
    }
}

/// The entries of an arrangement of `0, ..., n - 1` are below `n`.
pub proof fn lemma_perm_entries_below(p: Seq<usize>, n: nat)
    requires
        is_perm(p, n),
    ensures
        entries_below(p, n),
{
    broadcast use vstd::seq_lib::group_to_multiset_ensures;

    assert forall|i: int| 0 <= i < p.len() implies p[i] < n by {
        assert(p.contains(p[i]));
        assert(identity_perm(n).to_multiset().count(p[i]) > 0);
        let j = lemma_member_of_multiset(identity_perm(n), p[i]);
    }
}


/// The identity arrangement repeats no entry, and its entry `i` is `i`.
proof fn lemma_identity_entries(n: nat)
    requires
        n <= usize::MAX + 1,
    ensures
        identity_perm(n).no_duplicates(),
        forall|i: int| 0 <= i < n ==> #[trigger] identity_perm(n)[i] == i,
{
}

/// An arrangement of `0, ..., n - 1` repeats no entry.
pub proof fn lemma_perm_no_duplicates(p: Seq<usize>, n: nat)
    requires
        is_perm(p, n),
        n <= usize::MAX + 1,
    ensures
        p.no_duplicates(),
{
    broadcast use vstd::seq_lib::group_to_multiset_ensures;

    lemma_identity_entries(n);
    identity_perm(n).lemma_multiset_has_no_duplicates();
    p.lemma_multiset_has_no_duplicates_conv();
}

/// A sequence of `n` distinct entries, all below `n`, is an arrangement of
/// `0, ..., n - 1`.
pub proof fn lemma_distinct_below_is_perm(s: Seq<usize>, n: nat)
    requires
        s.len() == n,
        n <= usize::MAX + 1,
        s.no_duplicates(),
        entries_below(s, n),
    ensures
        is_perm(s, n),
{
    broadcast use vstd::seq_lib::group_to_multiset_ensures;
    broadcast use vstd::seq_lib::seq_to_set_is_finite;

    let id = identity_perm(n);
    lemma_identity_entries(n);
    s.unique_seq_to_set();
    id.unique_seq_to_set();
    assert(s.to_set().subset_of(id.to_set())) by {
        assert forall|x: usize| s.to_set().contains(x) implies id.to_set().contains(x) by {
            let i = choose|i: int| 0 <= i < s.len() && s[i] == x;
            assert(id[x as int] == x);
        }
    }
    assert(id.to_set().subset_of(s.to_set())) by {
        if !id.to_set().subset_of(s.to_set()) {
            let y = choose|y: usize| id.to_set().contains(y) && !s.to_set().contains(y);
            vstd::set_lib::lemma_len_subset(s.to_set(), id.to_set().remove(y));
        }
    }
    assert(s.to_set() =~= id.to_set());
    s.lemma_multiset_has_no_duplicates();
    id.lemma_multiset_has_no_duplicates();
    assert forall|x: usize| s.to_multiset().count(x) == id.to_multiset().count(x) by {
        assert(s.contains(x) == s.to_set().contains(x));
        assert(id.contains(x) == id.to_set().contains(x));
    }
    assert(s.to_multiset() =~= id.to_multiset());
}

/// Some entry of `p` equals `j`.
pub open spec fn takes_value(p: Seq<usize>, j: int) -> bool {
    exists|i: int| 0 <= i < p.len() && p[i] == j
}

/// The arrangement that undoes `p`.
pub open spec fn inverse_perm(p: Seq<usize>) -> Seq<usize> {
    Seq::new(p.len(), |j: int| (choose|i: int| 0 <= i < p.len() && p[i] == j) as usize)
}

/// The inverse of an arrangement is an arrangement, and each undoes the
/// other.
pub proof fn lemma_inverse_perm(p: Seq<usize>, n: nat)
    requires
        is_perm(p, n),
        n <= usize::MAX + 1,
    ensures
        is_perm(inverse_perm(p), n),
        forall|i: int| 0 <= i < n ==> #[trigger] inverse_perm(p)[p[i] as int] == i,
        forall|j: int| 0 <= j < n ==> #[trigger] p[inverse_perm(p)[j] as int] == j,
{
    broadcast use vstd::seq_lib::group_to_multiset_ensures;

    let q = inverse_perm(p);
    lemma_perm_no_duplicates(p, n);
    lemma_perm_entries_below(p, n);
    lemma_identity_entries(n);
    assert forall|j: int| 0 <= j < n implies #[trigger] takes_value(p, j) by {
        let id = identity_perm(n);
        assert(id[j] == j);
        assert(id.contains(j as usize));
        assert(id.to_multiset().count(j as usize) > 0);
        assert(p.to_multiset().count(j as usize) > 0);
        assert(p.contains(j as usize));
    }
    assert forall|j: int| 0 <= j < n implies #[trigger] p[q[j] as int] == j && q[j] < n by {
        assert(takes_value(p, j));
    }
    assert forall|i: int| 0 <= i < n implies #[trigger] q[p[i] as int] == i by {
        let j = p[i] as int;
        assert(p[q[j] as int] == j);
    }
    assert(q.no_duplicates()) by {
        assert forall|a: int, b: int| 0 <= a < q.len() && 0 <= b < q.len() && a != b implies q[a] != q[b] by {
            assert(p[q[a] as int] == a);
            assert(p[q[b] as int] == b);
        }
    }
    assert(entries_below(q, n)) by {
        assert forall|j: int| 0 <= j < q.len() implies q[j] < n by {
            assert(p[q[j] as int] == j);
        }
    }
    lemma_distinct_below_is_perm(q, n);
}

/// A sequence of distinct entries, all below `n`, has at most `n` entries.
pub proof fn lemma_distinct_below_len(s: Seq<usize>, n: nat)
    requires
        n <= usize::MAX + 1,
        s.no_duplicates(),
        entries_below(s, n),
    ensures
        s.len() <= n,
{
    broadcast use vstd::seq_lib::seq_to_set_is_finite;

    let id = identity_perm(n);
    lemma_identity_entries(n);
    s.unique_seq_to_set();
    id.unique_seq_to_set();
    assert(s.to_set().subset_of(id.to_set())) by {
        assert forall|x: usize| s.to_set().contains(x) implies id.to_set().contains(x) by {
            let i = choose|i: int| 0 <= i < s.len() && s[i] == x;
            assert(id[x as int] == x);
        }
    }
    vstd::set_lib::lemma_len_subset(s.to_set(), id.to_set());
}

} // verus!
