//! Newton polytopes of tropical polynomials, with their combinatorial data:
//! hull vertices, edges, and dimension, over the integer exponent points.
//!
//! All geometry here is exact integer arithmetic on the exponent vectors.
use vstd::prelude::*;
use crate::planar::{
    cross2, dot2, in_half, lemma_next_half_plane, lemma_no_common_successor, lemma_same_ray_turns, lemma_square_zero, lemma_turn_parallel_zero,
    lemma_turn_transitive,
};

verus! {

// ---------------------------------------------------------------------------
// Points
// ---------------------------------------------------------------------------

/// Coordinate `k` of point `i`.
pub open spec fn coord(p: Seq<Vec<u32>>, i: int, k: int) -> int {
    p[i]@[k] as int
}

/// Every point has exactly `d` coordinates.
pub open spec fn uniform_dim(p: Seq<Vec<u32>>, d: nat) -> bool {
    forall|i: int| 0 <= i < p.len() ==> (#[trigger] p[i]@).len() == d
}

/// The points all live in one ambient space (the dimension of the first).
pub open spec fn same_dims(p: Seq<Vec<u32>>) -> bool {
    p.len() == 0 || uniform_dim(p, p[0]@.len())
}

/// Index `m` holds the smallest first coordinate, and is the first index that does.
pub open spec fn is_first_min_1d(p: Seq<Vec<u32>>, m: int) -> bool {
    &&& 0 <= m < p.len()
    &&& forall|i: int| 0 <= i < p.len() ==> coord(p, m, 0) <= #[trigger] coord(p, i, 0)
    &&& forall|i: int| 0 <= i < m ==> coord(p, m, 0) < #[trigger] coord(p, i, 0)
}

/// Index `m` holds the largest first coordinate, and is the first index that does.
pub open spec fn is_first_max_1d(p: Seq<Vec<u32>>, m: int) -> bool {
    &&& 0 <= m < p.len()
    &&& forall|i: int| 0 <= i < p.len() ==> coord(p, m, 0) >= #[trigger] coord(p, i, 0)
    &&& forall|i: int| 0 <= i < m ==> coord(p, m, 0) > #[trigger] coord(p, i, 0)
}

/// The pairs `(v[a], v[b])` with `a < b` and `a` below `rows`, ordered by `a`
/// and then by `b`.
pub open spec fn pairs_below(v: Seq<usize>, rows: nat) -> Seq<(usize, usize)>
    decreases rows,
{
    if rows == 0 {
        Seq::empty()
    } else {
        let a = rows - 1;
        pairs_below(v, (rows - 1) as nat) + Seq::new(
            (if v.len() > a + 1 { v.len() - a - 1 } else { 0 }) as nat,
            |k: int| (v[a], v[a + 1 + k]),
        )
    }
}

/// All pairs `(v[a], v[b])` with `a < b`, ordered by `a` and then by `b`.
pub open spec fn all_pairs(v: Seq<usize>) -> Seq<(usize, usize)> {
    pairs_below(v, v.len())
}

// ---------------------------------------------------------------------------
// Exact planar geometry
// ---------------------------------------------------------------------------

/// The cross product `(a - o) × (b - o)` of three planar points.
pub open spec fn cross(p: Seq<Vec<u32>>, o: int, a: int, b: int) -> int {
    (coord(p, a, 0) - coord(p, o, 0)) * (coord(p, b, 1) - coord(p, o, 1)) - (coord(p, a, 1) - coord(
        p,
        o,
        1,
    )) * (coord(p, b, 0) - coord(p, o, 0))
}

/// Squared distance between two planar points.
pub open spec fn dist2(p: Seq<Vec<u32>>, a: int, b: int) -> int {
    (coord(p, a, 0) - coord(p, b, 0)) * (coord(p, a, 0) - coord(p, b, 0)) + (coord(p, a, 1) - coord(
        p,
        b,
        1,
    )) * (coord(p, a, 1) - coord(p, b, 1))
}

/// Two planar points coincide.
pub open spec fn same_point_2d(p: Seq<Vec<u32>>, a: int, b: int) -> bool {
    coord(p, a, 0) == coord(p, b, 0) && coord(p, a, 1) == coord(p, b, 1)
}

/// The rank of the differences `p[v[i]] - p[v[0]]` of planar points.
pub open spec fn planar_rank(p: Seq<Vec<u32>>, v: Seq<usize>) -> nat {
    if forall|i: int| 0 <= i < v.len() ==> #[trigger] same_point_2d(p, v[i] as int, v[0] as int) {
        0
    } else if exists|i: int, j: int|
        0 <= i < v.len() && 0 <= j < v.len() && #[trigger] cross(p, v[0] as int, v[i] as int, v[j] as int)
            != 0 {
        2
    } else {
        1
    }
}

pub(crate) fn cross_exec(p: &[Vec<u32>], o: usize, a: usize, b: usize) -> (c: i128)
    requires
        o < p.len(),
        a < p.len(),
        b < p.len(),
        p[o as int]@.len() >= 2,
        p[a as int]@.len() >= 2,
        p[b as int]@.len() >= 2,
    ensures
        c == cross(p@, o as int, a as int, b as int),
{
    let ax = p[a][0] as i128 - p[o][0] as i128;
    let ay = p[a][1] as i128 - p[o][1] as i128;
    let bx = p[b][0] as i128 - p[o][0] as i128;
    let by = p[b][1] as i128 - p[o][1] as i128;
    assert(-0x1_0000_0000 < ax < 0x1_0000_0000);
    assert(-0x1_0000_0000 < by < 0x1_0000_0000);
    assert(-0x1_0000_0000 < ay < 0x1_0000_0000);
    assert(-0x1_0000_0000 < bx < 0x1_0000_0000);
    assert(-0x1_0000_0000_0000_0000 < ax * by < 0x1_0000_0000_0000_0000) by (nonlinear_arith)
        requires
            -0x1_0000_0000 < ax < 0x1_0000_0000,
            -0x1_0000_0000 < by < 0x1_0000_0000,
    ;
    assert(-0x1_0000_0000_0000_0000 < ay * bx < 0x1_0000_0000_0000_0000) by (nonlinear_arith)
        requires
            -0x1_0000_0000 < ay < 0x1_0000_0000,
            -0x1_0000_0000 < bx < 0x1_0000_0000,
    ;
    ax * by - ay * bx
}

fn dist2_exec(p: &[Vec<u32>], a: usize, b: usize) -> (d: i128)
    requires
        a < p.len(),
        b < p.len(),
        p[a as int]@.len() >= 2,
        p[b as int]@.len() >= 2,
    ensures
        d == dist2(p@, a as int, b as int),
{
    let dx = p[a][0] as i128 - p[b][0] as i128;
    let dy = p[a][1] as i128 - p[b][1] as i128;
    assert(0 <= dx * dx < 0x1_0000_0000_0000_0000) by (nonlinear_arith)
        requires
            -0x1_0000_0000 < dx < 0x1_0000_0000,
    ;
    assert(0 <= dy * dy < 0x1_0000_0000_0000_0000) by (nonlinear_arith)
        requires
            -0x1_0000_0000 < dy < 0x1_0000_0000,
    ;
    dx * dx + dy * dy
}

/// Two vectors that are both parallel to a nonzero vector are parallel to
/// each other.
proof fn lemma_parallel_transitive(f0: int, f1: int, a0: int, a1: int, b0: int, b1: int)
    requires
        f0 != 0 || f1 != 0,
        f0 * a1 - f1 * a0 == 0,
        f0 * b1 - f1 * b0 == 0,
    ensures
        a0 * b1 - a1 * b0 == 0,
{
    assert(f0 * (a0 * b1 - a1 * b0) == 0) by (nonlinear_arith)
        requires
            f0 * a1 - f1 * a0 == 0,
            f0 * b1 - f1 * b0 == 0,
    ;
    assert(f1 * (a0 * b1 - a1 * b0) == 0) by (nonlinear_arith)
        requires
            f0 * a1 - f1 * a0 == 0,
            f0 * b1 - f1 * b0 == 0,
    ;
    if a0 * b1 - a1 * b0 != 0 {
        if f0 != 0 {
            assert(f0 * (a0 * b1 - a1 * b0) != 0) by (nonlinear_arith)
                requires
                    f0 != 0,
                    a0 * b1 - a1 * b0 != 0,
            ;
        } else {
            assert(f1 * (a0 * b1 - a1 * b0) != 0) by (nonlinear_arith)
                requires
                    f1 != 0,
                    a0 * b1 - a1 * b0 != 0,
            ;
        }
    }
}

/// The rank of the differences of the planar points `p[v[i]] - p[v[0]]`.
fn planar_rank_exec(p: &[Vec<u32>], v: &Vec<usize>) -> (r: usize)
    requires
        v.len() > 0,
        forall|i: int| 0 <= i < v.len() ==> #[trigger] v[i] < p.len(),
        uniform_dim(p@, 2),
    ensures
        r == planar_rank(p@, v@),
{
    let o = v[0];
    let mut f: usize = 0;
    while f < v.len() && p[v[f]][0] == p[o][0] && p[v[f]][1] == p[o][1]
        invariant
            f <= v.len(),
            o == v[0],
            forall|i: int| 0 <= i < v.len() ==> #[trigger] v[i] < p.len(),
            uniform_dim(p@, 2),
            forall|i: int| 0 <= i < f ==> #[trigger] same_point_2d(p@, v[i] as int, o as int),
        decreases v.len() - f,
    {
        f += 1;
    }
    if f == v.len() {
        return 0;
    }
    assert(!same_point_2d(p@, v[f as int] as int, o as int));
    let mut i: usize = 0;
    while i < v.len()
        invariant
            i <= v.len(),
            f < v.len(),
            o == v[0],
            forall|i: int| 0 <= i < v.len() ==> #[trigger] v[i] < p.len(),
            uniform_dim(p@, 2),
            !same_point_2d(p@, v[f as int] as int, o as int),
            forall|k: int| 0 <= k < i ==> #[trigger] cross(p@, o as int, v[f as int] as int, v[k] as int) == 0,
        decreases v.len() - i,
    {
        assert(p@[v[i as int] as int]@.len() == 2);
        assert(p@[v[f as int] as int]@.len() == 2);
        assert(p@[o as int]@.len() == 2);
        if cross_exec(p, o, v[f], v[i]) != 0 {
            assert(cross(p@, v[0] as int, v[f as int] as int, v[i as int] as int) != 0);
            return 2;
        }
        i += 1;
    }
    proof {
        let fi = v[f as int] as int;
        assert forall|a: int, b: int| 0 <= a < v.len() && 0 <= b < v.len() implies #[trigger] cross(
            p@,
            v[0] as int,
            v[a] as int,
            v[b] as int,
        ) == 0 by {
            let ai = v[a] as int;
            let bi = v[b] as int;
            let oi = o as int;
            assert(cross(p@, oi, fi, ai) == 0);
            assert(cross(p@, oi, fi, bi) == 0);
            lemma_parallel_transitive(
                coord(p@, fi, 0) - coord(p@, oi, 0),
                coord(p@, fi, 1) - coord(p@, oi, 1),
                coord(p@, ai, 0) - coord(p@, oi, 0),
                coord(p@, ai, 1) - coord(p@, oi, 1),
                coord(p@, bi, 0) - coord(p@, oi, 0),
                coord(p@, bi, 1) - coord(p@, oi, 1),
            );
        }
        assert(!same_point_2d(p@, v[f as int] as int, v[0] as int));
    }
    1
}

// ---------------------------------------------------------------------------
// Hull in one dimension
// ---------------------------------------------------------------------------

/// The first indices of the smallest and of the largest first coordinate.
fn extremes_1d(p: &[Vec<u32>]) -> (r: (usize, usize))
    requires
        p.len() > 0,
        uniform_dim(p@, 1),
    ensures
        is_first_min_1d(p@, r.0 as int),
        is_first_max_1d(p@, r.1 as int),
{
    let mut min_idx: usize = 0;
    let mut max_idx: usize = 0;
    let mut i: usize = 0;
    while i < p.len()
        invariant
            uniform_dim(p@, 1),
            0 < p.len(),
            i <= p.len(),
            min_idx < p.len(),
            max_idx < p.len(),
            forall|k: int| 0 <= k < i ==> coord(p@, min_idx as int, 0) <= #[trigger] coord(p@, k, 0),
            forall|k: int| 0 <= k < min_idx ==> coord(p@, min_idx as int, 0) < #[trigger] coord(p@, k, 0),
            forall|k: int| 0 <= k < i ==> coord(p@, max_idx as int, 0) >= #[trigger] coord(p@, k, 0),
            forall|k: int| 0 <= k < max_idx ==> coord(p@, max_idx as int, 0) > #[trigger] coord(p@, k, 0),
        decreases p.len() - i,
    {
        assert(p@[i as int]@.len() == 1 && p@[min_idx as int]@.len() == 1 && p@[max_idx as int]@.len() == 1);
        if p[i][0] < p[min_idx][0] {
            min_idx = i;
        }
        if p[i][0] > p[max_idx][0] {
            max_idx = i;
        }
        i += 1;
    }
    (min_idx, max_idx)
}

// ---------------------------------------------------------------------------
// Hull in three or more dimensions
// ---------------------------------------------------------------------------

/// `Σ_{s < t} dir[s] · p[k][s]`: point `k` measured along `dir` over the
/// first `t` coordinates.
pub open spec fn dot_dir(p: Seq<Vec<u32>>, dir: Seq<int>, k: int, t: nat) -> int
    decreases t,
{
    if t == 0 {
        0
    } else {
        dot_dir(p, dir, k, (t - 1) as nat) + dir[t - 1] * coord(p, k, t - 1)
    }
}

/// The direction `dir` exposes point `i`: every point at other coordinates
/// lies strictly lower along it.
pub open spec fn exposes(p: Seq<Vec<u32>>, i: int, dir: Seq<int>, d: nat) -> bool {
    forall|k: int| 0 <= k < p.len() && p[k]@ != p[i]@ ==> #[trigger] dot_dir(p, dir, k, d) < dot_dir(p, dir, i, d)
}

/// Point `i` is a vertex of the convex hull: some direction exposes it.
pub open spec fn is_hull_vertex(p: Seq<Vec<u32>>, i: int, d: nat) -> bool {
    exists|dir: Seq<int>| dir.len() == d && #[trigger] exposes(p, i, dir, d)
}

/// The coordinate axis `k`, with sign `s`.
pub open spec fn axis_dir(d: nat, k: int, s: int) -> Seq<int> {
    Seq::new(d, |t: int| if t == k { s } else { 0 })
}

/// The direction from point `j` to point `i`.
pub open spec fn toward_dir(p: Seq<Vec<u32>>, i: int, j: int, d: nat) -> Seq<int> {
    Seq::new(d, |t: int| coord(p, i, t) - coord(p, j, t))
}

/// The sum of coordinate `t` over the first `m` points.
pub open spec fn column_sum(p: Seq<Vec<u32>>, t: int, m: nat) -> int
    decreases m,
{
    if m == 0 {
        0
    } else {
        column_sum(p, t, (m - 1) as nat) + coord(p, m - 1, t)
    }
}

/// The direction from the centroid to point `i`, scaled by the number of points.
pub open spec fn centroid_dir(p: Seq<Vec<u32>>, i: int, d: nat) -> Seq<int> {
    Seq::new(d, |t: int| p.len() * coord(p, i, t) - column_sum(p, t, p.len()))
}

/// The centroid direction is tried when its dot products stay small.
pub open spec fn centroid_tried(n: nat, d: nat) -> bool {
    n * d < 0x4000_0000_0000_0000
}

/// One of the tried directions exposes point `i`: a coordinate axis either
/// way, the direction from some point to `i`, or from the centroid to `i`.
pub open spec fn tried_exposes(p: Seq<Vec<u32>>, i: int, d: nat) -> bool {
    ||| exists|k: int| 0 <= k < d && #[trigger] exposes(p, i, axis_dir(d, k, 1), d)
    ||| exists|k: int| 0 <= k < d && #[trigger] exposes(p, i, axis_dir(d, k, -1), d)
    ||| exists|j: int| 0 <= j < p.len() && #[trigger] exposes(p, i, toward_dir(p, i, j, d), d)
    ||| centroid_tried(p.len(), d) && exposes(p, i, centroid_dir(p, i, d), d)
}

/// Point `i` is the first copy of its coordinates.
pub open spec fn first_copy(p: Seq<Vec<u32>>, i: int) -> bool {
    forall|j: int| 0 <= j < i ==> (#[trigger] p[j]@) != p[i]@
}

/// The indices below `m` of first copies that a tried direction exposes, in
/// increasing order.
pub open spec fn exposed_indices(p: Seq<Vec<u32>>, m: nat, d: nat) -> Seq<usize>
    decreases m,
{
    if m == 0 {
        Seq::empty()
    } else {
        let r = exposed_indices(p, (m - 1) as nat, d);
        if first_copy(p, m - 1) && tried_exposes(p, m - 1, d) {
            r.push((m - 1) as usize)
        } else {
            r
        }
    }
}

/// The entries of a direction as integers.
pub open spec fn dir_view(dir: Seq<i128>) -> Seq<int> {
    Seq::new(dir.len(), |t: int| dir[t] as int)
}

fn dot_dir_exec(p: &[Vec<u32>], dir: &Vec<i128>, k: usize, d: usize, Ghost(m): Ghost<int>) -> (r: i128)
    requires
        uniform_dim(p@, d as nat),
        k < p.len(),
        dir.len() == d,
        0 <= m,
        d * m <= 0x4000_0000_0000_0000_0000_0000,
        forall|t: int| 0 <= t < d ==> -m <= #[trigger] dir[t] <= m,
    ensures
        r == dot_dir(p@, dir_view(dir@), k as int, d as nat),
{
    let mut acc: i128 = 0;
    let mut t: usize = 0;
    while t < d
        invariant
            uniform_dim(p@, d as nat),
            k < p.len(),
            dir.len() == d,
            0 <= m,
            d * m <= 0x4000_0000_0000_0000_0000_0000,
            forall|s: int| 0 <= s < d ==> -m <= #[trigger] dir[s] <= m,
            t <= d,
            acc == dot_dir(p@, dir_view(dir@), k as int, t as nat),
            -(t * m) * 0x1_0000_0000 <= acc <= (t * m) * 0x1_0000_0000,
        decreases d - t,
    {
        assert(p@[k as int]@.len() == d);
        let x = p[k][t] as i128;
        let a = dir[t];
        assert(-m * 0x1_0000_0000 <= a * x <= m * 0x1_0000_0000) by (nonlinear_arith)
            requires
                -m <= a <= m,
                0 <= x < 0x1_0000_0000,
        ;
        assert((t + 1) * m <= d * m) by (nonlinear_arith)
            requires
                t + 1 <= d,
                0 <= m,
        ;
        assert((t * m) * 0x1_0000_0000 + m * 0x1_0000_0000 == ((t + 1) * m) * 0x1_0000_0000) by (nonlinear_arith);
        assert(((t + 1) * m) * 0x1_0000_0000 <= 0x4000_0000_0000_0000_0000_0000 * 0x1_0000_0000) by (nonlinear_arith)
            requires
                (t + 1) * m <= 0x4000_0000_0000_0000_0000_0000,
        ;
        acc = acc + a * x;
        t += 1;
    }
    acc
}

/// Whether the direction `dir` exposes point `i`.
fn exposes_exec(p: &[Vec<u32>], i: usize, dir: &Vec<i128>, d: usize, Ghost(m): Ghost<int>) -> (r: bool)
    requires
        uniform_dim(p@, d as nat),
        i < p.len(),
        dir.len() == d,
        0 <= m,
        d * m <= 0x4000_0000_0000_0000_0000_0000,
        forall|t: int| 0 <= t < d ==> -m <= #[trigger] dir[t] <= m,
    ensures
        r == exposes(p@, i as int, dir_view(dir@), d as nat),
{
    let top = dot_dir_exec(p, dir, i, d, Ghost(m));
    let mut k: usize = 0;
    while k < p.len()
        invariant
            uniform_dim(p@, d as nat),
            i < p.len(),
            dir.len() == d,
            0 <= m,
            d * m <= 0x4000_0000_0000_0000_0000_0000,
            forall|t: int| 0 <= t < d ==> -m <= #[trigger] dir[t] <= m,
            k <= p.len(),
            top == dot_dir(p@, dir_view(dir@), i as int, d as nat),
            forall|q: int|
                0 <= q < k && p@[q]@ != p@[i as int]@ ==> #[trigger] dot_dir(p@, dir_view(dir@), q, d as nat) < top,
        decreases p.len() - k,
    {
        if !same_coords(p, k, i, d) {
            if dot_dir_exec(p, dir, k, d, Ghost(m)) >= top {
                return false;
            }
        }
        k += 1;
    }
    true
}

/// Whether points `a` and `b` have the same coordinates.
fn same_coords(p: &[Vec<u32>], a: usize, b: usize, d: usize) -> (r: bool)
    requires
        uniform_dim(p@, d as nat),
        a < p.len(),
        b < p.len(),
    ensures
        r == (p@[a as int]@ == p@[b as int]@),
{
    assert(p@[a as int]@.len() == d && p@[b as int]@.len() == d);
    let mut t: usize = 0;
    while t < d
        invariant
            uniform_dim(p@, d as nat),
            a < p.len(),
            b < p.len(),
            p@[a as int]@.len() == d,
            p@[b as int]@.len() == d,
            t <= d,
            forall|s: int| 0 <= s < t ==> p@[a as int]@[s] == p@[b as int]@[s],
        decreases d - t,
    {
        if p[a][t] != p[b][t] {
            return false;
        }
        t += 1;
    }
    assert(p@[a as int]@ =~= p@[b as int]@);
    true
}

/// The coordinate axis `k` with sign `s`, as a direction.
fn axis_exec(d: usize, k: usize, s: i128) -> (dir: Vec<i128>)
    ensures
        dir.len() == d,
        dir_view(dir@) == axis_dir(d as nat, k as int, s as int),
        forall|t: int| 0 <= t < d ==> #[trigger] dir[t] == (if t == k { s } else { 0 }),
{
    let mut dir: Vec<i128> = Vec::new();
    let mut t: usize = 0;
    while t < d
        invariant
            t <= d,
            dir.len() == t,
            forall|q: int| 0 <= q < t ==> #[trigger] dir[q] == (if q == k { s } else { 0 }),
        decreases d - t,
    {
        if t == k {
            dir.push(s);
        } else {
            dir.push(0);
        }
        t += 1;
    }
    assert(dir_view(dir@) =~= axis_dir(d as nat, k as int, s as int));
    dir
}

/// The direction from point `j` to point `i`.
fn toward_exec(p: &[Vec<u32>], i: usize, j: usize, d: usize) -> (dir: Vec<i128>)
    requires
        uniform_dim(p@, d as nat),
        i < p.len(),
        j < p.len(),
    ensures
        dir.len() == d,
        dir_view(dir@) == toward_dir(p@, i as int, j as int, d as nat),
        forall|t: int| 0 <= t < d ==> -0x1_0000_0000 <= #[trigger] dir[t] <= 0x1_0000_0000,
{
    let mut dir: Vec<i128> = Vec::new();
    let mut t: usize = 0;
    while t < d
        invariant
            uniform_dim(p@, d as nat),
            i < p.len(),
            j < p.len(),
            t <= d,
            dir.len() == t,
            forall|q: int| 0 <= q < t ==> #[trigger] dir[q] == coord(p@, i as int, q) - coord(p@, j as int, q),
        decreases d - t,
    {
        assert(p@[i as int]@.len() == d && p@[j as int]@.len() == d);
        dir.push(p[i][t] as i128 - p[j][t] as i128);
        t += 1;
    }
    assert(dir_view(dir@) =~= toward_dir(p@, i as int, j as int, d as nat));
    dir
}

proof fn lemma_column_sum_bounds(p: Seq<Vec<u32>>, t: int, m: nat)
    requires
        m <= p.len(),
    ensures
        0 <= column_sum(p, t, m) <= m * 0xffff_ffff,
    decreases m,
{
    if m > 0 {
        lemma_column_sum_bounds(p, t, (m - 1) as nat);
    }
}

/// The direction from the centroid to point `i`, scaled by the number of
/// points.
fn centroid_exec(p: &[Vec<u32>], i: usize, d: usize) -> (dir: Vec<i128>)
    requires
        uniform_dim(p@, d as nat),
        i < p.len(),
    ensures
        dir.len() == d,
        dir_view(dir@) == centroid_dir(p@, i as int, d as nat),
        forall|t: int| 0 <= t < d ==> -(p.len() * 0x1_0000_0000) <= #[trigger] dir[t] <= p.len() * 0x1_0000_0000,
{
    let n = p.len();
    let mut dir: Vec<i128> = Vec::new();
    let mut t: usize = 0;
    while t < d
        invariant
            uniform_dim(p@, d as nat),
            n == p.len(),
            i < n,
            t <= d,
            dir.len() == t,
            forall|q: int| 0 <= q < t ==> #[trigger] dir[q] == centroid_dir(p@, i as int, d as nat)[q],
            forall|q: int| 0 <= q < t ==> -(n * 0x1_0000_0000) <= #[trigger] dir[q] <= n * 0x1_0000_0000,
        decreases d - t,
    {
        let mut sum: i128 = 0;
        let mut k: usize = 0;
        while k < n
            invariant
                uniform_dim(p@, d as nat),
                n == p.len(),
                t < d,
                k <= n,
                sum == column_sum(p@, t as int, k as nat),
                0 <= sum <= k * 0xffff_ffff,
            decreases n - k,
        {
            assert(p@[k as int]@.len() == d);
            sum = sum + p[k][t] as i128;
            k += 1;
        }
        assert(p@[i as int]@.len() == d);
        let x = p[i][t] as i128;
        assert(0 <= n * x <= n * 0xffff_ffff) by (nonlinear_arith)
            requires
                0 <= x <= 0xffff_ffff,
        ;
        assert(n * 0xffff_ffff <= n * 0x1_0000_0000) by (nonlinear_arith);
        dir.push((n as i128) * x - sum);
        t += 1;
    }
    assert(dir_view(dir@) =~= centroid_dir(p@, i as int, d as nat));
    dir
}

/// Whether a tried direction exposes point `i`.
fn tried_exposes_exec(p: &[Vec<u32>], i: usize, d: usize) -> (r: bool)
    requires
        uniform_dim(p@, d as nat),
        i < p.len(),
        d < 0x4000_0000_0000_0000,
    ensures
        r == tried_exposes(p@, i as int, d as nat),
{
    let n = p.len();
    let mut k: usize = 0;
    while k < d
        invariant
            uniform_dim(p@, d as nat),
            i < n,
            n == p.len(),
            d < 0x4000_0000_0000_0000,
            k <= d,
            forall|q: int| 0 <= q < k ==> !#[trigger] exposes(p@, i as int, axis_dir(d as nat, q, 1), d as nat),
            forall|q: int| 0 <= q < k ==> !#[trigger] exposes(p@, i as int, axis_dir(d as nat, q, -1), d as nat),
        decreases d - k,
    {
        let up = axis_exec(d, k, 1);
        if exposes_exec(p, i, &up, d, Ghost(1)) {
            return true;
        }
        let down = axis_exec(d, k, -1);
        if exposes_exec(p, i, &down, d, Ghost(1)) {
            return true;
        }
        k += 1;
    }
    let mut j: usize = 0;
    while j < n
        invariant
            uniform_dim(p@, d as nat),
            i < n,
            n == p.len(),
            d < 0x4000_0000_0000_0000,
            j <= n,
            forall|q: int| 0 <= q < d ==> !#[trigger] exposes(p@, i as int, axis_dir(d as nat, q, 1), d as nat),
            forall|q: int| 0 <= q < d ==> !#[trigger] exposes(p@, i as int, axis_dir(d as nat, q, -1), d as nat),
            forall|q: int| 0 <= q < j ==> !#[trigger] exposes(p@, i as int, toward_dir(p@, i as int, q, d as nat), d as nat),
        decreases n - j,
    {
        let dir = toward_exec(p, i, j, d);
        assert(d * 0x1_0000_0000 <= 0x4000_0000_0000_0000_0000_0000) by (nonlinear_arith)
            requires
                d < 0x4000_0000_0000_0000,
        ;
        if exposes_exec(p, i, &dir, d, Ghost(0x1_0000_0000)) {
            return true;
        }
        j += 1;
    }
    assert((n as u128) * (d as u128) <= 0xffff_ffff_ffff_ffff * 0xffff_ffff_ffff_ffff) by (nonlinear_arith)
        requires
            n <= 0xffff_ffff_ffff_ffff,
            d <= 0xffff_ffff_ffff_ffff,
    ;
    if (n as u128) * (d as u128) < 0x4000_0000_0000_0000 {
        let dir = centroid_exec(p, i, d);
        assert(d * (n * 0x1_0000_0000) <= 0x4000_0000_0000_0000_0000_0000) by (nonlinear_arith)
            requires
                n * d < 0x4000_0000_0000_0000,
        ;
        exposes_exec(p, i, &dir, d, Ghost(n * 0x1_0000_0000))
    } else {
        false
    }
}

/// A tried direction that exposes a point makes it a hull vertex.
proof fn lemma_tried_is_vertex(p: Seq<Vec<u32>>, i: int, d: nat)
    requires
        tried_exposes(p, i, d),
    ensures
        is_hull_vertex(p, i, d),
{
    if exists|k: int| 0 <= k < d && #[trigger] exposes(p, i, axis_dir(d, k, 1), d) {
        let k = choose|k: int| 0 <= k < d && #[trigger] exposes(p, i, axis_dir(d, k, 1), d);
        assert(axis_dir(d, k, 1).len() == d);
    } else if exists|k: int| 0 <= k < d && #[trigger] exposes(p, i, axis_dir(d, k, -1), d) {
        let k = choose|k: int| 0 <= k < d && #[trigger] exposes(p, i, axis_dir(d, k, -1), d);
        assert(axis_dir(d, k, -1).len() == d);
    } else if exists|j: int| 0 <= j < p.len() && #[trigger] exposes(p, i, toward_dir(p, i, j, d), d) {
        let j = choose|j: int| 0 <= j < p.len() && #[trigger] exposes(p, i, toward_dir(p, i, j, d), d);
        assert(toward_dir(p, i, j, d).len() == d);
    } else {
        assert(centroid_dir(p, i, d).len() == d);
    }
}

proof fn lemma_exposed_indices(p: Seq<Vec<u32>>, m: nat, d: nat)
    requires
        m <= usize::MAX,
    ensures
        forall|a: int| 0 <= a < exposed_indices(p, m, d).len() ==> #[trigger] exposed_indices(p, m, d)[a] < m,
        forall|a: int|
            0 <= a < exposed_indices(p, m, d).len() ==> first_copy(p, #[trigger] exposed_indices(p, m, d)[a] as int)
                && tried_exposes(p, exposed_indices(p, m, d)[a] as int, d),
        forall|a: int, b: int|
            0 <= a < b < exposed_indices(p, m, d).len() ==> #[trigger] exposed_indices(p, m, d)[a]
                < #[trigger] exposed_indices(p, m, d)[b],
    decreases m,
{
    if m > 0 {
        lemma_exposed_indices(p, (m - 1) as nat, d);
        let r = exposed_indices(p, (m - 1) as nat, d);
        let s = exposed_indices(p, m, d);
        if first_copy(p, m - 1) && tried_exposes(p, m - 1, d) {
            assert(s == r.push((m - 1) as usize));
            assert forall|a: int| 0 <= a < s.len() implies #[trigger] s[a] < m && first_copy(p, s[a] as int)
                && tried_exposes(p, s[a] as int, d) by {
                if a < r.len() {
                    assert(s[a] == r[a]);
                }
            }
            assert forall|a: int, b: int| 0 <= a < b < s.len() implies #[trigger] s[a] < #[trigger] s[b] by {
                assert(s[a] == r[a]);
                if b < r.len() {
                    assert(s[b] == r[b]);
                }
            }
        }
    }
}

/// The hull of points in three or more dimensions: the first copy of each
/// point that a tried direction exposes is a vertex, and every pair of
/// vertices is joined by an edge.
fn brute_force_hull(p: &[Vec<u32>]) -> (r: (Vec<usize>, Vec<(usize, usize)>))
    requires
        p.len() > 0,
        uniform_dim(p@, p[0]@.len()),
        p[0]@.len() < 0x4000_0000_0000_0000,
    ensures
        r.0@ == exposed_indices(p@, p.len() as nat, p[0]@.len() as nat),
        r.1@ == all_pairs(r.0@),
{
    let n = p.len();
    let d = p[0].len();
    let mut vertices: Vec<usize> = Vec::new();
    let mut i: usize = 0;
    while i < n
        invariant
            n == p.len(),
            d == p[0]@.len(),
            uniform_dim(p@, d as nat),
            d < 0x4000_0000_0000_0000,
            i <= n,
            vertices@ == exposed_indices(p@, i as nat, d as nat),
        decreases n - i,
    {
        let mut first = true;
        let mut j: usize = 0;
        while j < i
            invariant
                n == p.len(),
                uniform_dim(p@, d as nat),
                i < n,
                j <= i,
                first <==> forall|q: int| 0 <= q < j ==> (#[trigger] p@[q]@) != p@[i as int]@,
            decreases i - j,
        {
            if same_coords(p, j, i, d) {
                first = false;
            }
            j += 1;
        }
        if first && tried_exposes_exec(p, i, d) {
            vertices.push(i);
        }
        i += 1;
    }
    let mut edges: Vec<(usize, usize)> = Vec::new();
    let m = vertices.len();
    let mut a: usize = 0;
    while a < m
        invariant
            m == vertices.len(),
            a <= m,
            edges@ == pairs_below(vertices@, a as nat),
        decreases m - a,
    {
        let ghost before = edges@;
        let mut b: usize = a + 1;
        while b < m
            invariant
                m == vertices.len(),
                a < m,
                a + 1 <= b <= m,
                edges@ == before + Seq::new((b - a - 1) as nat, |k: int| (vertices@[a as int], vertices@[a + 1 + k])),
            decreases m - b,
        {
            edges.push((vertices[a], vertices[b]));
            b += 1;
            assert(edges@ =~= before + Seq::new((b - a - 1) as nat, |k: int| (vertices@[a as int], vertices@[a + 1 + k])));
        }
        a += 1;
        assert(edges@ =~= pairs_below(vertices@, a as nat));
    }
    (vertices, edges)
}

// ---------------------------------------------------------------------------
// Rank of difference vectors in three or more dimensions
// ---------------------------------------------------------------------------

/// A prime modulus for exact elimination.
pub const RANK_PRIME: u128 = 2305843009213693951;

/// The rows of a matrix of `Vec` rows, as sequences.
pub open spec fn rows_view(m: Seq<Vec<u128>>) -> Seq<Seq<u128>> {
    Seq::new(m.len(), |i: int| m[i]@)
}

/// Every row has `cols` entries, each a residue modulo `RANK_PRIME`.
pub open spec fn residue_matrix(m: Seq<Seq<u128>>, cols: nat) -> bool {
    &&& forall|i: int| 0 <= i < m.len() ==> (#[trigger] m[i]).len() == cols
    &&& forall|i: int, k: int| 0 <= i < m.len() && 0 <= k < cols ==> #[trigger] m[i][k] < RANK_PRIME
}

/// `pv * a - f * b`, modulo `RANK_PRIME`.
pub open spec fn cross_residue(a: u128, b: u128, pv: u128, f: u128) -> u128 {
    (((a * pv) % (RANK_PRIME as int) + RANK_PRIME - (b * f) % (RANK_PRIME as int)) % (RANK_PRIME as int)) as u128
}

/// The row `row` with its entry in column `col` cleared against the pivot
/// row `prow`: from column `col` on, `prow[col] * row - row[col] * prow`,
/// modulo `RANK_PRIME`; a row that is already zero there stays as it is.
pub open spec fn clear_entry(row: Seq<u128>, prow: Seq<u128>, col: int) -> Seq<u128> {
    if row[col] == 0 {
        row
    } else {
        Seq::new(
            row.len(),
            |k: int| if k < col { row[k] } else { cross_residue(row[k], prow[k], prow[col], row[col]) },
        )
    }
}

/// Every row below `rank` cleared in column `col` against row `rank`.
pub open spec fn clear_below(m: Seq<Seq<u128>>, rank: int, col: int) -> Seq<Seq<u128>> {
    Seq::new(m.len(), |i: int| if i <= rank { m[i] } else { clear_entry(m[i], m[rank], col) })
}

/// Rows `a` and `b` exchanged.
pub open spec fn swap_rows(m: Seq<Seq<u128>>, a: int, b: int) -> Seq<Seq<u128>> {
    m.update(a, m[b]).update(b, m[a])
}

/// The first row from `i` on with a nonzero entry in column `col`, or the
/// number of rows when there is none.
pub open spec fn pivot_row(m: Seq<Seq<u128>>, i: int, col: int) -> int
    decreases m.len() - i,
{
    if i >= m.len() {
        m.len() as int
    } else if m[i][col] != 0 {
        i
    } else {
        pivot_row(m, i + 1, col)
    }
}

/// The number of pivots that row reduction modulo `RANK_PRIME` finds in the
/// columns `col..cols` of the rows from `rank` on: a column with a nonzero
/// entry there brings that row up to `rank`, clears the column below it and
/// counts one pivot; a column without one counts none.
pub open spec fn pivot_count(m: Seq<Seq<u128>>, rank: int, col: int, cols: int) -> nat
    decreases cols - col,
{
    if col >= cols {
        0
    } else {
        let piv = pivot_row(m, rank, col);
        if piv >= m.len() {
            pivot_count(m, rank, col + 1, cols)
        } else {
            1 + pivot_count(clear_below(swap_rows(m, rank, piv), rank, col), rank + 1, col + 1, cols)
        }
    }
}

/// The rank of the rows `m` over the integers modulo `RANK_PRIME`, as row
/// reduction finds it.
pub open spec fn rank_mod_prime(m: Seq<Seq<u128>>, cols: nat) -> nat {
    pivot_count(m, 0, 0, cols as int)
}

/// Every entry of the rows from `rank` on, in the columns `col..cols`, is zero.
pub open spec fn zero_block(m: Seq<Seq<u128>>, rank: int, col: int, cols: int) -> bool {
    forall|i: int, k: int| rank <= i < m.len() && col <= k < cols ==> #[trigger] m[i][k] == 0
}

proof fn lemma_pivot_row(m: Seq<Seq<u128>>, i: int, col: int)
    requires
        0 <= i <= m.len(),
    ensures
        i <= pivot_row(m, i, col) <= m.len(),
        pivot_row(m, i, col) < m.len() ==> m[pivot_row(m, i, col)][col] != 0,
        forall|k: int| i <= k < pivot_row(m, i, col) && k < m.len() ==> #[trigger] m[k][col] == 0,
    decreases m.len() - i,
{
    if i < m.len() && m[i][col] == 0 {
        lemma_pivot_row(m, i + 1, col);
    }
}

/// Row reduction finds no pivot exactly when the block it looks at is zero.
proof fn lemma_pivot_count_zero(m: Seq<Seq<u128>>, rank: int, col: int, cols: int)
    requires
        0 <= rank <= m.len(),
        0 <= col,
        forall|i: int| 0 <= i < m.len() ==> (#[trigger] m[i]).len() == cols,
    ensures
        pivot_count(m, rank, col, cols) == 0 <==> zero_block(m, rank, col, cols),
    decreases cols - col,
{
    if col < cols {
        let piv = pivot_row(m, rank, col);
        lemma_pivot_row(m, rank, col);
        if piv >= m.len() {
            lemma_pivot_count_zero(m, rank, col + 1, cols);
            if zero_block(m, rank, col + 1, cols) {
                assert forall|i: int, k: int| rank <= i < m.len() && col <= k < cols implies #[trigger] m[i][k] == 0 by {
                    if k == col {
                        assert(m[i][col] == 0);
                    }
                }
            }
        } else {
            assert(m[piv][col] != 0);
        }
    }
}

/// The rank of the rows of an integer matrix, by row reduction over the
/// integers modulo `RANK_PRIME`; each pivot column raises the rank by one.
fn modular_rank(rows: Vec<Vec<u128>>, cols: usize) -> (r: usize)
    requires
        forall|i: int| 0 <= i < rows.len() ==> (#[trigger] rows[i]).len() == cols,
        forall|i: int, j: int| 0 <= i < rows.len() && 0 <= j < cols ==> #[trigger] rows[i][j] < RANK_PRIME,
    ensures
        r == rank_mod_prime(rows_view(rows@), cols as nat),
        r == 0 <==> zero_block(rows_view(rows@), 0, 0, cols as int),
        r <= cols,
        r <= rows.len(),
{
    let ghost m0 = rows_view(rows@);
    proof {
        lemma_pivot_count_zero(m0, 0, 0, cols as int);
    }
    let mut mat = rows;
    let nrows = mat.len();
    let mut rank: usize = 0;
    let mut col: usize = 0;
    while col < cols
        invariant
            mat.len() == nrows,
            forall|i: int| 0 <= i < nrows ==> (#[trigger] mat[i]).len() == cols,
            forall|i: int, j: int| 0 <= i < nrows && 0 <= j < cols ==> #[trigger] mat[i][j] < RANK_PRIME,
            col <= cols,
            rank <= col,
            rank <= nrows,
            rank + pivot_count(rows_view(mat@), rank as int, col as int, cols as int) == pivot_count(
                m0,
                0,
                0,
                cols as int,
            ),
        decreases cols - col,
    {
        let ghost mv = rows_view(mat@);
        let mut piv = rank;
        while piv < nrows && mat[piv][col] == 0
            invariant
                mat.len() == nrows,
                mv == rows_view(mat@),
                forall|i: int| 0 <= i < nrows ==> (#[trigger] mat[i]).len() == cols,
                col < cols,
                rank <= piv <= nrows,
                forall|k: int| rank <= k < piv ==> #[trigger] mv[k][col as int] == 0,
            decreases nrows - piv,
        {
            piv += 1;
        }
        proof {
            lemma_pivot_row(mv, rank as int, col as int);
            let pr = pivot_row(mv, rank as int, col as int);
            if pr < piv {
                assert(mv[pr][col as int] == 0);
            }
            if piv < pr {
                assert(mv[piv as int][col as int] == 0);
            }
            assert(pr == piv || (pr >= nrows && piv == nrows));
        }
        if piv < nrows {
            let r1 = mat[rank].clone();
            let r2 = mat[piv].clone();
            assert(r1@ =~= mat[rank as int]@);
            assert(r2@ =~= mat[piv as int]@);
            mat.set(rank, r2);
            mat.set(piv, r1);
            let ghost sw = swap_rows(mv, rank as int, piv as int);
            let ghost cl = clear_below(sw, rank as int, col as int);
            assert(rows_view(mat@) =~= sw);
            let pv = mat[rank][col];
            let mut row = rank + 1;
            while row < nrows
                invariant
                    mat.len() == nrows,
                    sw.len() == nrows,
                    forall|i: int| 0 <= i < nrows ==> (#[trigger] mat[i]).len() == cols,
                    forall|i: int| 0 <= i < nrows ==> (#[trigger] sw[i]).len() == cols,
                    forall|i: int, j: int| 0 <= i < nrows && 0 <= j < cols ==> #[trigger] mat[i][j] < RANK_PRIME,
                    col < cols,
                    rank < nrows,
                    rank + 1 <= row <= nrows,
                    pv < RANK_PRIME,
                    pv == sw[rank as int][col as int],
                    cl == clear_below(sw, rank as int, col as int),
                    forall|i: int| 0 <= i < row ==> (#[trigger] mat[i])@ == cl[i],
                    forall|i: int| row <= i < nrows ==> (#[trigger] mat[i])@ == sw[i],
                decreases nrows - row,
            {
                let f = mat[row][col];
                if f != 0 {
                    let mut new_row = mat[row].clone();
                    assert(new_row@ =~= mat[row as int]@);
                    let mut j = col;
                    while j < cols
                        invariant
                            mat.len() == nrows,
                            forall|i: int| 0 <= i < nrows ==> (#[trigger] mat[i]).len() == cols,
                            forall|i: int, k: int| 0 <= i < nrows && 0 <= k < cols ==> #[trigger] mat[i][k] < RANK_PRIME,
                            new_row.len() == cols,
                            forall|k: int| 0 <= k < cols ==> #[trigger] new_row[k] < RANK_PRIME,
                            rank < nrows,
                            rank < row < nrows,
                            col <= j <= cols,
                            pv < RANK_PRIME,
                            f < RANK_PRIME,
                            f == mat[row as int][col as int],
                            forall|k: int|
                                0 <= k < cols ==> #[trigger] new_row[k] == (if col <= k < j {
                                    cross_residue(mat[row as int][k], mat[rank as int][k], pv, f)
                                } else {
                                    mat[row as int][k]
                                }),
                        decreases cols - j,
                    {
                        let a = new_row[j];
                        let b = mat[rank][j];
                        assert(a * pv < 0x1_0000_0000_0000_0000_0000_0000_0000_0000) by (nonlinear_arith)
                            requires
                                a < RANK_PRIME,
                                pv < RANK_PRIME,
                        ;
                        assert(b * f < 0x1_0000_0000_0000_0000_0000_0000_0000_0000) by (nonlinear_arith)
                            requires
                                b < RANK_PRIME,
                                f < RANK_PRIME,
                        ;
                        let x = (a * pv) % RANK_PRIME;
                        let y = (b * f) % RANK_PRIME;
                        new_row.set(j, (x + RANK_PRIME - y) % RANK_PRIME);
                        j += 1;
                    }
                    assert(new_row@ =~= cl[row as int]);
                    mat.set(row, new_row);
                } else {
                    assert(mat[row as int]@ =~= cl[row as int]);
                }
                row += 1;
            }
            assert(rows_view(mat@) =~= cl);
            rank += 1;
        } else {
            assert(rows_view(mat@) =~= mv);
        }
        col += 1;
    }
    rank
}

/// The difference vectors `p[v[i]] - p[v[0]]`, for `i` from one on, with
/// each coordinate taken modulo `RANK_PRIME`.
pub open spec fn difference_rows(p: Seq<Vec<u32>>, v: Seq<usize>, d: nat) -> Seq<Seq<u128>> {
    Seq::new(
        (v.len() - 1) as nat,
        |i: int|
            Seq::new(
                d,
                |t: int| ((p[v[i + 1] as int]@[t] + RANK_PRIME - p[v[0] as int]@[t]) % (RANK_PRIME as int)) as u128,
            ),
    )
}

/// The rank of the difference vectors `p[v[i]] - p[v[0]]`, computed
/// modulo `RANK_PRIME`.
fn difference_rank(p: &[Vec<u32>], v: &Vec<usize>, d: usize) -> (r: usize)
    requires
        v.len() > 0,
        forall|i: int| 0 <= i < v.len() ==> #[trigger] v[i] < p.len(),
        uniform_dim(p@, d as nat),
    ensures
        r == rank_mod_prime(difference_rows(p@, v@, d as nat), d as nat),
        r == 0 <==> forall|i: int| 0 <= i < v.len() ==> (#[trigger] p[v[i] as int])@ == p[v[0] as int]@,
        r <= d,
        r <= v.len() - 1,
{
    let o = v[0];
    let ghost target = difference_rows(p@, v@, d as nat);
    let mut rows: Vec<Vec<u128>> = Vec::new();
    let mut i: usize = 1;
    while i < v.len()
        invariant
            1 <= i <= v.len(),
            o == v[0],
            forall|i: int| 0 <= i < v.len() ==> #[trigger] v[i] < p.len(),
            uniform_dim(p@, d as nat),
            target == difference_rows(p@, v@, d as nat),
            rows.len() == i - 1,
            forall|a: int| 0 <= a < rows.len() ==> (#[trigger] rows[a]).len() == d,
            forall|a: int, b: int| 0 <= a < rows.len() && 0 <= b < d ==> #[trigger] rows[a][b] < RANK_PRIME,
            forall|a: int| 0 <= a < rows.len() ==> (#[trigger] rows[a])@ == target[a],
        decreases v.len() - i,
    {
        let vi = v[i];
        let mut row: Vec<u128> = Vec::new();
        let mut t: usize = 0;
        while t < d
            invariant
                vi < p.len(),
                o < p.len(),
                vi == v[i as int],
                o == v[0],
                1 <= i < v.len(),
                uniform_dim(p@, d as nat),
                target == difference_rows(p@, v@, d as nat),
                t <= d,
                row.len() == t,
                forall|b: int| 0 <= b < t ==> #[trigger] row[b] < RANK_PRIME,
                forall|b: int| 0 <= b < t ==> #[trigger] row[b] == target[i - 1][b],
            decreases d - t,
        {
            assert(p@[vi as int]@.len() == d && p@[o as int]@.len() == d);
            let x = p[vi][t] as u128;
            let y = p[o][t] as u128;
            row.push((x + RANK_PRIME - y) % RANK_PRIME);
            t += 1;
        }
        assert(row@ =~= target[i - 1]);
        rows.push(row);
        i += 1;
    }
    assert(rows_view(rows@) =~= target);
    let r = modular_rank(rows, d);
    proof {
        if r == 0 {
            assert forall|i: int| 0 <= i < v.len() implies (#[trigger] p[v[i] as int])@ == p[v[0] as int]@ by {
                if i > 0 {
                    assert(p[v[i] as int]@.len() == d && p[v[0] as int]@.len() == d);
                    assert forall|t: int| 0 <= t < d implies p[v[i] as int]@[t] == p[v[0] as int]@[t] by {
                        assert(target[i - 1][t] == 0);
                    }
                    assert(p[v[i] as int]@ =~= p[v[0] as int]@);
                }
            }
        } else {
            if forall|i: int| 0 <= i < v.len() ==> (#[trigger] p[v[i] as int])@ == p[v[0] as int]@ {
                assert forall|a: int, t: int| 0 <= a < target.len() && 0 <= t < d implies #[trigger] target[a][t] == 0 by {
                    assert(p[v[a + 1] as int]@ == p[v[0] as int]@);
                }
                assert(zero_block(target, 0, 0, d as int));
            }
        }
    }
    r
}

// ---------------------------------------------------------------------------
// Hull in two dimensions: gift wrapping
// ---------------------------------------------------------------------------

/// Point `a` comes before point `b` when ordered by first and then by
/// second coordinate.
pub open spec fn lex_before_2d(p: Seq<Vec<u32>>, a: int, b: int) -> bool {
    coord(p, a, 0) < coord(p, b, 0) || (coord(p, a, 0) == coord(p, b, 0) && coord(p, a, 1) < coord(
        p,
        b,
        1,
    ))
}

/// Index `s` holds the leftmost point (lowest among the leftmost), and is
/// the first index that does.
pub open spec fn is_wrap_start(p: Seq<Vec<u32>>, s: int) -> bool {
    &&& 0 <= s < p.len()
    &&& forall|i: int| 0 <= i < p.len() ==> !#[trigger] lex_before_2d(p, i, s)
    &&& forall|i: int| 0 <= i < s ==> #[trigger] lex_before_2d(p, s, i)
}

/// The edges of the closed polygon through `h`: each vertex joined to the
/// next, and the last joined back to the first.
pub open spec fn cycle_edges(h: Seq<usize>) -> Seq<(usize, usize)> {
    Seq::new(h.len(), |k: int| (h[k], h[if k + 1 < h.len() { k + 1 } else { 0 }]))
}

fn wrap_start(p: &[Vec<u32>]) -> (s: usize)
    requires
        p.len() > 0,
        uniform_dim(p@, 2),
    ensures
        is_wrap_start(p@, s as int),
{
    let n = p.len();
    let mut start: usize = 0;
    let mut i: usize = 1;
    while i < n
        invariant
            n == p.len(),
            uniform_dim(p@, 2),
            1 <= i <= n,
            start < i,
            forall|k: int| 0 <= k < i ==> !#[trigger] lex_before_2d(p@, k, start as int),
            forall|k: int| 0 <= k < start ==> #[trigger] lex_before_2d(p@, start as int, k),
        decreases n - i,
    {
        assert(p@[i as int]@.len() == 2 && p@[start as int]@.len() == 2);
        let ghost old_start = start as int;
        if p[i][0] < p[start][0] || (p[i][0] == p[start][0] && p[i][1] < p[start][1]) {
            start = i;
            assert(lex_before_2d(p@, i as int, old_start));
            assert forall|k: int| 0 <= k < i implies !#[trigger] lex_before_2d(p@, k, i as int) by {
                assert(!lex_before_2d(p@, k, old_start));
            }
            assert forall|k: int| 0 <= k < i implies #[trigger] lex_before_2d(p@, i as int, k) by {
                if k < old_start {
                    assert(lex_before_2d(p@, old_start, k));
                } else {
                    assert(!lex_before_2d(p@, k, old_start));
                }
            }
        }
        i += 1;
    }
    start
}

/// The first coordinate of the vector from point `o` to point `q`.
pub open spec fn rel_x(p: Seq<Vec<u32>>, o: int, q: int) -> int {
    coord(p, q, 0) - coord(p, o, 0)
}

/// The second coordinate of the vector from point `o` to point `q`.
pub open spec fn rel_y(p: Seq<Vec<u32>>, o: int, q: int) -> int {
    coord(p, q, 1) - coord(p, o, 1)
}

/// Seen from point `o`, every point lies in the half-plane to the left of
/// the direction `(dx, dy)`, where points on the boundary line lie behind
/// `o` (see `in_half`).
pub open spec fn half_plane_at(p: Seq<Vec<u32>>, o: int, dx: int, dy: int) -> bool {
    forall|q: int| 0 <= q < p.len() ==> #[trigger] in_half(dx, dy, rel_x(p, o, q), rel_y(p, o, q))
}

/// Every point coincides with point `o`.
pub open spec fn all_at(p: Seq<Vec<u32>>, o: int) -> bool {
    forall|q: int| 0 <= q < p.len() ==> #[trigger] same_point_2d(p, q, o)
}

/// Seen from vertex `k` of the closed walk `v`, every point lies in the
/// half-plane of the edge arriving there: on or left of its line, and behind
/// the vertex where on the line.
pub open spec fn sees_ahead(p: Seq<Vec<u32>>, v: Seq<usize>, k: int) -> bool {
    let prev = (if k == 0 { v[v.len() - 1] } else { v[k - 1] }) as int;
    half_plane_at(p, v[k] as int, rel_x(p, prev, v[k] as int), rel_y(p, prev, v[k] as int))
}

/// No lower index holds a point that coincides with point `x`.
pub open spec fn first_at(p: Seq<Vec<u32>>, x: int) -> bool {
    forall|j: int| 0 <= j < x ==> !#[trigger] same_point_2d(p, j, x)
}

/// No point lies strictly to the right of the directed line from point `a`
/// through point `b`.
pub open spec fn supports_left(p: Seq<Vec<u32>>, a: int, b: int) -> bool {
    forall|q: int| 0 <= q < p.len() ==> #[trigger] cross(p, a, b, q) >= 0
}

proof fn lemma_dist_is_dot(p: Seq<Vec<u32>>, o: int, q: int)
    ensures
        dist2(p, o, q) == dot2(rel_x(p, o, q), rel_y(p, o, q), rel_x(p, o, q), rel_y(p, o, q)),
        dist2(p, o, q) >= 0,
        dist2(p, o, q) == 0 <==> same_point_2d(p, q, o),
{
    let a = coord(p, o, 0);
    let b = coord(p, q, 0);
    let c = coord(p, o, 1);
    let e = coord(p, q, 1);
    assert((a - b) * (a - b) + (c - e) * (c - e) == (b - a) * (b - a) + (e - c) * (e - c)) by (nonlinear_arith);
    assert((b - a) * (b - a) >= 0 && (e - c) * (e - c) >= 0) by (nonlinear_arith);
    if dist2(p, o, q) == 0 {
        lemma_square_zero(b - a, e - c);
    }
    if same_point_2d(p, q, o) {
        assert((b - a) * (b - a) + (e - c) * (e - c) == 0) by (nonlinear_arith)
            requires
                b == a,
                e == c,
        ;
    }
}

/// The cross product vanishes when an end coincides with the origin or the
/// two ends coincide.
proof fn lemma_cross_degenerate(p: Seq<Vec<u32>>, o: int, a: int, b: int)
    ensures
        same_point_2d(p, a, o) ==> cross(p, o, a, b) == 0,
        same_point_2d(p, b, o) ==> cross(p, o, a, b) == 0,
        cross(p, o, a, a) == 0,
{
    let ax = rel_x(p, o, a);
    let ay = rel_y(p, o, a);
    let bx = rel_x(p, o, b);
    let by = rel_y(p, o, b);
    assert(ax == 0 && ay == 0 ==> ax * by - ay * bx == 0) by (nonlinear_arith);
    assert(bx == 0 && by == 0 ==> ax * by - ay * bx == 0) by (nonlinear_arith);
    assert(ax * ay - ay * ax == 0) by (nonlinear_arith);
}

/// One gift-wrapping step from `current`: scan all points, moving the
/// candidate to any point to its right (negative cross product), or to a
/// farther point in the same line. Seen from a point with every point in one
/// half-plane, the result leaves no point to the right of the step, and
/// from the result every point again lies in one half-plane.
fn wrap_next(p: &[Vec<u32>], current: usize, Ghost(dx): Ghost<int>, Ghost(dy): Ghost<int>) -> (next: usize)
    requires
        p.len() >= 2,
        uniform_dim(p@, 2),
        current < p.len(),
        half_plane_at(p@, current as int, dx, dy),
    ensures
        next < p.len(),
        next != current,
        supports_left(p@, current as int, next as int),
        half_plane_at(p@, next as int, rel_x(p@, current as int, next as int), rel_y(p@, current as int, next as int)),
        !all_at(p@, current as int) ==> !same_point_2d(p@, next as int, current as int),
        forall|k: int| 0 <= k < next && k != current ==> !#[trigger] same_point_2d(p@, k, next as int),
{
    let n = p.len();
    let ghost cur = current as int;
    let mut next: usize = 0;
    let mut i: usize = 0;
    while i < n
        invariant
            n == p.len(),
            n >= 2,
            uniform_dim(p@, 2),
            current < n,
            cur == current as int,
            half_plane_at(p@, cur, dx, dy),
            i <= n,
            next < n,
            next == current ==> current == 0 && i <= 1,
            next != current ==> forall|k: int| 0 <= k < i ==> #[trigger] cross(p@, cur, next as int, k) >= 0,
            next != current ==> forall|k: int|
                0 <= k < i && #[trigger] cross(p@, cur, next as int, k) == 0 ==> dist2(p@, cur, k) <= dist2(
                    p@,
                    cur,
                    next as int,
                ),
            next != current && same_point_2d(p@, next as int, cur) ==> forall|k: int|
                0 <= k < i ==> #[trigger] same_point_2d(p@, k, cur),
            next != current ==> forall|k: int| 0 <= k < next && k != cur ==> !#[trigger] same_point_2d(p@, k, next as int),
        decreases n - i,
    {
        let ghost ii = i as int;
        let ghost old_next = next as int;
        proof {
            lemma_dist_is_dot(p@, cur, ii);
            lemma_dist_is_dot(p@, cur, cur);
            lemma_dist_is_dot(p@, cur, old_next);
            lemma_cross_degenerate(p@, cur, old_next, ii);
            lemma_cross_degenerate(p@, cur, old_next, cur);
            lemma_cross_degenerate(p@, cur, ii, cur);
            lemma_cross_degenerate(p@, cur, ii, ii);
            assert(in_half(dx, dy, rel_x(p@, cur, ii), rel_y(p@, cur, ii)));
            assert(in_half(dx, dy, rel_x(p@, cur, old_next), rel_y(p@, cur, old_next)));
        }
        if i == current {
            proof {
                if next != current {
                    assert(cross(p@, cur, old_next, cur) == 0);
                }
            }
            i += 1;
            continue;
        }
        if next == current {
            next = i;
            proof {
                assert(cross(p@, cur, ii, cur) == 0);
            }
            i += 1;
            continue;
        }
        assert(p@[i as int]@.len() == 2 && p@[current as int]@.len() == 2 && p@[next as int]@.len() == 2);
        proof {
            lemma_dist_is_dot(p@, cur, old_next);
        }
        let c = cross_exec(p, current, next, i);
        if c < 0 {
            next = i;
            proof {
                assert forall|k: int| 0 <= k < ii && k != cur implies !#[trigger] same_point_2d(p@, k, ii) by {
                    if same_point_2d(p@, k, ii) {
                        assert(cross(p@, cur, old_next, k) == cross(p@, cur, old_next, ii));
                    }
                }
                assert forall|k: int| 0 <= k <= ii implies #[trigger] cross(p@, cur, ii, k) >= 0 && (cross(
                    p@,
                    cur,
                    ii,
                    k,
                ) == 0 ==> dist2(p@, cur, k) <= dist2(p@, cur, ii)) by {
                    lemma_dist_is_dot(p@, cur, k);
                    if k < ii {
                        assert(in_half(dx, dy, rel_x(p@, cur, k), rel_y(p@, cur, k)));
                        assert(cross(p@, cur, old_next, k) >= 0);
                        lemma_turn_transitive(
                            dx,
                            dy,
                            rel_x(p@, cur, old_next),
                            rel_y(p@, cur, old_next),
                            rel_x(p@, cur, ii),
                            rel_y(p@, cur, ii),
                            rel_x(p@, cur, k),
                            rel_y(p@, cur, k),
                        );
                        if cross(p@, cur, ii, k) == 0 {
                            lemma_turn_parallel_zero(
                                dx,
                                dy,
                                rel_x(p@, cur, old_next),
                                rel_y(p@, cur, old_next),
                                rel_x(p@, cur, ii),
                                rel_y(p@, cur, ii),
                                rel_x(p@, cur, k),
                                rel_y(p@, cur, k),
                            );
                        }
                    }
                }
            }
        } else if c == 0 {
            let d_next = dist2_exec(p, current, next);
            let d_i = dist2_exec(p, current, i);
            if d_i > d_next {
                next = i;
                proof {
                    assert forall|k: int| 0 <= k < ii && k != cur implies !#[trigger] same_point_2d(p@, k, ii) by {
                        if same_point_2d(p@, k, ii) {
                            assert(cross(p@, cur, old_next, k) == cross(p@, cur, old_next, ii));
                            lemma_dist_is_dot(p@, cur, k);
                            assert(dist2(p@, cur, k) == dist2(p@, cur, ii));
                        }
                    }
                    let u_zero = same_point_2d(p@, old_next, cur);
                    assert(!same_point_2d(p@, ii, cur));
                    assert forall|k: int| 0 <= k <= ii implies #[trigger] cross(p@, cur, ii, k) >= 0 && (cross(
                        p@,
                        cur,
                        ii,
                        k,
                    ) == 0 ==> dist2(p@, cur, k) <= dist2(p@, cur, ii)) by {
                        lemma_dist_is_dot(p@, cur, k);
                        if k < ii {
                            if u_zero {
                                assert(same_point_2d(p@, k, cur));
                                assert(cross(p@, cur, ii, k) == 0) by (nonlinear_arith)
                                    requires
                                        rel_x(p@, cur, k) == 0,
                                        rel_y(p@, cur, k) == 0,
                                        cross(p@, cur, ii, k) == rel_x(p@, cur, ii) * rel_y(p@, cur, k) - rel_y(
                                            p@,
                                            cur,
                                            ii,
                                        ) * rel_x(p@, cur, k),
                                ;
                            } else {
                                assert(in_half(dx, dy, rel_x(p@, cur, k), rel_y(p@, cur, k)));
                                assert(cross(p@, cur, old_next, k) >= 0);
                                lemma_same_ray_turns(
                                    dx,
                                    dy,
                                    rel_x(p@, cur, old_next),
                                    rel_y(p@, cur, old_next),
                                    rel_x(p@, cur, ii),
                                    rel_y(p@, cur, ii),
                                    rel_x(p@, cur, k),
                                    rel_y(p@, cur, k),
                                );
                            }
                        }
                    }
                }
            } else {
                proof {
                    if same_point_2d(p@, old_next, cur) {
                        assert(same_point_2d(p@, ii, cur));
                    }
                }
            }
        }
        i += 1;
    }
    proof {
        let ux = rel_x(p@, cur, next as int);
        let uy = rel_y(p@, cur, next as int);
        assert forall|q: int| 0 <= q < p.len() implies #[trigger] in_half(
            ux,
            uy,
            rel_x(p@, next as int, q),
            rel_y(p@, next as int, q),
        ) by {
            assert(rel_x(p@, next as int, q) == rel_x(p@, cur, q) - ux);
            assert(rel_y(p@, next as int, q) == rel_y(p@, cur, q) - uy);
            lemma_dist_is_dot(p@, cur, q);
            lemma_dist_is_dot(p@, cur, next as int);
            if same_point_2d(p@, next as int, cur) {
                assert(same_point_2d(p@, q, cur));
            } else {
                assert(in_half(dx, dy, rel_x(p@, cur, q), rel_y(p@, cur, q)));
                assert(in_half(dx, dy, ux, uy));
                assert(cross(p@, cur, next as int, q) >= 0);
                lemma_next_half_plane(dx, dy, ux, uy, rel_x(p@, cur, q), rel_y(p@, cur, q));
            }
        }
    }
    next
}

/// Gift wrapping (Jarvis march) for the planar convex hull.
/// Returns the hull vertices in order and the edges of the closed polygon;
/// every edge of the walk has every point on or left of it.
fn gift_wrap_2d_impl(p: &[Vec<u32>]) -> (r: (Vec<usize>, Vec<(usize, usize)>))
    requires
        p.len() > 0,
        uniform_dim(p@, 2),
    ensures
        p.len() < 2 ==> r.0@ == seq![0usize] && r.1@.len() == 0,
        p.len() >= 2 ==> {
            &&& 2 <= r.0.len() <= p.len()
            &&& is_wrap_start(p@, r.0[0] as int)
            &&& forall|k: int| 0 <= k < r.0.len() ==> #[trigger] r.0[k] < p.len()
            &&& r.0@.no_duplicates()
            &&& forall|k: int| 0 <= k < r.0.len() - 1 ==> #[trigger] supports_left(p@, r.0[k] as int, r.0[k + 1] as int)
            &&& supports_left(p@, r.0[r.0.len() - 1] as int, r.0[0] as int)
            &&& forall|k: int| 0 <= k < r.0.len() ==> #[trigger] sees_ahead(p@, r.0@, k)
            &&& r.1@ == cycle_edges(r.0@)
            &&& all_at(p@, r.0[0] as int) ==> r.0@ == seq![0usize, 1usize]
            &&& !all_at(p@, r.0[0] as int) ==> forall|k: int| 0 <= k < r.0.len() ==> #[trigger] first_at(p@, r.0[k] as int)
        },
{
    let n = p.len();
    if n < 2 {
        let h: Vec<usize> = vec![0];
        let e: Vec<(usize, usize)> = Vec::new();
        assert(h@ =~= seq![0usize]);
        return (h, e);
    }
    let start = wrap_start(p);
    let mut hull: Vec<usize> = vec![start];
    let mut current = start;
    let ghost degenerate = all_at(p@, start as int);
    let ghost mut dxs: Seq<int> = seq![0int];
    let ghost mut dys: Seq<int> = seq![-1int];
    proof {
        assert forall|q: int| 0 <= q < p.len() implies #[trigger] in_half(
            dxs[0],
            dys[0],
            rel_x(p@, start as int, q),
            rel_y(p@, start as int, q),
        ) by {
            assert(!lex_before_2d(p@, q, start as int));
            assert(cross2(0, -1, rel_x(p@, start as int, q), rel_y(p@, start as int, q)) == rel_x(p@, start as int, q));
            assert(dot2(0, -1, rel_x(p@, start as int, q), rel_y(p@, start as int, q)) == -rel_y(p@, start as int, q));
        }
        assert(hull@.no_duplicates());
        assert(first_at(p@, start as int)) by {
            assert forall|j: int| 0 <= j < start implies !#[trigger] same_point_2d(p@, j, start as int) by {
                assert(lex_before_2d(p@, start as int, j));
            }
        }
        if degenerate {
            if start > 0 {
                assert(lex_before_2d(p@, start as int, 0));
                assert(same_point_2d(p@, 0, start as int));
            }
        }
    }
    loop
        invariant_except_break
            forall|k: int| !degenerate && 0 <= k < hull.len() ==> #[trigger] first_at(p@, hull[k] as int),
            forall|k: int| !degenerate && 0 <= k < hull.len() ==> #[trigger] dxs[k] != 0 || dys[k] != 0,
            forall|k: int|
                !degenerate && 1 <= k < hull.len() ==> !#[trigger] same_point_2d(p@, hull[k - 1] as int, hull[k] as int)
                    && dxs[k] == rel_x(p@, hull[k - 1] as int, hull[k] as int) && dys[k] == rel_y(
                    p@,
                    hull[k - 1] as int,
                    hull[k] as int,
                ),
        invariant
            n == p.len(),
            n >= 2,
            uniform_dim(p@, 2),
            is_wrap_start(p@, start as int),
            degenerate == all_at(p@, start as int),
            1 <= hull.len() <= n,
            hull[0] == start,
            current == hull[hull.len() - 1],
            forall|k: int| 0 <= k < hull.len() ==> #[trigger] hull[k] < n,
            hull@.no_duplicates(),
            forall|k: int| 0 <= k < hull.len() - 1 ==> #[trigger] supports_left(p@, hull[k] as int, hull[k + 1] as int),
            dxs.len() == hull.len(),
            dys.len() == hull.len(),
            forall|k: int| 0 <= k < hull.len() ==> #[trigger] half_plane_at(p@, hull[k] as int, dxs[k], dys[k]),
            forall|k: int| 1 <= k < hull.len() ==> #[trigger] sees_ahead(p@, hull@, k),
            degenerate ==> start == 0 && hull.len() <= 2 && (hull.len() == 2 ==> hull[1] == 1),
        ensures
            2 <= hull.len() <= n,
            hull[0] == start,
            degenerate ==> hull@ == seq![0usize, 1usize],
            forall|k: int| !degenerate && 0 <= k < hull.len() ==> #[trigger] first_at(p@, hull[k] as int),
            forall|k: int| 0 <= k < hull.len() ==> #[trigger] hull[k] < n,
            hull@.no_duplicates(),
            forall|k: int| 0 <= k < hull.len() - 1 ==> #[trigger] supports_left(p@, hull[k] as int, hull[k + 1] as int),
            supports_left(p@, hull[hull.len() - 1] as int, hull[0] as int),
            forall|k: int| 0 <= k < hull.len() ==> #[trigger] sees_ahead(p@, hull@, k),
        decreases n + 1 - hull.len(),
    {
        let ghost m = hull.len() as int;
        proof {
            assert(half_plane_at(p@, hull[m - 1] as int, dxs[m - 1], dys[m - 1]));
        }
        let next = wrap_next(p, current, Ghost(dxs[m - 1]), Ghost(dys[m - 1]));
        if next == start {
            proof {
                assert forall|k: int| 0 <= k < hull.len() implies #[trigger] sees_ahead(p@, hull@, k) by {
                    if k == 0 {
                        assert(hull@[hull.len() - 1] == current);
                    }
                }
            }
            break;
        }
        proof {
            if degenerate {
                assert(all_at(p@, current as int)) by {
                    assert forall|q: int| 0 <= q < p.len() implies #[trigger] same_point_2d(p@, q, current as int) by {
                        assert(same_point_2d(p@, q, start as int));
                        assert(same_point_2d(p@, current as int, start as int));
                    }
                }
                assert(same_point_2d(p@, next as int, current as int));
                assert(same_point_2d(p@, 0, current as int));
                assert(same_point_2d(p@, 0, next as int));
                if next >= 2 {
                    assert(same_point_2d(p@, 1, current as int));
                    assert(same_point_2d(p@, 1, next as int));
                }
                assert(next == 1 && current == 0);
                assert(m == 1);
            } else {
                assert(!all_at(p@, current as int)) by {
                    if all_at(p@, current as int) {
                        assert forall|q: int| 0 <= q < p.len() implies #[trigger] same_point_2d(p@, q, start as int) by {
                            assert(same_point_2d(p@, q, current as int));
                            assert(same_point_2d(p@, start as int, current as int));
                        }
                    }
                }
                assert(first_at(p@, next as int)) by {
                    assert forall|j: int| 0 <= j < next implies !#[trigger] same_point_2d(p@, j, next as int) by {
                        if j == current {
                            assert(!same_point_2d(p@, next as int, current as int));
                        }
                    }
                }
                assert forall|i: int| 0 <= i < m implies hull[i] != next by {
                    if i >= 1 && hull[i] == next {
                        let u = hull[i - 1] as int;
                        let v = current as int;
                        let w = next as int;
                        assert(!same_point_2d(p@, hull[i - 1] as int, hull[i] as int));
                        assert(half_plane_at(p@, hull[i] as int, dxs[i], dys[i]));
                        assert(in_half(dxs[i], dys[i], rel_x(p@, w, v), rel_y(p@, w, v)));
                        assert(in_half(rel_x(p@, v, w), rel_y(p@, v, w), rel_x(p@, w, u), rel_y(p@, w, u)));
                        assert(half_plane_at(p@, hull[i - 1] as int, dxs[i - 1], dys[i - 1]));
                        assert(in_half(dxs[i - 1], dys[i - 1], rel_x(p@, u, w), rel_y(p@, u, w)));
                        assert(in_half(dxs[i - 1], dys[i - 1], rel_x(p@, u, v), rel_y(p@, u, v)));
                        assert(in_half(dxs[m - 1], dys[m - 1], rel_x(p@, v, w), rel_y(p@, v, w)));
                        assert(in_half(dxs[m - 1], dys[m - 1], rel_x(p@, v, u), rel_y(p@, v, u)));
                        assert(dxs[i - 1] != 0 || dys[i - 1] != 0);
                        assert(dxs[m - 1] != 0 || dys[m - 1] != 0);
                        lemma_no_common_successor(
                            coord(p@, u, 0),
                            coord(p@, u, 1),
                            coord(p@, v, 0),
                            coord(p@, v, 1),
                            coord(p@, w, 0),
                            coord(p@, w, 1),
                            dxs[i - 1],
                            dys[i - 1],
                            dxs[m - 1],
                            dys[m - 1],
                        );
                        assert(same_point_2d(p@, u, v));
                        assert(first_at(p@, hull[i - 1] as int));
                        assert(first_at(p@, hull[m - 1] as int));
                        assert(u == v) by {
                            if u < v {
                                assert(!same_point_2d(p@, u, v));
                            } else if v < u {
                                assert(!same_point_2d(p@, v, u));
                            }
                        }
                        assert(hull@[i - 1] == hull@[m - 1]);
                    }
                }
            }
        }
        let ghost old_hull = hull@;
        hull.push(next);
        proof {
            dxs = dxs.push(rel_x(p@, current as int, next as int));
            dys = dys.push(rel_y(p@, current as int, next as int));
            assert forall|k: int| 0 <= k < hull.len() - 1 implies #[trigger] supports_left(
                p@,
                hull[k] as int,
                hull[k + 1] as int,
            ) by {
                if k < old_hull.len() - 1 {
                    assert(hull[k] == old_hull[k] && hull[k + 1] == old_hull[k + 1]);
                }
            }
            assert(hull@.no_duplicates()) by {
                assert forall|a: int, b: int| 0 <= a < hull.len() && 0 <= b < hull.len() && a != b implies hull@[a] != hull@[b] by {
                    if a < old_hull.len() && b < old_hull.len() {
                        assert(hull@[a] == old_hull[a] && hull@[b] == old_hull[b]);
                    } else if a < old_hull.len() {
                        assert(hull@[a] == old_hull[a]);
                    } else if b < old_hull.len() {
                        assert(hull@[b] == old_hull[b]);
                    }
                }
            }
            crate::permutation::lemma_distinct_below_len(hull@, n as nat);
            assert forall|k: int| 0 <= k < hull.len() implies #[trigger] half_plane_at(p@, hull[k] as int, dxs[k], dys[k]) by {
                if k < old_hull.len() {
                    assert(hull[k] == old_hull[k]);
                }
            }
            assert forall|k: int| 1 <= k < hull.len() implies #[trigger] sees_ahead(p@, hull@, k) by {
                if k < old_hull.len() {
                    assert(hull[k] == old_hull[k] && hull[k - 1] == old_hull[k - 1]);
                    assert(sees_ahead(p@, old_hull, k));
                }
            }
            assert forall|k: int| !degenerate && 0 <= k < hull.len() implies #[trigger] first_at(p@, hull[k] as int) by {
                if k < old_hull.len() {
                    assert(hull[k] == old_hull[k]);
                    assert(first_at(p@, old_hull[k] as int));
                } else {
                    assert(first_at(p@, next as int));
                }
            }
            assert forall|k: int| !degenerate && 0 <= k < hull.len() implies #[trigger] dxs[k] != 0 || dys[k] != 0 by {
                if k >= old_hull.len() {
                    assert(!same_point_2d(p@, next as int, current as int));
                }
            }
            assert forall|k: int| !degenerate && 1 <= k < hull.len() implies !#[trigger] same_point_2d(
                p@,
                hull[k - 1] as int,
                hull[k] as int,
            ) && dxs[k] == rel_x(p@, hull[k - 1] as int, hull[k] as int) && dys[k] == rel_y(
                p@,
                hull[k - 1] as int,
                hull[k] as int,
            ) by {
                if k < old_hull.len() {
                    assert(hull[k] == old_hull[k] && hull[k - 1] == old_hull[k - 1]);
                    assert(!same_point_2d(p@, old_hull[k - 1] as int, old_hull[k] as int));
                } else {
                    assert(!same_point_2d(p@, next as int, current as int));
                }
            }
        }
        current = next;
        if hull.len() > n {
            break;
        }
    }
    let mut edges: Vec<(usize, usize)> = Vec::new();
    let h = hull.len();
    let mut k: usize = 0;
    while k + 1 < h
        invariant
            h == hull.len(),
            h >= 2,
            k + 1 <= h,
            edges@ == cycle_edges(hull@).take(k as int),
        decreases h - k,
    {
        edges.push((hull[k], hull[k + 1]));
        k += 1;
        assert(edges@ =~= cycle_edges(hull@).take(k as int));
    }
    edges.push((hull[h - 1], hull[0]));
    assert(edges@ =~= cycle_edges(hull@));
    proof {
        if degenerate {
            assert(hull@ =~= seq![0usize, 1usize]);
        }
    }
    (hull, edges)
}

// ---------------------------------------------------------------------------
// The extended Newton polytope
// ---------------------------------------------------------------------------

/// A Newton polytope built from integer exponent points, with full
/// combinatorial data: vertices, edges, dimension.
#[derive(Debug, Clone)]
pub struct TropicalNewtonPolytope {
    /// All monomial exponent points (may include interior points).
    pub points: Vec<Vec<u32>>,
    /// Indices into `points` that are vertices of the convex hull.
    pub vertex_indices: Vec<usize>,
    /// Edges: pairs of vertex indices.
    pub edges: Vec<(usize, usize)>,
    /// Dimension of the ambient space.
    pub ambient_dim: usize,
    /// Dimension of the polytope itself.
    pub polytope_dim: usize,
}

/// The hull data that `from_points` computes for the points `p`: in one
/// dimension the first minimum and first maximum; in the plane the walk from
/// the leftmost-lowest point through distinct points, closed back to it,
/// along edges that each have every point on or left of them, and from each
/// vertex every point in the half-plane of the edge arriving there, each
/// vertex the first copy of its point, with the edges of the closed polygon
/// (one edge when there are two vertices, no vertex but the first when all
/// points coincide); in higher dimensions the first copies of the points that
/// a tried direction exposes, joined pairwise.
pub open spec fn hull_of(p: Seq<Vec<u32>>, v: Seq<usize>, e: Seq<(usize, usize)>, dim: nat) -> bool {
    let n = p.len();
    if n == 0 || dim == 0 {
        v.len() == 0 && e.len() == 0
    } else if dim == 1 {
        &&& 1 <= v.len() <= 2
        &&& is_first_min_1d(p, v[0] as int)
        &&& is_first_max_1d(p, v[v.len() - 1] as int)
        &&& v.len() == 2 ==> v[0] != v[1] && e == seq![(v[0], v[1])]
        &&& v.len() == 1 ==> e.len() == 0
    } else if dim == 2 {
        if n < 2 || all_at(p, 0) {
            v == seq![0usize] && e.len() == 0
        } else {
            &&& 2 <= v.len() <= n
            &&& is_wrap_start(p, v[0] as int)
            &&& forall|k: int| 0 <= k < v.len() ==> #[trigger] v[k] < n
            &&& v.no_duplicates()
            &&& forall|k: int| 0 <= k < v.len() ==> #[trigger] first_at(p, v[k] as int)
            &&& forall|a: int, b: int|
                0 <= a < v.len() && 0 <= b < v.len() && a != b ==> !same_point_2d(p, #[trigger] v[a] as int, #[trigger] v[b] as int)
            &&& forall|k: int| 0 <= k < v.len() - 1 ==> #[trigger] supports_left(p, v[k] as int, v[k + 1] as int)
            &&& supports_left(p, v[v.len() - 1] as int, v[0] as int)
            &&& forall|k: int| 0 <= k < v.len() ==> #[trigger] sees_ahead(p, v, k)
            &&& e == (if v.len() == 2 { seq![(v[0], v[1])] } else { cycle_edges(v) })
        }
    } else {
        &&& v == exposed_indices(p, n, dim)
        &&& forall|k: int| 0 <= k < v.len() ==> #[trigger] is_hull_vertex(p, v[k] as int, dim) && first_copy(p, v[k] as int)
        &&& e == all_pairs(v)
    }
}

/// The dimension that `from_points` assigns to the hull `v` of `p`.
pub open spec fn polytope_dim_of(p: Seq<Vec<u32>>, v: Seq<usize>, dim: nat, pd: nat) -> bool {
    if v.len() <= 1 {
        pd == 0
    } else if dim == 1 {
        pd == 1
    } else if dim == 2 {
        pd == planar_rank(p, v)
    } else {
        pd == rank_mod_prime(difference_rows(p, v, dim), dim)
    }
}

impl TropicalNewtonPolytope {
    /// Every vertex index and every edge end points into `points`.
    pub open spec fn well_formed(&self) -> bool {
        &&& forall|k: int| 0 <= k < self.vertex_indices.len() ==> #[trigger] self.vertex_indices[k] < self.points.len()
        &&& forall|k: int| 0 <= k < self.edges.len() ==> (#[trigger] self.edges[k]).0 < self.points.len() && self.edges[k].1 < self.points.len()
    }

    /// `self` is what `from_points` builds from `p`.
    pub open spec fn built_from(&self, p: Seq<Vec<u32>>) -> bool {
        &&& self.points.len() == p.len()
        &&& forall|i: int| 0 <= i < p.len() ==> (#[trigger] self.points[i])@ == p[i]@
        &&& self.ambient_dim == (if p.len() == 0 { 0 } else { p[0]@.len() })
        &&& hull_of(self.points@, self.vertex_indices@, self.edges@, self.ambient_dim as nat)
        &&& polytope_dim_of(self.points@, self.vertex_indices@, self.ambient_dim as nat, self.polytope_dim as nat)
        &&& self.well_formed()
    }

    /// Build from a list of integer points that all have the same number of
    /// coordinates.
    pub fn from_points(points: &[Vec<u32>]) -> (r: TropicalNewtonPolytope)
        requires
            same_dims(points@),
            points.len() > 0 ==> points[0]@.len() < 0x4000_0000_0000_0000,
        ensures
            r.built_from(points@),
    {
        if points.len() == 0 {
            return TropicalNewtonPolytope {
                points: vec![],
                vertex_indices: vec![],
                edges: vec![],
                ambient_dim: 0,
                polytope_dim: 0,
            };
        }
        let n = points.len();
        let ambient_dim = points[0].len();
        let mut pts: Vec<Vec<u32>> = Vec::new();
        let mut i: usize = 0;
        while i < n
            invariant
                n == points.len(),
                i <= n,
                pts.len() == i,
                forall|k: int| 0 <= k < i ==> (#[trigger] pts[k])@ == points[k]@,
            decreases n - i,
        {
            let c = points[i].clone();
            assert(c@ =~= points[i as int]@);
            pts.push(c);
            i += 1;
        }
        assert(uniform_dim(pts@, ambient_dim as nat)) by {
            assert forall|k: int| 0 <= k < pts.len() implies (#[trigger] pts@[k]@).len() == ambient_dim by {
                assert(pts@[k]@ == points@[k]@);
            }
        }
        let (vertex_indices, edges) = if ambient_dim == 0 {
            (Vec::new(), Vec::new())
        } else if ambient_dim == 1 {
            let (min_idx, max_idx) = extremes_1d(&pts);
            if min_idx == max_idx {
                (vec![min_idx], Vec::new())
            } else {
                let v = vec![min_idx, max_idx];
                let e = vec![(min_idx, max_idx)];
                assert(e@ =~= seq![(v@[0], v@[1])]);
                (v, e)
            }
        } else if ambient_dim == 2 {
            let (v, e) = gift_wrap_2d_impl(&pts);
            proof {
                if n >= 2 {
                    if !all_at(pts@, v@[0] as int) {
                        lemma_first_at_distinct(pts@, v@);
                    } else {
                        assert(same_point_2d(pts@, v@[1] as int, v@[0] as int));
                    }
                    assert(all_at(pts@, v@[0] as int) <==> all_at(pts@, 0)) by {
                        if all_at(pts@, v@[0] as int) {
                            assert forall|q: int| 0 <= q < n implies #[trigger] same_point_2d(pts@, q, 0) by {
                                assert(same_point_2d(pts@, q, v@[0] as int));
                                assert(same_point_2d(pts@, 0, v@[0] as int));
                            }
                        }
                        if all_at(pts@, 0) {
                            assert forall|q: int| 0 <= q < n implies #[trigger] same_point_2d(pts@, q, v@[0] as int) by {
                                assert(same_point_2d(pts@, q, 0));
                                assert(same_point_2d(pts@, v@[0] as int, 0));
                            }
                        }
                    }
                }
            }
            if n >= 2 && pts[v[0]][0] == pts[v[1]][0] && pts[v[0]][1] == pts[v[1]][1] {
                proof {
                    assert(same_point_2d(pts@, v@[0] as int, v@[1] as int));
                    assert(all_at(pts@, 0)) by {
                        assert(all_at(pts@, v@[0] as int));
                        assert forall|q: int| 0 <= q < n implies #[trigger] same_point_2d(pts@, q, 0) by {
                            assert(same_point_2d(pts@, q, v@[0] as int));
                            assert(same_point_2d(pts@, 0, v@[0] as int));
                        }
                    }
                }
                let v1 = vec![v[0]];
                let e1: Vec<(usize, usize)> = Vec::new();
                assert(v@ == seq![0usize, 1usize]);
                assert(v1@ =~= seq![0usize]);
                assert(hull_of(pts@, v1@, e1@, 2));
                (v1, e1)
            } else if v.len() == 2 {
                let e2 = vec![(v[0], v[1])];
                proof {
                    if n >= 2 {
                        assert(!all_at(pts@, 0)) by {
                            if all_at(pts@, 0) {
                                assert(same_point_2d(pts@, v@[0] as int, 0));
                                assert(same_point_2d(pts@, v@[1] as int, 0));
                            }
                        }
                    }
                    assert(e2@ =~= seq![(v@[0], v@[1])]);
                }
                assert(hull_of(pts@, v@, e2@, 2));
                (v, e2)
            } else {
                proof {
                    if n >= 2 {
                        assert(!all_at(pts@, 0)) by {
                            if all_at(pts@, 0) {
                                assert(all_at(pts@, v@[0] as int)) by {
                                    assert forall|q: int| 0 <= q < n implies #[trigger] same_point_2d(pts@, q, v@[0] as int) by {
                                        assert(same_point_2d(pts@, q, 0));
                                        assert(same_point_2d(pts@, v@[0] as int, 0));
                                    }
                                }
                            }
                        }
                    }
                }
                assert(hull_of(pts@, v@, e@, 2));
                (v, e)
            }
        } else {
            brute_force_hull(&pts)
        };
        proof {
            if ambient_dim >= 3 {
                let v = vertex_indices@;
                lemma_exposed_indices(pts@, n as nat, ambient_dim as nat);
                assert forall|k: int| 0 <= k < v.len() implies #[trigger] is_hull_vertex(pts@, v[k] as int, ambient_dim as nat)
                    && first_copy(pts@, v[k] as int) by {
                    lemma_tried_is_vertex(pts@, v[k] as int, ambient_dim as nat);
                }
                lemma_all_pairs_below(v, v.len());
            }
        }
        let polytope_dim = if vertex_indices.len() <= 1 {
            0
        } else if ambient_dim == 1 {
            1
        } else if ambient_dim == 2 {
            planar_rank_exec(&pts, &vertex_indices)
        } else {
            difference_rank(&pts, &vertex_indices, ambient_dim)
        };
        let r = TropicalNewtonPolytope { points: pts, vertex_indices, edges, ambient_dim, polytope_dim };
        assert(hull_of(r.points@, r.vertex_indices@, r.edges@, r.ambient_dim as nat));
        assert(polytope_dim_of(r.points@, r.vertex_indices@, r.ambient_dim as nat, r.polytope_dim as nat));
        assert(r.well_formed());
        r
    }
}

/// Distinct indices that each hold the first copy of their point hold
/// distinct points.
/// Lagrange's identity in the plane: `(u·a)(u·b) + (u×a)(u×b) = |u|² (a·b)`.
proof fn lemma_lagrange(ux: int, uy: int, ax: int, ay: int, bx: int, by: int)
    ensures
        dot2(ux, uy, ax, ay) * dot2(ux, uy, bx, by) + cross2(ux, uy, ax, ay) * cross2(ux, uy, bx, by) == (ux * ux + uy * uy)
            * dot2(ax, ay, bx, by),
{
    lemma_product_of_sums(ux * ax, uy * ay, ux * bx, uy * by);
    lemma_product_of_sums(ux * ay, -(uy * ax), ux * by, -(uy * bx));
    lemma_product_of_sums(ux * ux, uy * uy, ax * bx, ay * by);
    lemma_swap_product(ux, ax, ux, bx);
    lemma_swap_product(ux, ax, uy, by);
    lemma_swap_product(uy, ay, ux, bx);
    lemma_swap_product(uy, ay, uy, by);
    lemma_swap_product(ux, ay, ux, by);
    lemma_swap_product(ux, ay, uy, bx);
    lemma_swap_product(uy, ax, ux, by);
    lemma_swap_product(uy, ax, uy, bx);
    assert(ux * uy == uy * ux) by (nonlinear_arith);
    assert((ux * ay - uy * ax) == ux * ay + -(uy * ax));
    assert((ux * by - uy * bx) == ux * by + -(uy * bx));
    assert((ux * ay) * (-(uy * bx)) == -((ux * ay) * (uy * bx))) by (nonlinear_arith);
    assert((-(uy * ax)) * (ux * by) == -((uy * ax) * (ux * by))) by (nonlinear_arith);
    assert((-(uy * ax)) * (-(uy * bx)) == (uy * ax) * (uy * bx)) by (nonlinear_arith);
}

proof fn lemma_product_of_sums(a: int, b: int, c: int, d: int)
    ensures
        (a + b) * (c + d) == a * c + a * d + b * c + b * d,
{
    assert((a + b) * (c + d) == a * c + a * d + b * c + b * d) by (nonlinear_arith);
}

proof fn lemma_swap_product(a: int, b: int, c: int, d: int)
    ensures
        (a * b) * (c * d) == (a * c) * (b * d),
{
    assert((a * b) * (c * d) == (a * c) * (b * d)) by (nonlinear_arith);
}

/// Along a line with direction `u`, a walk that arrives at `k` from `p` and
/// has the point `j` in the half-plane of that step moves away from `j`:
/// the positions along `u` of `k - p` and `j - k` have opposite signs.
proof fn lemma_collinear_step_sign(ux: int, uy: int, px: int, py: int, kx: int, ky: int, jx: int, jy: int)
    requires
        !(ux == 0 && uy == 0),
        cross2(ux, uy, px, py) == 0,
        cross2(ux, uy, kx, ky) == 0,
        cross2(ux, uy, jx, jy) == 0,
        in_half(kx - px, ky - py, jx - kx, jy - ky),
        !(jx == kx && jy == ky),
    ensures
        (dot2(ux, uy, kx, ky) - dot2(ux, uy, px, py)) * (dot2(ux, uy, jx, jy) - dot2(ux, uy, kx, ky)) < 0,
{
    let dx = kx - px;
    let dy = ky - py;
    let wx = jx - kx;
    let wy = jy - ky;
    assert(cross2(ux, uy, dx, dy) == cross2(ux, uy, kx, ky) - cross2(ux, uy, px, py)) by (nonlinear_arith)
        requires
            dx == kx - px,
            dy == ky - py,
    ;
    assert(cross2(ux, uy, wx, wy) == cross2(ux, uy, jx, jy) - cross2(ux, uy, kx, ky)) by (nonlinear_arith)
        requires
            wx == jx - kx,
            wy == jy - ky,
    ;
    crate::planar::lemma_both_parallel(ux, uy, dx, dy, wx, wy);
    assert(dot2(dx, dy, wx, wy) < 0);
    let a = dot2(ux, uy, dx, dy);
    let b = dot2(ux, uy, wx, wy);
    let g = dot2(dx, dy, wx, wy);
    let nn = ux * ux + uy * uy;
    lemma_lagrange(ux, uy, dx, dy, wx, wy);
    assert(nn > 0) by (nonlinear_arith)
        requires
            !(ux == 0 && uy == 0),
            nn == ux * ux + uy * uy,
    ;
    assert(nn * g < 0) by (nonlinear_arith)
        requires
            nn > 0,
            g < 0,
    ;
    assert(a == dot2(ux, uy, kx, ky) - dot2(ux, uy, px, py)) by (nonlinear_arith)
        requires
            a == ux * dx + uy * dy,
            dx == kx - px,
            dy == ky - py,
    ;
    assert(b == dot2(ux, uy, jx, jy) - dot2(ux, uy, kx, ky)) by (nonlinear_arith)
        requires
            b == ux * wx + uy * wy,
            wx == jx - kx,
            wy == jy - ky,
    ;
}

/// A planar hull whose vertices lie on one line has two vertices.
proof fn lemma_collinear_hull_two(q: Seq<Vec<u32>>, v: Seq<usize>)
    requires
        2 <= v.len(),
        forall|k: int| 0 <= k < v.len() ==> #[trigger] v[k] < q.len(),
        forall|a: int, b: int|
            0 <= a < v.len() && 0 <= b < v.len() && a != b ==> !same_point_2d(q, #[trigger] v[a] as int, #[trigger] v[b] as int),
        forall|k: int| 0 <= k < v.len() ==> #[trigger] sees_ahead(q, v, k),
        forall|i: int| 0 <= i < v.len() ==> #[trigger] cross(q, v[0] as int, v[1] as int, v[i] as int) == 0,
    ensures
        v.len() <= 2,
{
    if v.len() <= 2 {
        return;
    }
    let l = v.len() as int;
    let o = v[0] as int;
    let ux = rel_x(q, o, v[1] as int);
    let uy = rel_y(q, o, v[1] as int);
    assert(!same_point_2d(q, v[1] as int, v[0] as int));
    let xs = |i: int| rel_x(q, o, v[i] as int);
    let ys = |i: int| rel_y(q, o, v[i] as int);
    let ts = |i: int| dot2(ux, uy, rel_x(q, o, v[i] as int), rel_y(q, o, v[i] as int));
    assert forall|i: int| 0 <= i < l implies #[trigger] cross2(ux, uy, rel_x(q, o, v[i] as int), rel_y(q, o, v[i] as int)) == 0 by {
        assert(cross(q, o, v[1] as int, v[i] as int) == 0);
    }
    assert forall|k: int, j: int| 0 <= k < 3 && 0 <= j < 3 && k != j implies ({
        let pk = if k == 0 { l - 1 } else { k - 1 };
        (#[trigger] ts(k) - ts(pk)) * (#[trigger] ts(j) - ts(k)) < 0
    }) by {
        let pk = if k == 0 { l - 1 } else { k - 1 };
        assert(sees_ahead(q, v, k));
        assert(half_plane_at(q, v[k] as int, rel_x(q, v[pk] as int, v[k] as int), rel_y(q, v[pk] as int, v[k] as int)));
        assert(in_half(
            rel_x(q, v[pk] as int, v[k] as int),
            rel_y(q, v[pk] as int, v[k] as int),
            rel_x(q, v[k] as int, v[j] as int),
            rel_y(q, v[k] as int, v[j] as int),
        ));
        assert(!same_point_2d(q, v[j] as int, v[k] as int));
        assert(cross2(ux, uy, xs(pk), ys(pk)) == 0);
        assert(cross2(ux, uy, xs(k), ys(k)) == 0);
        assert(cross2(ux, uy, xs(j), ys(j)) == 0);
        lemma_collinear_step_sign(ux, uy, xs(pk), ys(pk), xs(k), ys(k), xs(j), ys(j));
    }
    let s0 = ts(0) - ts(l - 1);
    let s1 = ts(1) - ts(0);
    let s2 = ts(2) - ts(1);
    assert(s0 * (ts(1) - ts(0)) < 0);
    assert(s0 * (ts(2) - ts(0)) < 0);
    assert(s1 * (ts(0) - ts(1)) < 0);
    assert(s1 * (ts(2) - ts(1)) < 0);
    assert(s2 * (ts(0) - ts(2)) < 0);
    assert(s2 * (ts(1) - ts(2)) < 0);
    let a = ts(0);
    let b = ts(1);
    let c = ts(2);
    assert(false) by (nonlinear_arith)
        requires
            s0 * (b - a) < 0,
            s0 * (c - a) < 0,
            s1 * (a - b) < 0,
            s1 * (c - b) < 0,
            s2 * (a - c) < 0,
            s2 * (b - c) < 0,
    ;
}

/// The hull of points on a line or in the plane has simple edges: no edge
/// joins a vertex to itself, no two edges join the same two vertices, and a
/// hull of dimension one has exactly one edge.
pub proof fn lemma_hull_edges_simple(r: TropicalNewtonPolytope, p: Seq<Vec<u32>>)
    requires
        r.built_from(p),
        1 <= r.ambient_dim <= 2,
    ensures
        forall|k: int| 0 <= k < r.edges.len() ==> (#[trigger] r.edges[k]).0 != r.edges[k].1,
        forall|k: int, m: int|
            0 <= k < r.edges.len() && 0 <= m < r.edges.len() && k != m ==> #[trigger] r.edges[k] != #[trigger] r.edges[m]
                && r.edges[k] != (r.edges[m].1, r.edges[m].0),
        r.polytope_dim == 1 ==> r.edges.len() == 1,
{
    let v = r.vertex_indices@;
    let e = r.edges@;
    let q = r.points@;
    let n = q.len();
    if r.ambient_dim == 2 && n >= 2 && !all_at(q, 0) && v.len() != 2 {
        assert(e == cycle_edges(v));
        let l = v.len() as int;
        if r.polytope_dim == 1 {
            assert(planar_rank(q, v) == 1);
            assert forall|i: int| 0 <= i < v.len() implies #[trigger] cross(q, v[0] as int, v[1] as int, v[i] as int) == 0 by {
                if cross(q, v[0] as int, v[1] as int, v[i] as int) != 0 {
                    assert(exists|a: int, b: int|
                        0 <= a < v.len() && 0 <= b < v.len() && #[trigger] cross(q, v[0] as int, v[a] as int, v[b] as int) != 0);
                }
            }
            lemma_collinear_hull_two(q, v);
        }
        assert forall|k: int| 0 <= k < e.len() implies (#[trigger] e[k]).0 != e[k].1 by {
            let j = if k + 1 < l { k + 1 } else { 0 };
            assert(e[k] == (v[k], v[j]));
        }
        assert forall|k: int, m: int|
            0 <= k < e.len() && 0 <= m < e.len() && k != m implies #[trigger] e[k] != #[trigger] e[m] && e[k] != (e[m].1, e[m].0) by {
            let k1 = if k + 1 < l { k + 1 } else { 0 };
            let m1 = if m + 1 < l { m + 1 } else { 0 };
            assert(e[k] == (v[k], v[k1]));
            assert(e[m] == (v[m], v[m1]));
            if e[k] == (e[m].1, e[m].0) {
                assert(v[k] == v[m1] && v[k1] == v[m]);
                assert(k == m1 && k1 == m);
            }
        }
    }
}

proof fn lemma_first_at_distinct(p: Seq<Vec<u32>>, v: Seq<usize>)
    requires
        v.no_duplicates(),
        forall|k: int| 0 <= k < v.len() ==> #[trigger] first_at(p, v[k] as int),
    ensures
        forall|a: int, b: int|
            0 <= a < v.len() && 0 <= b < v.len() && a != b ==> !same_point_2d(p, #[trigger] v[a] as int, #[trigger] v[b] as int),
{
    assert forall|a: int, b: int| 0 <= a < v.len() && 0 <= b < v.len() && a != b implies !same_point_2d(
        p,
        #[trigger] v[a] as int,
        #[trigger] v[b] as int,
    ) by {
        assert(first_at(p, v[a] as int));
        assert(first_at(p, v[b] as int));
        if v[a] < v[b] {
            assert(!same_point_2d(p, v[a] as int, v[b] as int));
        } else {
            assert(v[a] != v[b]);
            assert(!same_point_2d(p, v[b] as int, v[a] as int));
        }
    }
}

proof fn lemma_all_pairs_below(v: Seq<usize>, rows: nat)
    ensures
        forall|k: int| 0 <= k < pairs_below(v, rows).len() ==> v.contains(#[trigger] pairs_below(v, rows)[k].0)
            && v.contains(pairs_below(v, rows)[k].1),
    decreases rows,
{
    if rows > 0 {
        lemma_all_pairs_below(v, (rows - 1) as nat);
        let prev = pairs_below(v, (rows - 1) as nat);
        let a = rows - 1;
        assert forall|k: int| 0 <= k < pairs_below(v, rows).len() implies v.contains(
            #[trigger] pairs_below(v, rows)[k].0,
        ) && v.contains(pairs_below(v, rows)[k].1) by {
            if k < prev.len() {
                assert(pairs_below(v, rows)[k] == prev[k]);
            } else {
                let j = k - prev.len();
                assert(pairs_below(v, rows)[k] == (v[a], v[a + 1 + j]));
                assert(v[a] == v[a as int]);
            }
        }
    }
}

/// Sum of the first `k` coordinates of a point.
pub open spec fn coord_sum(x: Seq<u32>, k: nat) -> int
    decreases k,
{
    if k == 0 {
        0
    } else {
        coord_sum(x, (k - 1) as nat) + x[k - 1] as int
    }
}

/// The total degree of an exponent point: the sum of its coordinates.
pub open spec fn total_degree(x: Seq<u32>) -> int {
    coord_sum(x, x.len())
}

proof fn lemma_coord_sum_monotone(x: Seq<u32>, k: nat, l: nat)
    requires
        k <= l <= x.len(),
    ensures
        0 <= coord_sum(x, k) <= coord_sum(x, l),
    decreases l,
{
    if k < l {
        lemma_coord_sum_monotone(x, k, (l - 1) as nat);
    } else if l > 0 {
        lemma_coord_sum_monotone(x, (l - 1) as nat, (l - 1) as nat);
    }
}

/// The sum of the coordinates of `x`, which must fit in a `u32`.
pub fn sum_of_coords(x: &Vec<u32>) -> (r: u32)
    requires
        total_degree(x@) <= u32::MAX,
    ensures
        r == total_degree(x@),
{
    let mut acc: u32 = 0;
    let mut t: usize = 0;
    while t < x.len()
        invariant
            total_degree(x@) <= u32::MAX,
            t <= x.len(),
            acc == coord_sum(x@, t as nat),
        decreases x.len() - t,
    {
        proof {
            lemma_coord_sum_monotone(x@, (t + 1) as nat, x.len() as nat);
        }
        acc = acc + x[t];
        t += 1;
    }
    acc
}

/// The largest total degree among the points `p[v[i]]` for `i < k` (zero if none).
pub open spec fn max_degree_prefix(p: Seq<Vec<u32>>, v: Seq<usize>, k: nat) -> int
    decreases k,
{
    if k == 0 {
        0
    } else {
        let m = max_degree_prefix(p, v, (k - 1) as nat);
        let d = total_degree(p[v[k - 1] as int]@);
        if d > m {
            d
        } else {
            m
        }
    }
}

/// The other ends of the edges in `e[..k]` that touch `x`, in edge order.
pub open spec fn neighbors_prefix(e: Seq<(usize, usize)>, x: usize, k: nat) -> Seq<usize>
    decreases k,
{
    if k == 0 {
        Seq::empty()
    } else {
        let r = neighbors_prefix(e, x, (k - 1) as nat);
        let (a, b) = e[k - 1];
        if a == x {
            r.push(b)
        } else if b == x {
            r.push(a)
        } else {
            r
        }
    }
}

/// `Σ_i (x_i · y_{i+1} - x_{i+1} · y_i)` over the first `k` sides of the
/// polygon through the points `p[v[0]], p[v[1]], ...`, closed at the end.
pub open spec fn shoelace_prefix(p: Seq<Vec<u32>>, v: Seq<usize>, k: nat) -> int
    decreases k,
{
    if k == 0 {
        0
    } else {
        let i = k - 1;
        let j = if i + 1 < v.len() { i + 1 } else { 0 };
        shoelace_prefix(p, v, (k - 1) as nat) + coord(p, v[i] as int, 0) * coord(p, v[j] as int, 1)
            - coord(p, v[j] as int, 0) * coord(p, v[i] as int, 1)
    }
}

/// One side `i -> j` of the shoelace sum with both ends moved by `(a, b)`
/// gains `a (y_j - y_i) + b (x_i - x_j)`.
proof fn lemma_shoelace_side_shift(xi: int, yi: int, xj: int, yj: int, a: int, b: int)
    ensures
        (xi + a) * (yj + b) - (xj + a) * (yi + b) == xi * yj - xj * yi + a * (yj - yi) + b * (xi - xj),
{
    lemma_product_of_sums(xi, a, yj, b);
    lemma_product_of_sums(xj, a, yi, b);
    assert(a * yj - a * yi == a * (yj - yi)) by (nonlinear_arith);
    assert(xi * b - xj * b == b * (xi - xj)) by (nonlinear_arith);
    assert(a * b == a * b);
}

proof fn lemma_shoelace_shift_prefix(p: Seq<Vec<u32>>, q: Seq<Vec<u32>>, v: Seq<usize>, a: int, b: int, k: nat)
    requires
        1 <= v.len(),
        k < v.len(),
        forall|i: int| 0 <= i < v.len() ==> coord(q, #[trigger] v[i] as int, 0) == coord(p, v[i] as int, 0) + a
            && coord(q, v[i] as int, 1) == coord(p, v[i] as int, 1) + b,
    ensures
        shoelace_prefix(q, v, k) == shoelace_prefix(p, v, k) + a * (coord(p, v[k as int] as int, 1) - coord(p, v[0] as int, 1))
            + b * (coord(p, v[0] as int, 0) - coord(p, v[k as int] as int, 0)),
    decreases k,
{
    if k == 0 {
        assert(a * (coord(p, v[0] as int, 1) - coord(p, v[0] as int, 1)) == 0) by (nonlinear_arith);
        assert(b * (coord(p, v[0] as int, 0) - coord(p, v[0] as int, 0)) == 0) by (nonlinear_arith);
    } else {
        let i = k - 1;
        lemma_shoelace_shift_prefix(p, q, v, a, b, (k - 1) as nat);
        let xi = coord(p, v[i] as int, 0);
        let yi = coord(p, v[i] as int, 1);
        let xj = coord(p, v[k as int] as int, 0);
        let yj = coord(p, v[k as int] as int, 1);
        let x0 = coord(p, v[0] as int, 0);
        let y0 = coord(p, v[0] as int, 1);
        assert(coord(q, v[i] as int, 0) == xi + a && coord(q, v[i] as int, 1) == yi + b);
        assert(coord(q, v[k as int] as int, 0) == xj + a && coord(q, v[k as int] as int, 1) == yj + b);
        lemma_shoelace_side_shift(xi, yi, xj, yj, a, b);
        assert(a * (yi - y0) + a * (yj - yi) == a * (yj - y0)) by (nonlinear_arith);
        assert(b * (x0 - xi) + b * (xi - xj) == b * (x0 - xj)) by (nonlinear_arith);
    }
}

/// The shoelace sum over a closed polygon does not change when every vertex
/// is moved by the same vector `(a, b)`: the normalized volume of a Newton
/// polygon is a property of its shape, not of where it lies. (The side back
/// from the last vertex to the first is what makes the sum close up.)
pub proof fn lemma_shoelace_translation(p: Seq<Vec<u32>>, q: Seq<Vec<u32>>, v: Seq<usize>, a: int, b: int)
    requires
        forall|i: int| 0 <= i < v.len() ==> coord(q, #[trigger] v[i] as int, 0) == coord(p, v[i] as int, 0) + a
            && coord(q, v[i] as int, 1) == coord(p, v[i] as int, 1) + b,
    ensures
        shoelace_prefix(q, v, v.len() as nat) == shoelace_prefix(p, v, v.len() as nat),
{
    let n = v.len();
    if n > 0 {
        let l = (n - 1) as int;
        lemma_shoelace_shift_prefix(p, q, v, a, b, l as nat);
        let xi = coord(p, v[l] as int, 0);
        let yi = coord(p, v[l] as int, 1);
        let x0 = coord(p, v[0] as int, 0);
        let y0 = coord(p, v[0] as int, 1);
        assert(coord(q, v[l] as int, 0) == xi + a && coord(q, v[l] as int, 1) == yi + b);
        assert(coord(q, v[0] as int, 0) == x0 + a && coord(q, v[0] as int, 1) == y0 + b);
        lemma_shoelace_side_shift(xi, yi, x0, y0, a, b);
        assert(a * (yi - y0) + a * (y0 - yi) == 0) by (nonlinear_arith);
        assert(b * (x0 - xi) + b * (xi - x0) == 0) by (nonlinear_arith);
    }
}

/// For a triangle the shoelace sum is the cross product of two of its
/// sides: twice the signed area.
pub proof fn lemma_shoelace_triangle(p: Seq<Vec<u32>>, v: Seq<usize>)
    requires
        v.len() == 3,
    ensures
        shoelace_prefix(p, v, 3) == cross(p, v[0] as int, v[1] as int, v[2] as int),
{
    let x0 = coord(p, v[0] as int, 0);
    let y0 = coord(p, v[0] as int, 1);
    let x1 = coord(p, v[1] as int, 0);
    let y1 = coord(p, v[1] as int, 1);
    let x2 = coord(p, v[2] as int, 0);
    let y2 = coord(p, v[2] as int, 1);
    assert(shoelace_prefix(p, v, 0) == 0);
    assert(shoelace_prefix(p, v, 1) == x0 * y1 - x1 * y0);
    assert(shoelace_prefix(p, v, 2) == x0 * y1 - x1 * y0 + x1 * y2 - x2 * y1);
    assert(shoelace_prefix(p, v, 3) == x0 * y1 - x1 * y0 + x1 * y2 - x2 * y1 + x2 * y0 - x0 * y2);
    assert((x1 - x0) * (y2 - y0) - (y1 - y0) * (x2 - x0) == x0 * y1 - x1 * y0 + x1 * y2 - x2 * y1 + x2 * y0 - x0 * y2)
        by (nonlinear_arith);
}

proof fn lemma_coord_sum_concat(x: Seq<u32>, y: Seq<u32>, k: nat)
    requires
        k <= y.len(),
    ensures
        coord_sum(x + y, x.len() + k) == coord_sum(x, x.len()) + coord_sum(y, k),
    decreases k,
{
    if k > 0 {
        lemma_coord_sum_concat(x, y, (k - 1) as nat);
        assert((x + y)[x.len() + k - 1] == y[k - 1]);
    } else {
        lemma_coord_sum_prefix_of_concat(x, y, x.len());
    }
}

proof fn lemma_coord_sum_prefix_of_concat(x: Seq<u32>, y: Seq<u32>, k: nat)
    requires
        k <= x.len(),
    ensures
        coord_sum(x + y, k) == coord_sum(x, k),
    decreases k,
{
    if k > 0 {
        lemma_coord_sum_prefix_of_concat(x, y, (k - 1) as nat);
        assert((x + y)[k - 1] == x[k - 1]);
    }
}

proof fn lemma_coord_sum_bounds_each(x: Seq<u32>, k: nat)
    requires
        k <= x.len(),
    ensures
        forall|i: int| 0 <= i < k ==> #[trigger] x[i] as int <= coord_sum(x, k),
        coord_sum(x, k) >= 0,
    decreases k,
{
    if k > 0 {
        lemma_coord_sum_bounds_each(x, (k - 1) as nat);
    }
}

/// The total degree of a monomial is the sum of its exponents: it is at
/// least each exponent, and the total degree of two exponent lists joined
/// end to end is the sum of their total degrees.
pub proof fn lemma_total_degree_sums(x: Seq<u32>, y: Seq<u32>)
    ensures
        forall|i: int| 0 <= i < x.len() ==> #[trigger] x[i] as int <= total_degree(x),
        total_degree(x + y) == total_degree(x) + total_degree(y),
{
    lemma_coord_sum_bounds_each(x, x.len());
    lemma_coord_sum_concat(x, y, y.len());
}

proof fn lemma_neighbors_prefix(e: Seq<(usize, usize)>, x: usize, k: nat)
    requires
        k <= e.len(),
    ensures
        forall|y: usize| #[trigger] neighbors_prefix(e, x, k).contains(y) <==> exists|m: int|
            0 <= m < k && ((#[trigger] e[m]).0 == x && e[m].1 == y || e[m].1 == x && e[m].0 == y && e[m].0 != x),
    decreases k,
{
    if k > 0 {
        let k1 = (k - 1) as nat;
        lemma_neighbors_prefix(e, x, k1);
        let r = neighbors_prefix(e, x, k1);
        assert forall|y: usize| #[trigger] neighbors_prefix(e, x, k).contains(y) <==> exists|m: int|
            0 <= m < k && ((#[trigger] e[m]).0 == x && e[m].1 == y || e[m].1 == x && e[m].0 == y && e[m].0 != x) by {
            let s = neighbors_prefix(e, x, k);
            if s.contains(y) {
                let j = choose|j: int| 0 <= j < s.len() && s[j] == y;
                if j < r.len() {
                    assert(r[j] == s[j]);
                    assert(r.contains(y));
                    let m = choose|m: int| 0 <= m < k1 && ((#[trigger] e[m]).0 == x && e[m].1 == y || e[m].1 == x && e[m].0 == y && e[m].0 != x);
                } else {
                    assert(e[k1 as int].0 == x && e[k1 as int].1 == y || e[k1 as int].1 == x && e[k1 as int].0 == y && e[k1 as int].0 != x);
                }
            }
            if exists|m: int| 0 <= m < k && ((#[trigger] e[m]).0 == x && e[m].1 == y || e[m].1 == x && e[m].0 == y && e[m].0 != x) {
                let m = choose|m: int| 0 <= m < k && ((#[trigger] e[m]).0 == x && e[m].1 == y || e[m].1 == x && e[m].0 == y && e[m].0 != x);
                if m < k1 {
                    assert(r.contains(y));
                    let j = choose|j: int| 0 <= j < r.len() && r[j] == y;
                    assert(s[j] == y);
                } else {
                    assert(s[s.len() - 1] == y);
                }
            }
        }
    }
}

/// The neighbours of a vertex are exactly the other ends of the edges that
/// touch it.
pub proof fn lemma_neighbors(e: Seq<(usize, usize)>, x: usize)
    ensures
        forall|y: usize| #[trigger] neighbors_prefix(e, x, e.len()).contains(y) <==> exists|m: int|
            0 <= m < e.len() && ((#[trigger] e[m]).0 == x && e[m].1 == y || e[m].1 == x && e[m].0 == y && e[m].0 != x),
{
    lemma_neighbors_prefix(e, x, e.len());
}

impl TropicalNewtonPolytope {
    /// The vertex points (only hull vertices, not interior points).
    pub fn vertices(&self) -> (r: Vec<&Vec<u32>>)
        requires
            self.well_formed(),
        ensures
            r.len() == self.vertex_indices.len(),
            forall|k: int| 0 <= k < r.len() ==> *(#[trigger] r[k]) == self.points[self.vertex_indices[k] as int],
    {
        let mut r: Vec<&Vec<u32>> = Vec::new();
        let mut k: usize = 0;
        while k < self.vertex_indices.len()
            invariant
                self.well_formed(),
                k <= self.vertex_indices.len(),
                r.len() == k,
                forall|j: int| 0 <= j < k ==> *(#[trigger] r[j]) == self.points[self.vertex_indices[j] as int],
            decreases self.vertex_indices.len() - k,
        {
            r.push(&self.points[self.vertex_indices[k]]);
            k += 1;
        }
        r
    }

    /// Number of vertices.
    pub fn num_vertices(&self) -> (r: usize)
        ensures
            r == self.vertex_indices.len(),
    {
        self.vertex_indices.len()
    }

    /// Number of edges.
    pub fn num_edges(&self) -> (r: usize)
        ensures
            r == self.edges.len(),
    {
        self.edges.len()
    }

    /// Check if a point is a vertex of the hull.
    pub fn is_vertex(&self, point_idx: usize) -> (r: bool)
        ensures
            r == self.vertex_indices@.contains(point_idx),
    {
        let mut k: usize = 0;
        while k < self.vertex_indices.len()
            invariant
                k <= self.vertex_indices.len(),
                forall|j: int| 0 <= j < k ==> self.vertex_indices[j] != point_idx,
            decreases self.vertex_indices.len() - k,
        {
            if self.vertex_indices[k] == point_idx {
                assert(self.vertex_indices@[k as int] == point_idx);
                return true;
            }
            k += 1;
        }
        false
    }

    /// Degree of the polytope: max sum of exponents among vertices.
    pub fn degree(&self) -> (r: u32)
        requires
            self.well_formed(),
            forall|k: int| 0 <= k < self.vertex_indices.len() ==> total_degree(
                #[trigger] self.points[self.vertex_indices[k] as int]@,
            ) <= u32::MAX,
        ensures
            r == max_degree_prefix(self.points@, self.vertex_indices@, self.vertex_indices.len() as nat),
    {
        let mut best: u32 = 0;
        let mut k: usize = 0;
        while k < self.vertex_indices.len()
            invariant
                self.well_formed(),
                forall|k: int| 0 <= k < self.vertex_indices.len() ==> total_degree(
                    #[trigger] self.points[self.vertex_indices[k] as int]@,
                ) <= u32::MAX,
                k <= self.vertex_indices.len(),
                best == max_degree_prefix(self.points@, self.vertex_indices@, k as nat),
            decreases self.vertex_indices.len() - k,
        {
            let d = sum_of_coords(&self.points[self.vertex_indices[k]]);
            if d > best {
                best = d;
            }
            k += 1;
        }
        best
    }

    /// Neighbors of a vertex (connected by edges).
    pub fn neighbors(&self, vertex_idx: usize) -> (r: Vec<usize>)
        ensures
            r@ == neighbors_prefix(self.edges@, vertex_idx, self.edges.len() as nat),
    {
        let mut r: Vec<usize> = Vec::new();
        let mut k: usize = 0;
        while k < self.edges.len()
            invariant
                k <= self.edges.len(),
                r@ == neighbors_prefix(self.edges@, vertex_idx, k as nat),
            decreases self.edges.len() - k,
        {
            let (a, b) = self.edges[k];
            if a == vertex_idx {
                r.push(b);
            } else if b == vertex_idx {
                r.push(a);
            }
            k += 1;
        }
        r
    }

    /// Twice the area of a planar polytope (its normalized volume), by the
    /// shoelace formula over the vertices in hull order; zero unless the
    /// polytope is two-dimensional with at least three vertices.
    pub fn normalized_volume(&self) -> (r: u128)
        requires
            self.well_formed(),
            self.vertex_indices.len() < 0x4000_0000_0000_0000,
            self.polytope_dim == 2 ==> forall|k: int|
                0 <= k < self.vertex_indices.len() ==> (#[trigger] self.points[self.vertex_indices[k] as int])@.len() >= 2,
        ensures
            self.polytope_dim != 2 || self.vertex_indices.len() < 3 ==> r == 0,
            self.polytope_dim == 2 && self.vertex_indices.len() >= 3 ==> r == abs_value(
                shoelace_prefix(self.points@, self.vertex_indices@, self.vertex_indices.len() as nat),
            ),
    {
        if self.polytope_dim != 2 || self.vertex_indices.len() < 3 {
            return 0;
        }
        let n = self.vertex_indices.len();
        let mut area: i128 = 0;
        let mut i: usize = 0;
        while i < n
            invariant
                self.well_formed(),
                n == self.vertex_indices.len(),
                n < 0x4000_0000_0000_0000,
                forall|k: int| 0 <= k < n ==> (#[trigger] self.points[self.vertex_indices[k] as int])@.len() >= 2,
                i <= n,
                area == shoelace_prefix(self.points@, self.vertex_indices@, i as nat),
                -(i as int) * 0x1_0000_0000_0000_0000 <= area <= (i as int) * 0x1_0000_0000_0000_0000,
            decreases n - i,
        {
            let j = if i + 1 < n { i + 1 } else { 0 };
            let vi = &self.points[self.vertex_indices[i]];
            let vj = &self.points[self.vertex_indices[j]];
            assert(vi@.len() >= 2 && vj@.len() >= 2);
            let x0 = vi[0] as i128;
            let y1 = vj[1] as i128;
            let x1 = vj[0] as i128;
            let y0 = vi[1] as i128;
            assert(0 <= x0 * y1 < 0x1_0000_0000_0000_0000) by (nonlinear_arith)
                requires
                    0 <= x0 < 0x1_0000_0000,
                    0 <= y1 < 0x1_0000_0000,
            ;
            assert(0 <= x1 * y0 < 0x1_0000_0000_0000_0000) by (nonlinear_arith)
                requires
                    0 <= x1 < 0x1_0000_0000,
                    0 <= y0 < 0x1_0000_0000,
            ;
            let a = x0 * y1;
            let b = x1 * y0;
            area = area + a - b;
            i += 1;
        }
        if area < 0 {
            (-area) as u128
        } else {
            area as u128
        }
    }
}

/// Absolute value of an integer.
pub open spec fn abs_value(x: int) -> int {
    if x < 0 {
        -x
    } else {
        x
    }
}

// ---------------------------------------------------------------------------
// Lexicographic order on points, and sorted sets of points
// ---------------------------------------------------------------------------

/// `a` and `b` agree before coordinate `k`, and `a[k] < b[k]`.
pub open spec fn point_diff_at(a: Seq<u32>, b: Seq<u32>, k: int) -> bool {
    &&& 0 <= k < a.len()
    &&& k < b.len()
    &&& a[k] < b[k]
    &&& forall|m: int| 0 <= m < k ==> a[m] == b[m]
}

/// Strict lexicographic order on points with the same number of coordinates.
pub open spec fn point_lt(a: Seq<u32>, b: Seq<u32>) -> bool {
    &&& a.len() == b.len()
    &&& exists|k: int| #[trigger] point_diff_at(a, b, k)
}

proof fn lemma_point_lt_asymmetric(a: Seq<u32>, b: Seq<u32>)
    requires
        point_lt(a, b),
    ensures
        !point_lt(b, a),
        a != b,
{
    let k = choose|k: int| #[trigger] point_diff_at(a, b, k);
    if point_lt(b, a) {
        let l = choose|l: int| #[trigger] point_diff_at(b, a, l);
        if k < l {
            assert(b[k] == a[k]);
        } else if l < k {
            assert(a[l] == b[l]);
        }
    }
}

proof fn lemma_point_lt_transitive(a: Seq<u32>, b: Seq<u32>, c: Seq<u32>)
    requires
        point_lt(a, b),
        point_lt(b, c),
    ensures
        point_lt(a, c),
{
    let k = choose|k: int| #[trigger] point_diff_at(a, b, k);
    let l = choose|l: int| #[trigger] point_diff_at(b, c, l);
    if k <= l {
        assert(point_diff_at(a, c, k));
    } else {
        assert(point_diff_at(a, c, l));
    }
}

proof fn lemma_point_least_difference(a: Seq<u32>, b: Seq<u32>, k: int)
    requires
        0 <= k < a.len(),
        k < b.len(),
        a[k] != b[k],
    ensures
        exists|m: int| 0 <= m <= k && a[m] != b[m] && forall|i: int| 0 <= i < m ==> a[i] == b[i],
    decreases k,
{
    if exists|i: int| 0 <= i < k && a[i] != b[i] {
        let i = choose|i: int| 0 <= i < k && a[i] != b[i];
        lemma_point_least_difference(a, b, i);
    }
}

proof fn lemma_point_lt_total(a: Seq<u32>, b: Seq<u32>)
    requires
        a.len() == b.len(),
    ensures
        a == b || point_lt(a, b) || point_lt(b, a),
{
    if a != b {
        assert(!(a =~= b));
        let k = choose|k: int| 0 <= k < a.len() && a[k] != b[k];
        lemma_point_least_difference(a, b, k);
        let m = choose|m: int|
            0 <= m <= k && a[m] != b[m] && forall|i: int| 0 <= i < m ==> a[i] == b[i];
        if a[m] < b[m] {
            assert(point_diff_at(a, b, m));
        } else {
            assert(point_diff_at(b, a, m));
        }
    }
}

/// The points in `s` are in strictly ascending lexicographic order.
pub open spec fn strictly_ascending(s: Seq<Vec<u32>>) -> bool {
    forall|i: int, j: int| 0 <= i < j < s.len() ==> point_lt(s[i]@, s[j]@)
}

/// Some point of `s` has the coordinates `x`.
pub open spec fn holds_point(s: Seq<Vec<u32>>, x: Seq<u32>) -> bool {
    exists|i: int| 0 <= i < s.len() && (#[trigger] s[i])@ == x
}

fn point_less(a: &Vec<u32>, b: &Vec<u32>) -> (r: bool)
    requires
        a.len() == b.len(),
    ensures
        r == point_lt(a@, b@),
{
    let mut k: usize = 0;
    while k < a.len()
        invariant
            a.len() == b.len(),
            k <= a.len(),
            forall|m: int| 0 <= m < k ==> a@[m] == b@[m],
        decreases a.len() - k,
    {
        if a[k] < b[k] {
            assert(point_diff_at(a@, b@, k as int));
            return true;
        }
        if a[k] > b[k] {
            assert(point_diff_at(b@, a@, k as int));
            proof {
                lemma_point_lt_asymmetric(b@, a@);
            }
            return false;
        }
        k += 1;
    }
    assert(a@ =~= b@);
    false
}

/// Inserting `x` where it belongs keeps a list strictly ascending.
#[verifier::spinoff_prover]
proof fn lemma_ascending_after_insert(s0: Seq<Vec<u32>>, pos: int, x: Vec<u32>)
    requires
        strictly_ascending(s0),
        0 <= pos <= s0.len(),
        forall|m: int| 0 <= m < pos ==> point_lt(s0[m]@, x@),
        pos < s0.len() ==> point_lt(x@, s0[pos]@),
    ensures
        strictly_ascending(s0.insert(pos, x)),
{
    let s = s0.insert(pos, x);
    let xv = x@;
    assert forall|i: int, j: int| 0 <= i < j < s.len() implies point_lt(s[i]@, s[j]@) by {
        if j < pos {
        } else if j == pos {
        } else if i < pos {
            assert(s[j] == s0[j - 1]);
            if j - 1 == pos {
            } else {
                assert(point_lt(s0[pos]@, s0[j - 1]@));
                lemma_point_lt_transitive(xv, s0[pos]@, s0[j - 1]@);
            }
            lemma_point_lt_transitive(s0[i]@, xv, s0[j - 1]@);
        } else if i == pos {
            if j - 1 == pos {
            } else {
                assert(point_lt(s0[pos]@, s0[j - 1]@));
                lemma_point_lt_transitive(xv, s0[pos]@, s0[j - 1]@);
            }
        } else {
            assert(s[i] == s0[i - 1]);
            assert(s[j] == s0[j - 1]);
        }
    }
}

/// The points held after inserting `x` at `pos` are those held before, and `x`.
#[verifier::spinoff_prover]
proof fn lemma_holds_after_insert(s0: Seq<Vec<u32>>, pos: int, x: Vec<u32>, s: Seq<Vec<u32>>)
    requires
        0 <= pos <= s0.len(),
        s == s0.insert(pos, x),
    ensures
        forall|y: Seq<u32>| holds_point(s, y) <==> (holds_point(s0, y) || y == x@),
{
    assert forall|y: Seq<u32>| holds_point(s, y) <==> (holds_point(s0, y) || y == x@) by {
        if holds_point(s, y) {
            let i = choose|i: int| 0 <= i < s.len() && (#[trigger] s[i])@ == y;
            if i < pos {
                assert(s0[i]@ == y);
            } else if i > pos {
                assert(s0[i - 1]@ == y);
            }
        }
        if holds_point(s0, y) {
            let i = choose|i: int| 0 <= i < s0.len() && (#[trigger] s0[i])@ == y;
            if i < pos {
                assert(s[i]@ == y);
            } else {
                assert(s[i + 1]@ == y);
            }
        }
        if y == x@ {
            assert(s[pos]@ == y);
        }
    }
}

/// Insert the point `x` into the strictly ascending list `s`, unless it is
/// already there.
pub(crate) fn insert_point(s: &mut Vec<Vec<u32>>, x: Vec<u32>)
    requires
        strictly_ascending(old(s)@),
        uniform_dim(old(s)@, x.len() as nat),
    ensures
        strictly_ascending(final(s)@),
        uniform_dim(final(s)@, x.len() as nat),
        forall|y: Seq<u32>| holds_point(final(s)@, y) <==> (holds_point(old(s)@, y) || y == x@),
{
    let ghost s0 = s@;
    let mut pos: usize = 0;
    while pos < s.len() && point_less(&s[pos], &x)
        invariant
            s@ == s0,
            uniform_dim(s0, x.len() as nat),
            pos <= s.len(),
            forall|m: int| 0 <= m < pos ==> point_lt(s0[m]@, x@),
        decreases s.len() - pos,
    {
        pos += 1;
    }
    if pos < s.len() {
        assert(s0[pos as int]@.len() == x@.len());
        proof {
            lemma_point_lt_total(s0[pos as int]@, x@);
        }
        if !point_less(&x, &s[pos]) {
            // s[pos] is x itself
            assert(s0[pos as int]@ == x@);
            assert forall|y: Seq<u32>| holds_point(s@, y) <==> (holds_point(s0, y) || y == x@) by {
                if y == x@ {
                    assert(s0[pos as int]@ == y);
                }
            }
            return;
        }
    }
    let ghost xg = x;
    s.insert(pos, x);
    assert(s@ == s0.insert(pos as int, xg));
    proof {
        lemma_ascending_after_insert(s0, pos as int, xg);
        lemma_holds_after_insert(s0, pos as int, xg, s@);
    }
}

// ---------------------------------------------------------------------------
// Minkowski sum
// ---------------------------------------------------------------------------

/// Coordinatewise sum of two points, over the coordinates both have.
pub open spec fn zip_sum(a: Seq<u32>, b: Seq<u32>) -> Seq<u32> {
    Seq::new(
        if a.len() <= b.len() { a.len() } else { b.len() },
        |k: int| (a[k] + b[k]) as u32,
    )
}

/// Every coordinatewise sum of a vertex of `p1` and a vertex of `p2` fits
/// in a `u32`.
pub open spec fn vertex_sums_fit(p1: TropicalNewtonPolytope, p2: TropicalNewtonPolytope) -> bool {
    forall|a: int, b: int, k: int|
        0 <= a < p1.vertex_indices.len() && 0 <= b < p2.vertex_indices.len() && 0 <= k < p1.points[p1.vertex_indices[a] as int]@.len()
            && 0 <= k < p2.points[p2.vertex_indices[b] as int]@.len() ==> #[trigger] p1.points[p1.vertex_indices[a] as int]@[k]
            + #[trigger] p2.points[p2.vertex_indices[b] as int]@[k] <= u32::MAX
}

/// `x` is the sum of a vertex of `p1` and a vertex of `p2`.
pub open spec fn is_vertex_sum(p1: TropicalNewtonPolytope, p2: TropicalNewtonPolytope, x: Seq<u32>) -> bool {
    exists|a: int, b: int|
        0 <= a < p1.vertex_indices.len() && 0 <= b < p2.vertex_indices.len() && x == zip_sum(
            #[trigger] p1.points[p1.vertex_indices[a] as int]@,
            #[trigger] p2.points[p2.vertex_indices[b] as int]@,
        )
}

pub(crate) fn zip_sum_exec(a: &Vec<u32>, b: &Vec<u32>) -> (r: Vec<u32>)
    requires
        forall|k: int| 0 <= k < a.len() && 0 <= k < b.len() ==> #[trigger] a@[k] + #[trigger] b@[k] <= u32::MAX,
    ensures
        r@ == zip_sum(a@, b@),
{
    let m = if a.len() <= b.len() { a.len() } else { b.len() };
    let mut r: Vec<u32> = Vec::new();
    let mut k: usize = 0;
    while k < m
        invariant
            m == (if a.len() <= b.len() { a.len() } else { b.len() }),
            forall|k: int| 0 <= k < a.len() && 0 <= k < b.len() ==> #[trigger] a@[k] + #[trigger] b@[k] <= u32::MAX,
            k <= m,
            r@ == zip_sum(a@, b@).take(k as int),
        decreases m - k,
    {
        assert(a@[k as int] + b@[k as int] <= u32::MAX);
        r.push(a[k] + b[k]);
        k += 1;
        assert(r@ =~= zip_sum(a@, b@).take(k as int));
    }
    assert(r@ =~= zip_sum(a@, b@));
    r
}

/// `r` holds, in strictly ascending order, exactly the sums of a vertex of
/// `p1` and a vertex of `p2`.
pub open spec fn is_minkowski_sum(p1: TropicalNewtonPolytope, p2: TropicalNewtonPolytope, r: TropicalNewtonPolytope) -> bool {
    &&& strictly_ascending(r.points@)
    &&& forall|i: int| 0 <= i < r.points.len() ==> is_vertex_sum(p1, p2, #[trigger] r.points[i]@)
    &&& forall|a: int, b: int|
        0 <= a < p1.vertex_indices.len() && 0 <= b < p2.vertex_indices.len() ==> holds_point(
            r.points@,
            zip_sum(#[trigger] p1.points[p1.vertex_indices[a] as int]@, #[trigger] p2.points[p2.vertex_indices[b] as int]@),
        )
}

/// Two strictly ascending lists that hold the same points are the same list.
proof fn lemma_ascending_same_points(s: Seq<Vec<u32>>, t: Seq<Vec<u32>>)
    requires
        strictly_ascending(s),
        strictly_ascending(t),
        forall|y: Seq<u32>| holds_point(s, y) <==> holds_point(t, y),
    ensures
        s.len() == t.len(),
        forall|i: int| 0 <= i < s.len() ==> (#[trigger] s[i])@ == t[i]@,
    decreases s.len(),
{
    if s.len() == 0 {
        if t.len() > 0 {
            assert(holds_point(t, t[0]@));
        }
    } else if t.len() == 0 {
        assert(holds_point(s, s[0]@));
    } else {
        assert(holds_point(s, s[0]@));
        assert(holds_point(t, t[0]@));
        let j = choose|j: int| 0 <= j < t.len() && (#[trigger] t[j])@ == s[0]@;
        let i = choose|i: int| 0 <= i < s.len() && (#[trigger] s[i])@ == t[0]@;
        if j > 0 && i > 0 {
            assert(point_lt(t[0]@, t[j]@));
            assert(point_lt(s[0]@, s[i]@));
            lemma_point_lt_asymmetric(t[0]@, s[0]@);
        }
        assert(s[0]@ == t[0]@) by {
            if j > 0 {
                assert(i == 0);
            }
        }
        let s1 = s.drop_first();
        let t1 = t.drop_first();
        assert forall|y: Seq<u32>| holds_point(s1, y) <==> holds_point(t1, y) by {
            if holds_point(s1, y) {
                let a = choose|a: int| 0 <= a < s1.len() && (#[trigger] s1[a])@ == y;
                assert(s[a + 1]@ == y);
                assert(point_lt(s[0]@, s[a + 1]@));
                assert(holds_point(t, y));
                let b = choose|b: int| 0 <= b < t.len() && (#[trigger] t[b])@ == y;
                if b == 0 {
                    lemma_point_lt_asymmetric(s[0]@, y);
                    assert(false) by {
                        let k = choose|k: int| #[trigger] point_diff_at(s[0]@, y, k);
                    }
                }
                assert(t1[b - 1]@ == y);
            }
            if holds_point(t1, y) {
                let a = choose|a: int| 0 <= a < t1.len() && (#[trigger] t1[a])@ == y;
                assert(t[a + 1]@ == y);
                assert(point_lt(t[0]@, t[a + 1]@));
                assert(holds_point(s, y));
                let b = choose|b: int| 0 <= b < s.len() && (#[trigger] s[b])@ == y;
                if b == 0 {
                    assert(false) by {
                        let k = choose|k: int| #[trigger] point_diff_at(t[0]@, y, k);
                    }
                }
                assert(s1[b - 1]@ == y);
            }
        }
        assert(strictly_ascending(s1)) by {
            assert forall|a: int, b: int| 0 <= a < b < s1.len() implies point_lt(s1[a]@, s1[b]@) by {
                assert(s1[a] == s[a + 1] && s1[b] == s[b + 1]);
            }
        }
        assert(strictly_ascending(t1)) by {
            assert forall|a: int, b: int| 0 <= a < b < t1.len() implies point_lt(t1[a]@, t1[b]@) by {
                assert(t1[a] == t[a + 1] && t1[b] == t[b + 1]);
            }
        }
        lemma_ascending_same_points(s1, t1);
        assert forall|i: int| 0 <= i < s.len() implies (#[trigger] s[i])@ == t[i]@ by {
            if i > 0 {
                assert(s1[i - 1] == s[i] && t1[i - 1] == t[i]);
            }
        }
    }
}

#[verifier::spinoff_prover]
proof fn lemma_swapped_sum_held(
    p1: TropicalNewtonPolytope,
    p2: TropicalNewtonPolytope,
    r12: TropicalNewtonPolytope,
    r21: TropicalNewtonPolytope,
    y: Seq<u32>,
)
    requires
        forall|i: int| 0 <= i < r12.points.len() ==> is_vertex_sum(p1, p2, #[trigger] r12.points[i]@),
        forall|a: int, b: int|
            0 <= a < p2.vertex_indices.len() && 0 <= b < p1.vertex_indices.len() ==> holds_point(
                r21.points@,
                zip_sum(#[trigger] p2.points[p2.vertex_indices[a] as int]@, #[trigger] p1.points[p1.vertex_indices[b] as int]@),
            ),
        holds_point(r12.points@, y),
    ensures
        holds_point(r21.points@, y),
{
    let i = choose|i: int| 0 <= i < r12.points@.len() && (#[trigger] r12.points@[i])@ == y;
    assert(is_vertex_sum(p1, p2, r12.points[i]@));
    let (a, b) = choose|a: int, b: int|
        0 <= a < p1.vertex_indices.len() && 0 <= b < p2.vertex_indices.len() && y == zip_sum(
            #[trigger] p1.points[p1.vertex_indices[a] as int]@,
            #[trigger] p2.points[p2.vertex_indices[b] as int]@,
        );
    let u = p1.points[p1.vertex_indices[a] as int]@;
    let v = p2.points[p2.vertex_indices[b] as int]@;
    assert(zip_sum(v, u) =~= zip_sum(u, v));
    assert(holds_point(r21.points@, zip_sum(v, u)));
}

/// The Minkowski sum does not depend on the order of its two polytopes:
/// the sums of `p1` and `p2`, and of `p2` and `p1`, are the same points in
/// the same order.
#[verifier::spinoff_prover]
pub proof fn lemma_minkowski_sum_commutes(
    p1: TropicalNewtonPolytope,
    p2: TropicalNewtonPolytope,
    r12: TropicalNewtonPolytope,
    r21: TropicalNewtonPolytope,
)
    requires
        is_minkowski_sum(p1, p2, r12),
        is_minkowski_sum(p2, p1, r21),
    ensures
        r12.points.len() == r21.points.len(),
        forall|i: int| 0 <= i < r12.points.len() ==> (#[trigger] r12.points[i])@ == r21.points[i]@,
{
    let s = r12.points@;
    let t = r21.points@;
    assert(strictly_ascending(s));
    assert(strictly_ascending(t));
    assert forall|y: Seq<u32>| holds_point(s, y) <==> holds_point(t, y) by {
        if holds_point(r12.points@, y) {
            lemma_swapped_sum_held(p1, p2, r12, r21, y);
        }
        if holds_point(r21.points@, y) {
            lemma_swapped_sum_held(p2, p1, r21, r12, y);
        }
    }
    lemma_ascending_same_points(s, t);
}

/// Compute the Minkowski sum of two Newton polytopes.
///
/// P + Q = {p + q : p ∈ P, q ∈ Q}
///
/// The sums of a vertex of `p1` and a vertex of `p2`, sorted and without
/// repetition, are the points of the result. In the tropical setting this
/// corresponds to multiplication of tropical polynomials.
pub fn minkowski_sum(p1: &TropicalNewtonPolytope, p2: &TropicalNewtonPolytope) -> (r: TropicalNewtonPolytope)
    requires
        p1.well_formed(),
        p2.well_formed(),
        same_dims(p1.points@),
        same_dims(p2.points@),
        p1.points.len() > 0 ==> p1.points[0]@.len() < 0x4000_0000_0000_0000,
        vertex_sums_fit(*p1, *p2),
    ensures
        r.built_from(r.points@),
        is_minkowski_sum(*p1, *p2, r),
        strictly_ascending(r.points@),
        forall|i: int| 0 <= i < r.points.len() ==> is_vertex_sum(*p1, *p2, #[trigger] r.points[i]@),
        forall|a: int, b: int|
            0 <= a < p1.vertex_indices.len() && 0 <= b < p2.vertex_indices.len() ==> holds_point(
                r.points@,
                zip_sum(
                    #[trigger] p1.points[p1.vertex_indices[a] as int]@,
                    #[trigger] p2.points[p2.vertex_indices[b] as int]@,
                ),
            ),
{
    let d1: usize = if p1.points.len() > 0 { p1.points[0].len() } else { 0 };
    let d2: usize = if p2.points.len() > 0 { p2.points[0].len() } else { 0 };
    let d: usize = if d1 <= d2 { d1 } else { d2 };
    let mut sum_points: Vec<Vec<u32>> = Vec::new();
    let mut a: usize = 0;
    while a < p1.vertex_indices.len()
        invariant
            p1.well_formed(),
            p2.well_formed(),
            same_dims(p1.points@),
            same_dims(p2.points@),
            vertex_sums_fit(*p1, *p2),
            d1 == (if p1.points.len() > 0 { p1.points[0]@.len() } else { 0 }),
            d2 == (if p2.points.len() > 0 { p2.points[0]@.len() } else { 0 }),
            d == (if d1 <= d2 { d1 } else { d2 }),
            a <= p1.vertex_indices.len(),
            strictly_ascending(sum_points@),
            uniform_dim(sum_points@, d as nat),
            forall|i: int| 0 <= i < sum_points.len() ==> is_vertex_sum(*p1, *p2, #[trigger] sum_points[i]@),
            forall|x: int, y: int|
                0 <= x < a && 0 <= y < p2.vertex_indices.len() ==> holds_point(
                    sum_points@,
                    zip_sum(
                        #[trigger] p1.points[p1.vertex_indices[x] as int]@,
                        #[trigger] p2.points[p2.vertex_indices[y] as int]@,
                    ),
                ),
        decreases p1.vertex_indices.len() - a,
    {
        let mut b: usize = 0;
        while b < p2.vertex_indices.len()
            invariant
                p1.well_formed(),
                p2.well_formed(),
                same_dims(p1.points@),
                same_dims(p2.points@),
                vertex_sums_fit(*p1, *p2),
                d1 == (if p1.points.len() > 0 { p1.points[0]@.len() } else { 0 }),
                d2 == (if p2.points.len() > 0 { p2.points[0]@.len() } else { 0 }),
                d == (if d1 <= d2 { d1 } else { d2 }),
                a < p1.vertex_indices.len(),
                b <= p2.vertex_indices.len(),
                strictly_ascending(sum_points@),
                uniform_dim(sum_points@, d as nat),
                forall|i: int| 0 <= i < sum_points.len() ==> is_vertex_sum(*p1, *p2, #[trigger] sum_points[i]@),
                forall|x: int, y: int|
                    0 <= x < p1.vertex_indices.len() && 0 <= y < p2.vertex_indices.len() && (x < a || (x == a && y < b)) ==> holds_point(
                        sum_points@,
                        zip_sum(
                            #[trigger] p1.points[p1.vertex_indices[x] as int]@,
                            #[trigger] p2.points[p2.vertex_indices[y] as int]@,
                        ),
                    ),
            decreases p2.vertex_indices.len() - b,
        {
            let va = &p1.points[p1.vertex_indices[a]];
            let vb = &p2.points[p2.vertex_indices[b]];
            assert(va@.len() == d1 && vb@.len() == d2);
            assert forall|k: int| 0 <= k < va.len() && 0 <= k < vb.len() implies #[trigger] va@[k] + #[trigger] vb@[k]
                <= u32::MAX by {
                assert(p1.points[p1.vertex_indices[a as int] as int]@[k] + p2.points[p2.vertex_indices[b as int] as int]@[k] <= u32::MAX);
            }
            let pt = zip_sum_exec(va, vb);
            let ghost before = sum_points@;
            insert_point(&mut sum_points, pt);
            assert forall|i: int| 0 <= i < sum_points.len() implies is_vertex_sum(*p1, *p2, #[trigger] sum_points[i]@) by {
                assert(holds_point(sum_points@, sum_points@[i]@));
                if holds_point(before, sum_points@[i]@) {
                    let j = choose|j: int| 0 <= j < before.len() && (#[trigger] before[j])@ == sum_points@[i]@;
                    assert(is_vertex_sum(*p1, *p2, before[j]@));
                } else {
                    assert(sum_points@[i]@ == zip_sum(
                        p1.points[p1.vertex_indices[a as int] as int]@,
                        p2.points[p2.vertex_indices[b as int] as int]@,
                    ));
                }
            }
            b += 1;
        }
        a += 1;
    }
    assert(same_dims(sum_points@)) by {
        if sum_points.len() > 0 {
            assert(sum_points@[0]@.len() == d);
        }
    }
    assert(sum_points.len() > 0 ==> sum_points@[0]@.len() < 0x4000_0000_0000_0000) by {
        if sum_points.len() > 0 {
            assert(sum_points@[0]@.len() == d);
            assert(d <= d1);
        }
    }
    let r = TropicalNewtonPolytope::from_points(&sum_points);
    assert forall|i: int, j: int| 0 <= i < j < r.points.len() implies point_lt(r.points@[i]@, r.points@[j]@) by {
        assert(r.points@[i]@ == sum_points@[i]@);
        assert(r.points@[j]@ == sum_points@[j]@);
    }
    assert forall|i: int| 0 <= i < r.points.len() implies is_vertex_sum(*p1, *p2, #[trigger] r.points[i]@) by {
        assert(r.points@[i]@ == sum_points@[i]@);
    }
    assert forall|x: int, y: int|
        0 <= x < p1.vertex_indices.len() && 0 <= y < p2.vertex_indices.len() implies holds_point(
        r.points@,
        zip_sum(
            #[trigger] p1.points[p1.vertex_indices[x] as int]@,
            #[trigger] p2.points[p2.vertex_indices[y] as int]@,
        ),
    ) by {
        let z = zip_sum(p1.points[p1.vertex_indices[x] as int]@, p2.points[p2.vertex_indices[y] as int]@);
        assert(holds_point(sum_points@, z));
        let i = choose|i: int| 0 <= i < sum_points@.len() && (#[trigger] sum_points@[i])@ == z;
        assert(r.points@[i]@ == z);
    }
    r
}

} // verus!
