//! Lattice points of a Newton polytope, and the counts of Pick's formula.
use vstd::prelude::*;
use crate::newton_polytope::{coord, cross_exec, holds_point, insert_point, point_lt, strictly_ascending, supports_left, uniform_dim};
use crate::polytope::{convex_hull_indices, dims_at_least, euclid, is_gcd, is_hull_indices, lattice_points_on_segment};

verus! {

/// Some point has coordinate `t` at most `v`, and some point has it at least `v`.
pub open spec fn in_box(p: Seq<Vec<u32>>, t: int, v: int) -> bool {
    &&& exists|i: int| 0 <= i < p.len() && #[trigger] coord(p, i, t) <= v
    &&& exists|j: int| 0 <= j < p.len() && #[trigger] coord(p, j, t) >= v
}

/// The cross product `(b - a) × (q - a)` for a point `q = (x, y)`.
pub open spec fn cross_to(p: Seq<Vec<u32>>, a: int, b: int, x: int, y: int) -> int {
    (coord(p, b, 0) - coord(p, a, 0)) * (y - coord(p, a, 1)) - (coord(p, b, 1) - coord(p, a, 1)) * (x - coord(p, a, 0))
}

/// The planar point `(x, y)` lies on the inner side of every line through
/// two of the points that has all the points on its left.
pub open spec fn inside_supports(p: Seq<Vec<u32>>, x: int, y: int) -> bool {
    forall|a: int, b: int|
        0 <= a < p.len() && 0 <= b < p.len() && #[trigger] supports_left(p, a, b) ==> cross_to(p, a, b, x, y) >= 0
}

/// The lattice point `q` lies in the convex hull of `p`: in one dimension
/// between the extremes; in the plane inside the bounding box and on the
/// inner side of every supporting line; otherwise it is one of the points.
pub open spec fn lattice_member(p: Seq<Vec<u32>>, d: nat, q: Seq<u32>) -> bool {
    &&& q.len() == d
    &&& if d == 1 {
        in_box(p, 0, q[0] as int)
    } else if d == 2 {
        in_box(p, 0, q[0] as int) && in_box(p, 1, q[1] as int) && inside_supports(p, q[0] as int, q[1] as int)
    } else {
        exists|i: int| 0 <= i < p.len() && (#[trigger] p[i]@) == q
    }
}

/// The lattice points of the convex hull of `p`.
pub open spec fn lattice_set(p: Seq<Vec<u32>>, d: nat) -> Set<Seq<u32>> {
    Set::new(|q: Seq<u32>| lattice_member(p, d, q))
}

/// The number of lattice points of the convex hull of `p`.
pub open spec fn lattice_count(p: Seq<Vec<u32>>, d: nat) -> nat {
    lattice_set(p, d).len()
}

/// `a` comes before `b` in the order the bounding box is scanned: by first
/// and then second coordinate in the plane, and from the last coordinate
/// back to the first otherwise.
pub open spec fn scan_before(d: nat, a: Seq<u32>, b: Seq<u32>) -> bool {
    if d <= 2 {
        point_lt(a, b)
    } else {
        point_lt(a.reverse(), b.reverse())
    }
}

/// The bounds of coordinate `t` over the points.
fn coord_bounds(p: &[Vec<u32>], t: usize) -> (r: (u32, u32))
    requires
        p.len() > 0,
        forall|i: int| 0 <= i < p.len() ==> (#[trigger] p[i]@).len() > t,
    ensures
        exists|i: int| 0 <= i < p.len() && #[trigger] coord(p@, i, t as int) == r.0,
        exists|i: int| 0 <= i < p.len() && #[trigger] coord(p@, i, t as int) == r.1,
        forall|i: int| 0 <= i < p.len() ==> r.0 <= #[trigger] coord(p@, i, t as int) <= r.1,
{
    assert(p@[0]@.len() > t);
    let mut lo = p[0][t];
    let mut hi = p[0][t];
    assert(coord(p@, 0, t as int) == lo);
    let mut i: usize = 1;
    while i < p.len()
        invariant
            p.len() > 0,
            forall|i: int| 0 <= i < p.len() ==> (#[trigger] p[i]@).len() > t,
            1 <= i <= p.len(),
            exists|k: int| 0 <= k < p.len() && #[trigger] coord(p@, k, t as int) == lo,
            exists|k: int| 0 <= k < p.len() && #[trigger] coord(p@, k, t as int) == hi,
            forall|k: int| 0 <= k < i ==> lo <= #[trigger] coord(p@, k, t as int) <= hi,
        decreases p.len() - i,
    {
        assert(p@[i as int]@.len() > t);
        let v = p[i][t];
        if v < lo {
            lo = v;
            assert(coord(p@, i as int, t as int) == lo);
        }
        if v > hi {
            hi = v;
            assert(coord(p@, i as int, t as int) == hi);
        }
        i += 1;
    }
    (lo, hi)
}

/// The pairs `(a, b)` of points whose line has every point on its left,
/// in order of `a` and then `b`.
fn supporting_pairs(p: &[Vec<u32>]) -> (r: Vec<(usize, usize)>)
    requires
        uniform_dim(p@, 2),
    ensures
        forall|k: int| 0 <= k < r.len() ==> (#[trigger] r[k]).0 < p.len() && r[k].1 < p.len() && supports_left(p@, r[k].0 as int, r[k].1 as int),
        forall|a: int, b: int|
            0 <= a < p.len() && 0 <= b < p.len() && #[trigger] supports_left(p@, a, b) ==> exists|k: int|
                0 <= k < r.len() && #[trigger] r[k] == (a as usize, b as usize),
{
    let n = p.len();
    let mut r: Vec<(usize, usize)> = Vec::new();
    let mut a: usize = 0;
    while a < n
        invariant
            n == p.len(),
            uniform_dim(p@, 2),
            a <= n,
            forall|k: int| 0 <= k < r.len() ==> (#[trigger] r[k]).0 < n && r[k].1 < n && supports_left(p@, r[k].0 as int, r[k].1 as int),
            forall|x: int, y: int|
                0 <= x < a && 0 <= y < n && #[trigger] supports_left(p@, x, y) ==> exists|k: int|
                    0 <= k < r.len() && #[trigger] r[k] == (x as usize, y as usize),
        decreases n - a,
    {
        let mut b: usize = 0;
        while b < n
            invariant
                n == p.len(),
                uniform_dim(p@, 2),
                a < n,
                b <= n,
                forall|k: int| 0 <= k < r.len() ==> (#[trigger] r[k]).0 < n && r[k].1 < n && supports_left(p@, r[k].0 as int, r[k].1 as int),
                forall|x: int, y: int|
                    ((0 <= x < a && 0 <= y < n) || (x == a && 0 <= y < b)) && #[trigger] supports_left(p@, x, y) ==> exists|k: int|
                        0 <= k < r.len() && #[trigger] r[k] == (x as usize, y as usize),
            decreases n - b,
        {
            let mut ok = true;
            let mut q: usize = 0;
            while q < n
                invariant
                    n == p.len(),
                    uniform_dim(p@, 2),
                    a < n,
                    b < n,
                    q <= n,
                    ok <==> forall|m: int| 0 <= m < q ==> #[trigger] crate::newton_polytope::cross(p@, a as int, b as int, m) >= 0,
                decreases n - q,
            {
                assert(p@[a as int]@.len() == 2 && p@[b as int]@.len() == 2 && p@[q as int]@.len() == 2);
                if cross_exec(p, a, b, q) < 0 {
                    ok = false;
                }
                q += 1;
            }
            let ghost old_r = r@;
            if ok {
                r.push((a, b));
                assert(r[r.len() - 1] == (a, b));
            }
            proof {
                assert forall|x: int, y: int|
                    ((0 <= x < a && 0 <= y < n) || (x == a && 0 <= y < b + 1)) && #[trigger] supports_left(p@, x, y) implies exists|k: int|
                        0 <= k < r.len() && #[trigger] r[k] == (x as usize, y as usize) by {
                    if x == a && y == b {
                        assert(r[r.len() - 1] == (x as usize, y as usize));
                    } else {
                        let k = choose|k: int| 0 <= k < old_r.len() && #[trigger] old_r[k] == (x as usize, y as usize);
                        assert(r[k] == old_r[k]);
                    }
                }
            }
            b += 1;
        }
        a += 1;
    }
    r
}

/// The cross product `(b - a) × (q - a)` for `q = (x, y)`.
fn cross_to_exec(p: &[Vec<u32>], a: usize, b: usize, x: u32, y: u32) -> (c: i128)
    requires
        uniform_dim(p@, 2),
        a < p.len(),
        b < p.len(),
    ensures
        c == cross_to(p@, a as int, b as int, x as int, y as int),
{
    assert(p@[a as int]@.len() == 2 && p@[b as int]@.len() == 2);
    let bx = p[b][0] as i128 - p[a][0] as i128;
    let by = p[b][1] as i128 - p[a][1] as i128;
    let qx = x as i128 - p[a][0] as i128;
    let qy = y as i128 - p[a][1] as i128;
    assert(-0x1_0000_0000_0000_0000 <= bx * qy <= 0x1_0000_0000_0000_0000) by (nonlinear_arith)
        requires
            -0x1_0000_0000 < bx < 0x1_0000_0000,
            -0x1_0000_0000 < qy < 0x1_0000_0000,
    ;
    assert(-0x1_0000_0000_0000_0000 <= by * qx <= 0x1_0000_0000_0000_0000) by (nonlinear_arith)
        requires
            -0x1_0000_0000 < by < 0x1_0000_0000,
            -0x1_0000_0000 < qx < 0x1_0000_0000,
    ;
    bx * qy - by * qx
}

/// Whether `(x, y)` lies on the inner side of every supporting line.
fn inside_exec(p: &[Vec<u32>], s: &Vec<(usize, usize)>, x: u32, y: u32) -> (r: bool)
    requires
        uniform_dim(p@, 2),
        forall|k: int| 0 <= k < s.len() ==> (#[trigger] s[k]).0 < p.len() && s[k].1 < p.len() && supports_left(p@, s[k].0 as int, s[k].1 as int),
        forall|a: int, b: int|
            0 <= a < p.len() && 0 <= b < p.len() && #[trigger] supports_left(p@, a, b) ==> exists|k: int|
                0 <= k < s.len() && #[trigger] s[k] == (a as usize, b as usize),
    ensures
        r == inside_supports(p@, x as int, y as int),
{
    let mut k: usize = 0;
    while k < s.len()
        invariant
            uniform_dim(p@, 2),
            forall|k: int| 0 <= k < s.len() ==> (#[trigger] s[k]).0 < p.len() && s[k].1 < p.len() && supports_left(p@, s[k].0 as int, s[k].1 as int),
            k <= s.len(),
            forall|m: int| 0 <= m < k ==> cross_to(p@, (#[trigger] s[m]).0 as int, s[m].1 as int, x as int, y as int) >= 0,
        decreases s.len() - k,
    {
        let (a, b) = s[k];
        if cross_to_exec(p, a, b, x, y) < 0 {
            assert(supports_left(p@, a as int, b as int));
            return false;
        }
        k += 1;
    }
    proof {
        assert forall|a: int, b: int|
            0 <= a < p.len() && 0 <= b < p.len() && #[trigger] supports_left(p@, a, b) implies cross_to(p@, a, b, x as int, y as int) >= 0 by {
            let m = choose|m: int| 0 <= m < s.len() && #[trigger] s[m] == (a as usize, b as usize);
            assert(cross_to(p@, s[m].0 as int, s[m].1 as int, x as int, y as int) >= 0);
        }
    }
    true
}

proof fn lemma_in_box(p: Seq<Vec<u32>>, t: int, lo: int, hi: int, v: int)
    requires
        exists|i: int| 0 <= i < p.len() && #[trigger] coord(p, i, t) == lo,
        exists|i: int| 0 <= i < p.len() && #[trigger] coord(p, i, t) == hi,
        forall|i: int| 0 <= i < p.len() ==> lo <= #[trigger] coord(p, i, t) <= hi,
    ensures
        in_box(p, t, v) <==> lo <= v <= hi,
{
    if in_box(p, t, v) {
        let i = choose|i: int| 0 <= i < p.len() && #[trigger] coord(p, i, t) <= v;
        let j = choose|j: int| 0 <= j < p.len() && #[trigger] coord(p, j, t) >= v;
        assert(lo <= coord(p, i, t) && coord(p, j, t) <= hi);
    }
    if lo <= v <= hi {
        let i = choose|i: int| 0 <= i < p.len() && #[trigger] coord(p, i, t) == lo;
        let j = choose|j: int| 0 <= j < p.len() && #[trigger] coord(p, j, t) == hi;
        assert(coord(p, i, t) <= v && coord(p, j, t) >= v);
    }
}

/// Lexicographic order on planar points.
pub open spec fn lex2(a: Seq<u32>, b: Seq<u32>) -> bool {
    a[0] < b[0] || (a[0] == b[0] && a[1] < b[1])
}

proof fn lemma_point_lt_short(a: Seq<u32>, b: Seq<u32>)
    requires
        a.len() == b.len(),
        1 <= a.len() <= 2,
        a.len() == 1 ==> a[0] < b[0],
        a.len() == 2 ==> lex2(a, b),
    ensures
        point_lt(a, b),
{
    if a[0] < b[0] {
        assert(crate::newton_polytope::point_diff_at(a, b, 0));
    } else {
        assert(crate::newton_polytope::point_diff_at(a, b, 1));
    }
}

/// The lattice points of a set of points on a line: every integer from the
/// least to the greatest coordinate, in increasing order.
fn lattice_1d(p: &[Vec<u32>]) -> (r: Vec<Vec<u32>>)
    requires
        p.len() > 0,
        uniform_dim(p@, 1),
    ensures
        forall|a: int| 0 <= a < r.len() ==> (#[trigger] r[a]@).len() == 1,
        forall|a: int, b: int| 0 <= a < b < r.len() ==> scan_before(1, #[trigger] r[a]@, #[trigger] r[b]@),
        forall|q: Seq<u32>| holds_point(r@, q) <==> lattice_member(p@, 1, q),
{
    let (lo, hi) = coord_bounds(p, 0);
    let mut r: Vec<Vec<u32>> = Vec::new();
    let mut x: u64 = lo as u64;
    while x <= hi as u64
        invariant
            lo <= x <= hi as u64 + 1,
            r.len() == x - lo,
            forall|a: int| 0 <= a < r.len() ==> (#[trigger] r[a])@ == seq![(lo + a) as u32],
        decreases hi as u64 + 1 - x,
    {
        let v = vec![x as u32];
        assert(v@ =~= seq![(lo + r.len()) as u32]);
        r.push(v);
        x += 1;
    }
    proof {
        assert forall|a: int, b: int| 0 <= a < b < r.len() implies scan_before(1, #[trigger] r[a]@, #[trigger] r[b]@) by {
            lemma_point_lt_short(r[a]@, r[b]@);
        }
        assert forall|q: Seq<u32>| holds_point(r@, q) <==> lattice_member(p@, 1, q) by {
            if q.len() == 1 {
                lemma_in_box(p@, 0, lo as int, hi as int, q[0] as int);
            }
            if holds_point(r@, q) {
                let a = choose|a: int| 0 <= a < r.len() && (#[trigger] r@[a])@ == q;
                assert(r[a]@ == seq![(lo + a) as u32]);
            }
            if lattice_member(p@, 1, q) {
                let a = q[0] - lo;
                assert(r[a]@ == seq![(lo + a) as u32]);
                assert(r@[a]@ =~= q);
            }
        }
    }
    r
}

/// The lattice points of a set of planar points: the points of the bounding
/// box on the inner side of every supporting line, by first and then second
/// coordinate.
fn lattice_2d(p: &[Vec<u32>]) -> (r: Vec<Vec<u32>>)
    requires
        p.len() > 0,
        uniform_dim(p@, 2),
    ensures
        forall|a: int| 0 <= a < r.len() ==> (#[trigger] r[a]@).len() == 2,
        forall|a: int, b: int| 0 <= a < b < r.len() ==> scan_before(2, #[trigger] r[a]@, #[trigger] r[b]@),
        forall|q: Seq<u32>| holds_point(r@, q) <==> lattice_member(p@, 2, q),
{
    let (lo0, hi0) = coord_bounds(p, 0);
    let (lo1, hi1) = coord_bounds(p, 1);
    let s = supporting_pairs(p);
    let mut r: Vec<Vec<u32>> = Vec::new();
    let mut x: u64 = lo0 as u64;
    while x <= hi0 as u64
        invariant
            uniform_dim(p@, 2),
            lo0 <= x <= hi0 as u64 + 1,
            forall|a: int| 0 <= a < r.len() ==> (#[trigger] r[a]@).len() == 2 && lattice_member(p@, 2, r[a]@) && r[a]@[0] < x,
            forall|a: int, b: int| 0 <= a < b < r.len() ==> lex2(#[trigger] r[a]@, #[trigger] r[b]@),
            forall|q: Seq<u32>| q.len() == 2 && lattice_member(p@, 2, q) && q[0] < x ==> #[trigger] holds_point(r@, q),
            exists|i: int| 0 <= i < p.len() && #[trigger] coord(p@, i, 0) == lo0,
            exists|i: int| 0 <= i < p.len() && #[trigger] coord(p@, i, 0) == hi0,
            forall|i: int| 0 <= i < p.len() ==> lo0 <= #[trigger] coord(p@, i, 0) <= hi0,
            exists|i: int| 0 <= i < p.len() && #[trigger] coord(p@, i, 1) == lo1,
            exists|i: int| 0 <= i < p.len() && #[trigger] coord(p@, i, 1) == hi1,
            forall|i: int| 0 <= i < p.len() ==> lo1 <= #[trigger] coord(p@, i, 1) <= hi1,
            forall|k: int| 0 <= k < s.len() ==> (#[trigger] s[k]).0 < p.len() && s[k].1 < p.len() && supports_left(p@, s[k].0 as int, s[k].1 as int),
            forall|a: int, b: int|
                0 <= a < p.len() && 0 <= b < p.len() && #[trigger] supports_left(p@, a, b) ==> exists|k: int|
                    0 <= k < s.len() && #[trigger] s[k] == (a as usize, b as usize),
        decreases hi0 as u64 + 1 - x,
    {
        let mut y: u64 = lo1 as u64;
        while y <= hi1 as u64
            invariant
                uniform_dim(p@, 2),
                lo0 <= x <= hi0,
                lo1 <= y <= hi1 as u64 + 1,
                forall|a: int| 0 <= a < r.len() ==> (#[trigger] r[a]@).len() == 2 && lattice_member(p@, 2, r[a]@)
                    && (r[a]@[0] < x || (r[a]@[0] == x && r[a]@[1] < y)),
                forall|a: int, b: int| 0 <= a < b < r.len() ==> lex2(#[trigger] r[a]@, #[trigger] r[b]@),
                forall|q: Seq<u32>|
                    q.len() == 2 && lattice_member(p@, 2, q) && (q[0] < x || (q[0] == x && q[1] < y)) ==> #[trigger] holds_point(r@, q),
                exists|i: int| 0 <= i < p.len() && #[trigger] coord(p@, i, 0) == lo0,
                exists|i: int| 0 <= i < p.len() && #[trigger] coord(p@, i, 0) == hi0,
                forall|i: int| 0 <= i < p.len() ==> lo0 <= #[trigger] coord(p@, i, 0) <= hi0,
                exists|i: int| 0 <= i < p.len() && #[trigger] coord(p@, i, 1) == lo1,
                exists|i: int| 0 <= i < p.len() && #[trigger] coord(p@, i, 1) == hi1,
                forall|i: int| 0 <= i < p.len() ==> lo1 <= #[trigger] coord(p@, i, 1) <= hi1,
                forall|k: int| 0 <= k < s.len() ==> (#[trigger] s[k]).0 < p.len() && s[k].1 < p.len() && supports_left(p@, s[k].0 as int, s[k].1 as int),
                forall|a: int, b: int|
                    0 <= a < p.len() && 0 <= b < p.len() && #[trigger] supports_left(p@, a, b) ==> exists|k: int|
                        0 <= k < s.len() && #[trigger] s[k] == (a as usize, b as usize),
            decreases hi1 as u64 + 1 - y,
        {
            let xi = x as u32;
            let yi = y as u32;
            let inside = inside_exec(p, &s, xi, yi);
            let ghost old_r = r@;
            let ghost q0: Seq<u32> = seq![xi, yi];
            proof {
                lemma_in_box(p@, 0, lo0 as int, hi0 as int, xi as int);
                lemma_in_box(p@, 1, lo1 as int, hi1 as int, yi as int);
                assert(q0[0] == xi && q0[1] == yi);
                assert(lattice_member(p@, 2, q0) == inside);
            }
            if inside {
                let v = vec![xi, yi];
                assert(v@ =~= q0);
                r.push(v);
                proof {
                    assert(r[r.len() - 1]@ == q0);
                    assert forall|a: int| 0 <= a < r.len() implies (#[trigger] r[a]@).len() == 2 && lattice_member(p@, 2, r[a]@)
                        && (r[a]@[0] < x || (r[a]@[0] == x && r[a]@[1] < y + 1)) by {
                        if a < old_r.len() {
                            assert(r[a] == old_r[a]);
                        }
                    }
                    assert forall|a: int, b: int| 0 <= a < b < r.len() implies lex2(#[trigger] r[a]@, #[trigger] r[b]@) by {
                        assert(r[a] == old_r[a]);
                        if b < old_r.len() {
                            assert(r[b] == old_r[b]);
                        }
                    }
                }
            }
            proof {
                assert forall|q: Seq<u32>|
                    q.len() == 2 && lattice_member(p@, 2, q) && (q[0] < x || (q[0] == x && q[1] < y + 1)) implies #[trigger] holds_point(r@, q) by {
                    if q[0] == x && q[1] == y {
                        assert(q =~= q0);
                        assert(r@[r.len() - 1]@ == q);
                    } else {
                        assert(holds_point(old_r, q));
                        let a = choose|a: int| 0 <= a < old_r.len() && (#[trigger] old_r[a])@ == q;
                        assert(r@[a] == old_r[a]);
                    }
                }
            }
            y += 1;
        }
        proof {
            assert forall|q: Seq<u32>| q.len() == 2 && lattice_member(p@, 2, q) && q[0] < x + 1 implies #[trigger] holds_point(r@, q) by {
                lemma_in_box(p@, 1, lo1 as int, hi1 as int, q[1] as int);
            }
        }
        x += 1;
    }
    proof {
        assert forall|a: int, b: int| 0 <= a < b < r.len() implies scan_before(2, #[trigger] r[a]@, #[trigger] r[b]@) by {
            lemma_point_lt_short(r[a]@, r[b]@);
        }
        assert forall|q: Seq<u32>| holds_point(r@, q) <==> lattice_member(p@, 2, q) by {
            if holds_point(r@, q) {
                let a = choose|a: int| 0 <= a < r.len() && (#[trigger] r@[a])@ == q;
                assert(lattice_member(p@, 2, r[a]@));
            }
            if lattice_member(p@, 2, q) {
                lemma_in_box(p@, 0, lo0 as int, hi0 as int, q[0] as int);
            }
        }
    }
    r
}

/// The coordinates of `x` in reverse order.
fn reversed(x: &Vec<u32>) -> (r: Vec<u32>)
    ensures
        r@ == x@.reverse(),
{
    let mut r: Vec<u32> = Vec::new();
    let mut k: usize = x.len();
    while k > 0
        invariant
            k <= x.len(),
            r.len() == x.len() - k,
            forall|m: int| 0 <= m < r.len() ==> #[trigger] r[m] == x[x.len() - 1 - m],
        decreases k,
    {
        k -= 1;
        r.push(x[k]);
    }
    assert(r@ =~= x@.reverse());
    r
}

/// The distinct points with `d` coordinates, ordered from the last
/// coordinate back to the first.
fn lattice_other(p: &[Vec<u32>], d: usize) -> (r: Vec<Vec<u32>>)
    ensures
        forall|a: int| 0 <= a < r.len() ==> (#[trigger] r[a]@).len() == d,
        forall|a: int, b: int| 0 <= a < b < r.len() ==> point_lt((#[trigger] r[a]@).reverse(), (#[trigger] r[b]@).reverse()),
        forall|q: Seq<u32>| holds_point(r@, q) <==> (q.len() == d && exists|i: int| 0 <= i < p.len() && (#[trigger] p[i]@) == q),
{
    let mut s: Vec<Vec<u32>> = Vec::new();
    let mut i: usize = 0;
    while i < p.len()
        invariant
            i <= p.len(),
            strictly_ascending(s@),
            uniform_dim(s@, d as nat),
            forall|y: Seq<u32>| holds_point(s@, y) <==> (y.len() == d && exists|k: int| 0 <= k < i && (#[trigger] p[k]@).reverse() == y),
        decreases p.len() - i,
    {
        if p[i].len() == d {
            let x = reversed(&p[i]);
            let ghost s0 = s@;
            insert_point(&mut s, x);
            proof {
                assert forall|y: Seq<u32>| holds_point(s@, y) <==> (y.len() == d && exists|k: int| 0 <= k < i + 1 && (#[trigger] p[k]@).reverse() == y) by {
                    if holds_point(s0, y) {
                        let k = choose|k: int| 0 <= k < i && (#[trigger] p[k]@).reverse() == y;
                    }
                    if y.len() == d && exists|k: int| 0 <= k < i + 1 && (#[trigger] p[k]@).reverse() == y {
                        let k = choose|k: int| 0 <= k < i + 1 && (#[trigger] p[k]@).reverse() == y;
                        if k < i {
                            assert(holds_point(s0, y));
                        }
                    }
                }
            }
        } else {
            proof {
                assert forall|y: Seq<u32>| holds_point(s@, y) <==> (y.len() == d && exists|k: int| 0 <= k < i + 1 && (#[trigger] p[k]@).reverse() == y) by {
                    if y.len() == d && exists|k: int| 0 <= k < i + 1 && (#[trigger] p[k]@).reverse() == y {
                        let k = choose|k: int| 0 <= k < i + 1 && (#[trigger] p[k]@).reverse() == y;
                        if k == i {
                            assert(p[k]@.reverse().len() == p[k]@.len());
                        }
                    }
                }
            }
        }
        i += 1;
    }
    let mut r: Vec<Vec<u32>> = Vec::new();
    let mut j: usize = 0;
    while j < s.len()
        invariant
            j <= s.len(),
            uniform_dim(s@, d as nat),
            r.len() == j,
            forall|a: int| 0 <= a < j ==> (#[trigger] r[a]@) == s[a]@.reverse(),
        decreases s.len() - j,
    {
        let x = reversed(&s[j]);
        r.push(x);
        j += 1;
    }
    proof {
        assert forall|a: int| 0 <= a < r.len() implies (#[trigger] r[a]@).len() == d by {
            assert(s@[a]@.len() == d);
        }
        assert forall|a: int, b: int| 0 <= a < b < r.len() implies point_lt((#[trigger] r[a]@).reverse(), (#[trigger] r[b]@).reverse()) by {
            assert(r[a]@.reverse() =~= s[a]@);
            assert(r[b]@.reverse() =~= s[b]@);
        }
        assert forall|q: Seq<u32>| holds_point(r@, q) <==> (q.len() == d && exists|i: int| 0 <= i < p.len() && (#[trigger] p[i]@) == q) by {
            if holds_point(r@, q) {
                let a = choose|a: int| 0 <= a < r.len() && (#[trigger] r@[a])@ == q;
                assert(s@[a]@.len() == d);
                assert(s@[a]@ =~= q.reverse());
                assert(holds_point(s@, q.reverse()));
                let k = choose|k: int| 0 <= k < p.len() && (#[trigger] p[k]@).reverse() == q.reverse();
                assert(p[k]@ =~= q.reverse().reverse());
                assert(q.reverse().reverse() =~= q);
            }
            if q.len() == d && exists|i: int| 0 <= i < p.len() && (#[trigger] p[i]@) == q {
                let k = choose|k: int| 0 <= k < p.len() && (#[trigger] p[k]@) == q;
                assert(q.reverse().len() == d);
                assert(holds_point(s@, q.reverse()));
                let a = choose|a: int| 0 <= a < s.len() && (#[trigger] s@[a])@ == q.reverse();
                assert(r@[a]@ == q.reverse().reverse());
                assert(q.reverse().reverse() =~= q);
            }
        }
    }
    r
}

/// The lattice points of the convex hull of `p`, in the order in which its
/// bounding box is scanned: in one dimension every integer between the
/// extremes; in the plane the points of the box on the inner side of every
/// supporting line; in other dimensions the distinct points themselves.
pub fn hull_lattice_points(p: &[Vec<u32>]) -> (r: Vec<Vec<u32>>)
    requires
        p.len() > 0,
        forall|i: int| 0 <= i < p.len() ==> (#[trigger] p[i]@).len() <= p[0]@.len(),
        1 <= p[0]@.len() <= 2 ==> dims_at_least(p@, p[0]@.len()),
    ensures
        forall|a: int| 0 <= a < r.len() ==> (#[trigger] r[a]@).len() == p[0]@.len(),
        forall|a: int, b: int| 0 <= a < b < r.len() ==> scan_before(p[0]@.len(), #[trigger] r[a]@, #[trigger] r[b]@),
        forall|q: Seq<u32>| holds_point(r@, q) <==> lattice_member(p@, p[0]@.len(), q),
        r.len() == lattice_count(p@, p[0]@.len()),
{
    let d = p[0].len();
    let r = hull_lattice_points_in(p);
    proof {
        let s = Seq::new(r.len() as nat, |a: int| r@[a]@);
        assert(s.no_duplicates()) by {
            assert forall|a: int, b: int| 0 <= a < s.len() && 0 <= b < s.len() && a != b implies s[a] != s[b] by {
                if a < b {
                    assert(scan_before(d as nat, r[a]@, r[b]@));
                } else {
                    assert(scan_before(d as nat, r[b]@, r[a]@));
                }
                if s[a] == s[b] {
                    let x = if a < b { r[a]@ } else { r[b]@ };
                    if d <= 2 {
                        let k = choose|k: int| #[trigger] crate::newton_polytope::point_diff_at(x, x, k);
                    } else {
                        let k = choose|k: int| #[trigger] crate::newton_polytope::point_diff_at(x.reverse(), x.reverse(), k);
                    }
                }
            }
        }
        s.unique_seq_to_set();
        assert(s.to_set() =~= lattice_set(p@, d as nat)) by {
            assert forall|q: Seq<u32>| s.to_set().contains(q) <==> lattice_member(p@, d as nat, q) by {
                if s.to_set().contains(q) {
                    let a = choose|a: int| 0 <= a < s.len() && s[a] == q;
                    assert(r@[a]@ == q);
                    assert(holds_point(r@, q));
                }
                if lattice_member(p@, d as nat, q) {
                    assert(holds_point(r@, q));
                    let a = choose|a: int| 0 <= a < r.len() && (#[trigger] r@[a])@ == q;
                    assert(s[a] == q);
                }
            }
        }
    }
    r
}

fn hull_lattice_points_in(p: &[Vec<u32>]) -> (r: Vec<Vec<u32>>)
    requires
        p.len() > 0,
        forall|i: int| 0 <= i < p.len() ==> (#[trigger] p[i]@).len() <= p[0]@.len(),
        1 <= p[0]@.len() <= 2 ==> dims_at_least(p@, p[0]@.len()),
    ensures
        forall|a: int| 0 <= a < r.len() ==> (#[trigger] r[a]@).len() == p[0]@.len(),
        forall|a: int, b: int| 0 <= a < b < r.len() ==> scan_before(p[0]@.len(), #[trigger] r[a]@, #[trigger] r[b]@),
        forall|q: Seq<u32>| holds_point(r@, q) <==> lattice_member(p@, p[0]@.len(), q),
{
    let d = p[0].len();
    if d == 1 || d == 2 {
        assert(uniform_dim(p@, d as nat)) by {
            assert forall|i: int| 0 <= i < p.len() implies (#[trigger] p[i]@).len() == d by {
                assert(p@[i]@.len() >= d);
            }
        }
        if d == 1 {
            lattice_1d(p)
        } else {
            lattice_2d(p)
        }
    } else {
        lattice_other(p, d)
    }
}

/// The lattice points on the edge from point `a` to point `b`, counting
/// one end: the greatest common divisor of the coordinate differences.
pub open spec fn edge_lattice(p: Seq<Vec<u32>>, a: int, b: int) -> nat {
    let dx = coord(p, b, 0) - coord(p, a, 0);
    let dy = coord(p, b, 1) - coord(p, a, 1);
    euclid((if dx >= 0 { dx } else { -dx }) as nat, (if dy >= 0 { dy } else { -dy }) as nat)
}

/// The lattice points on the first `k` edges of the closed polygon `h`.
pub open spec fn ring_lattice(p: Seq<Vec<u32>>, h: Seq<usize>, k: nat) -> nat
    decreases k,
{
    if k == 0 {
        0
    } else {
        ring_lattice(p, h, (k - 1) as nat) + edge_lattice(p, h[k - 1] as int, h[if k < h.len() { k as int } else { 0 }] as int)
    }
}

/// The boundary lattice points of the hull `h` of `p`: in the plane, those
/// of the segment between the two vertices of a two-vertex hull, ends
/// included, or those around the closed polygon; otherwise the number of
/// hull vertices.
pub open spec fn boundary_sum(p: Seq<Vec<u32>>, h: Seq<usize>) -> nat {
    if p.len() == 0 || p[0]@.len() != 2 || h.len() < 2 {
        h.len()
    } else if h.len() == 2 {
        edge_lattice(p, h[0] as int, h[1] as int) + 1
    } else {
        ring_lattice(p, h, h.len())
    }
}

/// Euclid's sequence never exceeds the larger of its two starting values.
proof fn lemma_euclid_bound(a: nat, b: nat)
    ensures
        euclid(a, b) <= if a >= b { a } else { b },
    decreases b,
{
    if b > 0 {
        lemma_euclid_bound(b, a % b);
    }
}

/// The closed polygon `h` read from its second vertex: `h[1], ..., h[n-1], h[0]`.
pub open spec fn rotate_left(h: Seq<usize>) -> Seq<usize> {
    h.subrange(1, h.len() as int).push(h[0])
}

/// The lattice points on the edge from `a` to `b`, one end counted, number
/// the greatest common divisor of the coordinate differences.
pub proof fn lemma_edge_lattice_is_gcd(p: Seq<Vec<u32>>, a: int, b: int)
    ensures
        is_gcd(
            edge_lattice(p, a, b) as int,
            crate::harmonic::abs_int(coord(p, b, 0) - coord(p, a, 0)),
            crate::harmonic::abs_int(coord(p, b, 1) - coord(p, a, 1)),
        ),
{
    let dx = coord(p, b, 0) - coord(p, a, 0);
    let dy = coord(p, b, 1) - coord(p, a, 1);
    crate::polytope::lemma_euclid_is_gcd((if dx >= 0 { dx } else { -dx }) as nat, (if dy >= 0 { dy } else { -dy }) as nat);
}

/// The lattice points on an edge do not depend on its direction.
proof fn lemma_edge_lattice_symmetric(p: Seq<Vec<u32>>, a: int, b: int)
    ensures
        edge_lattice(p, a, b) == edge_lattice(p, b, a),
{
}

proof fn lemma_ring_rotated(p: Seq<Vec<u32>>, h: Seq<usize>, k: nat)
    requires
        h.len() >= 3,
        k <= h.len() - 1,
    ensures
        ring_lattice(p, rotate_left(h), k) + edge_lattice(p, h[0] as int, h[1] as int) == ring_lattice(p, h, k + 1),
    decreases k,
{
    let r = rotate_left(h);
    let n = h.len();
    assert(r.len() == n);
    if k == 0 {
        assert(ring_lattice(p, h, 0) == 0);
        assert(ring_lattice(p, r, 0) == 0);
    } else {
        lemma_ring_rotated(p, h, (k - 1) as nat);
        assert(r[k - 1] == h[k as int]);
        if k < n - 1 {
            assert(r[k as int] == h[k as int + 1]);
        } else {
            assert(r[k as int] == h[0]);
        }
    }
}

/// The boundary lattice count of a hull does not depend on which vertex the
/// closed polygon is read from: starting at the second vertex gives the same
/// count. Every side of the closed polygon, the one back to the first vertex
/// included, is counted once.
pub proof fn lemma_boundary_rotation(p: Seq<Vec<u32>>, h: Seq<usize>)
    requires
        h.len() >= 1,
    ensures
        boundary_sum(p, h) == boundary_sum(p, rotate_left(h)),
{
    let r = rotate_left(h);
    let n = h.len();
    assert(r.len() == n);
    if n == 1 {
    } else if n == 2 {
        assert(r[0] == h[1] && r[1] == h[0]);
        lemma_edge_lattice_symmetric(p, h[0] as int, h[1] as int);
    } else {
        lemma_ring_rotated(p, h, (n - 1) as nat);
        assert(r[n - 1] == h[0] && r[0] == h[1]);
        assert(ring_lattice(p, r, n) == ring_lattice(p, r, (n - 1) as nat) + edge_lattice(p, r[n - 1] as int, r[0] as int));
    }
}

proof fn lemma_ring_lattice_monotone(p: Seq<Vec<u32>>, h: Seq<usize>, k: nat, m: nat)
    requires
        k <= m,
    ensures
        ring_lattice(p, h, k) <= ring_lattice(p, h, m),
    decreases m,
{
    if k < m {
        lemma_ring_lattice_monotone(p, h, k, (m - 1) as nat);
    }
}

/// The number of lattice points on the boundary of the hull `h` of `p`, or
/// `None` when it does not fit in a `u64`.
pub fn boundary_lattice_count(p: &[Vec<u32>], h: &[usize]) -> (c: Option<u64>)
    requires
        forall|k: int| 0 <= k < h.len() ==> #[trigger] h[k] < p.len(),
        p.len() > 0 && p[0]@.len() == 2 ==> forall|k: int| 0 <= k < h.len() ==> (#[trigger] p[h[k] as int]@).len() >= 2,
    ensures
        c == (if boundary_sum(p@, h@) <= u64::MAX { Some(boundary_sum(p@, h@) as u64) } else { None::<u64> }),
{
    if p.len() == 0 || p[0].len() != 2 || h.len() < 2 {
        return Some(h.len() as u64);
    }
    if h.len() == 2 {
        let i = h[0];
        let j = h[1];
        assert(p@[i as int]@.len() >= 2 && p@[j as int]@.len() >= 2);
        let g = lattice_points_on_segment(p[i][0] as i64, p[i][1] as i64, p[j][0] as i64, p[j][1] as i64);
        assert(g == edge_lattice(p@, i as int, j as int));
        assert(g <= 0xffff_ffff) by {
            lemma_euclid_bound(
                (if coord(p@, j as int, 0) >= coord(p@, i as int, 0) { coord(p@, j as int, 0) - coord(p@, i as int, 0) } else { coord(p@, i as int, 0) - coord(p@, j as int, 0) }) as nat,
                (if coord(p@, j as int, 1) >= coord(p@, i as int, 1) { coord(p@, j as int, 1) - coord(p@, i as int, 1) } else { coord(p@, i as int, 1) - coord(p@, j as int, 1) }) as nat,
            );
        }
        assert(h@[0] == i && h@[1] == j);
        assert(boundary_sum(p@, h@) == g + 1);
        return Some(g + 1);
    }
    let hn = h.len();
    let mut acc: u64 = 0;
    let mut k: usize = 0;
    while k < hn
        invariant
            hn == h.len(),
            hn >= 3,
            p.len() > 0,
            p[0]@.len() == 2,
            forall|k: int| 0 <= k < h.len() ==> #[trigger] h[k] < p.len(),
            forall|k: int| 0 <= k < h.len() ==> (#[trigger] p[h[k] as int]@).len() >= 2,
            k <= hn,
            acc == ring_lattice(p@, h@, k as nat),
        decreases hn - k,
    {
        let i = h[k];
        let j = if k + 1 < hn { h[k + 1] } else { h[0] };
        assert(p@[i as int]@.len() >= 2 && p@[j as int]@.len() >= 2);
        let g = lattice_points_on_segment(p[i][0] as i64, p[i][1] as i64, p[j][0] as i64, p[j][1] as i64);
        assert(g == edge_lattice(p@, i as int, j as int));
        match acc.checked_add(g) {
            Some(s) => {
                acc = s;
            },
            None => {
                proof {
                    lemma_ring_lattice_monotone(p@, h@, (k + 1) as nat, hn as nat);
                }
                return None;
            },
        }
        k += 1;
    }
    Some(acc)
}

/// The counts `r` are those of Pick's formula for the points `p`, for a hull
/// `h` that `convex_hull_indices` may return: the boundary count around `h`
/// and the rest of the lattice points, or `None` when the boundary count
/// exceeds the lattice points.
pub open spec fn pick_counts_of(p: Seq<Vec<u32>>, r: Option<(u64, u64)>) -> bool {
    exists|h: Seq<usize>|
        #[trigger] is_hull_indices(p, h) && match r {
            Some((interior, boundary)) => boundary == boundary_sum(p, h) && interior + boundary == lattice_count(p, p[0]@.len()),
            None => boundary_sum(p, h) > lattice_count(p, p[0]@.len()),
        }
}

/// The interior and boundary lattice point counts of Pick's formula for the
/// convex hull of `p`: the boundary points around the hull, and the rest of
/// its lattice points; `None` when the boundary count exceeds the number of
/// lattice points (a hull with no area, whose edges are counted both ways).
pub fn pick_counts(p: &[Vec<u32>]) -> (r: Option<(u64, u64)>)
    requires
        p.len() > 0,
        forall|i: int| 0 <= i < p.len() ==> (#[trigger] p[i]@).len() <= p[0]@.len(),
        1 <= p[0]@.len() <= 2 ==> dims_at_least(p@, p[0]@.len()),
    ensures
        pick_counts_of(p@, r),
{
    let all = hull_lattice_points(p);
    let h = convex_hull_indices(p);
    proof {
        if p[0]@.len() == 2 {
            assert forall|k: int| 0 <= k < h.len() implies (#[trigger] p[h[k] as int]@).len() >= 2 by {
                assert(h[k] < p.len());
            }
        }
    }
    let b = boundary_lattice_count(p, &h);
    let r = match b {
        Some(v) => {
            if v <= all.len() as u64 {
                Some((all.len() as u64 - v, v))
            } else {
                None
            }
        },
        None => None,
    };
    assert(is_hull_indices(p@, h@));
    r
}

// ---------------------------------------------------------------------------
// The triangle of degree d: Baker's genus formula
// ---------------------------------------------------------------------------

/// The lattice points `(x, d - x)` with `x < k`.
pub open spec fn diagonal_points(d: nat, k: nat) -> Set<Seq<u32>>
    decreases k,
{
    if k == 0 {
        Set::empty()
    } else {
        diagonal_points(d, (k - 1) as nat).insert(seq![(k - 1) as u32, (d - (k - 1)) as u32])
    }
}

/// The lattice points `(x, y)` with `x + y <= d`.
pub open spec fn triangle_points(d: nat) -> Set<Seq<u32>>
    decreases d,
{
    if d == 0 {
        diagonal_points(0, 1)
    } else {
        triangle_points((d - 1) as nat) + diagonal_points(d, d + 1)
    }
}

proof fn lemma_diagonal_points(d: nat, k: nat)
    requires
        k <= d + 1,
        d <= u32::MAX,
    ensures
        diagonal_points(d, k).finite(),
        diagonal_points(d, k).len() == k,
        forall|q: Seq<u32>| #[trigger] diagonal_points(d, k).contains(q) <==> (q.len() == 2 && q[0] < k && q[0] + q[1] == d),
    decreases k,
{
    if k > 0 {
        let k1 = (k - 1) as nat;
        lemma_diagonal_points(d, k1);
        let x: Seq<u32> = seq![k1 as u32, (d - k1) as u32];
        assert(!diagonal_points(d, k1).contains(x));
        assert forall|q: Seq<u32>| #[trigger] diagonal_points(d, k).contains(q) <==> (q.len() == 2 && q[0] < k && q[0] + q[1] == d) by {
            if q.len() == 2 && q[0] == k1 && q[0] + q[1] == d {
                assert(q =~= x);
            }
        }
    }
}

proof fn lemma_triangle_points(d: nat)
    requires
        d <= u32::MAX,
    ensures
        triangle_points(d).finite(),
        2 * triangle_points(d).len() == (d + 1) * (d + 2),
        forall|q: Seq<u32>| #[trigger] triangle_points(d).contains(q) <==> (q.len() == 2 && q[0] + q[1] <= d),
    decreases d,
{
    if d == 0 {
        lemma_diagonal_points(0, 1);
    } else {
        let d1 = (d - 1) as nat;
        lemma_triangle_points(d1);
        lemma_diagonal_points(d, d + 1);
        let a = triangle_points(d1);
        let b = diagonal_points(d, d + 1);
        assert(a.disjoint(b));
        vstd::set_lib::lemma_set_disjoint_lens(a, b);
        assert(2 * (a + b).len() == (d + 1) * (d + 2)) by (nonlinear_arith)
            requires
                2 * a.len() == (d1 + 1) * (d1 + 2),
                (a + b).len() == a.len() + b.len(),
                b.len() == d + 1,
                d1 + 1 == d,
        ;
    }
}

/// The corners `(0, 0)`, `(d, 0)`, `(0, d)` of the triangle of degree `d`.
pub open spec fn is_degree_triangle(p: Seq<Vec<u32>>, d: nat) -> bool {
    &&& p.len() == 3
    &&& p[0]@ == seq![0u32, 0u32]
    &&& p[1]@ == seq![d as u32, 0u32]
    &&& p[2]@ == seq![0u32, d as u32]
}

proof fn lemma_triangle_corners(p: Seq<Vec<u32>>, d: nat)
    requires
        is_degree_triangle(p, d),
        1 <= d <= u32::MAX,
    ensures
        coord(p, 0, 0) == 0 && coord(p, 0, 1) == 0,
        coord(p, 1, 0) == d && coord(p, 1, 1) == 0,
        coord(p, 2, 0) == 0 && coord(p, 2, 1) == d,
        supports_left(p, 0, 1),
        supports_left(p, 1, 2),
        supports_left(p, 2, 0),
        !supports_left(p, 1, 0),
        !supports_left(p, 2, 1),
        !supports_left(p, 0, 2),
        forall|x: int, y: int| cross_to(p, 0, 1, x, y) == d * y,
        forall|x: int, y: int| cross_to(p, 1, 2, x, y) == d * (d - x - y),
        forall|x: int, y: int| cross_to(p, 2, 0, x, y) == d * x,
        forall|a: int, x: int, y: int| 0 <= a < 3 ==> #[trigger] cross_to(p, a, a, x, y) == 0,
{
    let c = d as int;
    assert(c * c > 0) by (nonlinear_arith)
        requires
            c >= 1,
    ;
    assert(p[0]@[0] == 0 && p[0]@[1] == 0);
    assert(p[1]@[0] == d && p[1]@[1] == 0);
    assert(p[2]@[0] == 0 && p[2]@[1] == d);
    assert forall|x: int, y: int| #[trigger] cross_to(p, 0, 1, x, y) == d * y by {
        assert((c - 0) * (y - 0) - (0 - 0) * (x - 0) == c * y) by (nonlinear_arith);
    }
    assert forall|x: int, y: int| #[trigger] cross_to(p, 1, 2, x, y) == d * (d - x - y) by {
        assert((0 - c) * (y - 0) - (c - 0) * (x - c) == c * (c - x - y)) by (nonlinear_arith);
    }
    assert forall|x: int, y: int| #[trigger] cross_to(p, 2, 0, x, y) == d * x by {
        assert((0 - 0) * (y - c) - (0 - c) * (x - 0) == c * x) by (nonlinear_arith);
    }
    assert forall|a: int, x: int, y: int| 0 <= a < 3 implies #[trigger] cross_to(p, a, a, x, y) == 0 by {
        let ax = coord(p, a, 0);
        let ay = coord(p, a, 1);
        assert((ax - ax) * (y - ay) - (ay - ay) * (x - ax) == 0) by (nonlinear_arith);
    }
    assert forall|q: int| 0 <= q < p.len() implies #[trigger] crate::newton_polytope::cross(p, 0, 1, q) >= 0 by {
        assert(crate::newton_polytope::cross(p, 0, 1, q) == cross_to(p, 0, 1, coord(p, q, 0), coord(p, q, 1)));
        assert(c * coord(p, q, 1) >= 0) by (nonlinear_arith)
            requires
                c >= 1,
                coord(p, q, 1) >= 0,
        ;
    }
    assert forall|q: int| 0 <= q < p.len() implies #[trigger] crate::newton_polytope::cross(p, 1, 2, q) >= 0 by {
        assert(crate::newton_polytope::cross(p, 1, 2, q) == cross_to(p, 1, 2, coord(p, q, 0), coord(p, q, 1)));
        assert(coord(p, q, 0) + coord(p, q, 1) <= c);
        assert(c * (c - coord(p, q, 0) - coord(p, q, 1)) >= 0) by (nonlinear_arith)
            requires
                c >= 1,
                coord(p, q, 0) + coord(p, q, 1) <= c,
        ;
    }
    assert forall|q: int| 0 <= q < p.len() implies #[trigger] crate::newton_polytope::cross(p, 2, 0, q) >= 0 by {
        assert(crate::newton_polytope::cross(p, 2, 0, q) == cross_to(p, 2, 0, coord(p, q, 0), coord(p, q, 1)));
        assert(c * coord(p, q, 0) >= 0) by (nonlinear_arith)
            requires
                c >= 1,
                coord(p, q, 0) >= 0,
        ;
    }
    assert((c - 0) * (0 - 0) - (0 - 0) * (0 - c) == 0) by (nonlinear_arith);
    assert(crate::newton_polytope::cross(p, 1, 0, 2) == (0 - c) * (c - 0) - (0 - 0) * (0 - c));
    assert((0 - c) * (c - 0) - (0 - 0) * (0 - c) < 0) by (nonlinear_arith)
        requires
            c >= 1,
    ;
    assert(crate::newton_polytope::cross(p, 2, 1, 0) == (c - 0) * (0 - c) - (0 - c) * (0 - 0));
    assert((c - 0) * (0 - c) - (0 - c) * (0 - 0) < 0) by (nonlinear_arith)
        requires
            c >= 1,
    ;
    assert(crate::newton_polytope::cross(p, 0, 2, 1) == (0 - 0) * (0 - 0) - (c - 0) * (c - 0));
    assert((0 - 0) * (0 - 0) - (c - 0) * (c - 0) < 0) by (nonlinear_arith)
        requires
            c >= 1,
    ;
}

/// The lattice points of the triangle of degree `d` are those with
/// `x + y <= d`; there are `(d + 1)(d + 2) / 2` of them.
proof fn lemma_triangle_lattice(p: Seq<Vec<u32>>, d: nat)
    requires
        is_degree_triangle(p, d),
        1 <= d <= u32::MAX,
    ensures
        lattice_set(p, 2) == triangle_points(d),
        2 * lattice_count(p, 2) == (d + 1) * (d + 2),
{
    lemma_triangle_corners(p, d);
    lemma_triangle_points(d);
    let c = d as int;
    assert forall|q: Seq<u32>| lattice_set(p, 2).contains(q) <==> #[trigger] triangle_points(d).contains(q) by {
        if q.len() == 2 {
            let x = q[0] as int;
            let y = q[1] as int;
            if lattice_member(p, 2, q) {
                assert(supports_left(p, 1, 2));
                assert(cross_to(p, 1, 2, x, y) >= 0);
                assert(x + y <= c) by (nonlinear_arith)
                    requires
                        c >= 1,
                        c * (c - x - y) >= 0,
                ;
            }
            if x + y <= c {
                assert(coord(p, 0, 0) <= x && coord(p, 1, 0) >= x);
                assert(in_box(p, 0, x));
                assert(coord(p, 0, 1) <= y && coord(p, 2, 1) >= y);
                assert(in_box(p, 1, y));
                assert forall|a: int, b: int|
                    0 <= a < p.len() && 0 <= b < p.len() && #[trigger] supports_left(p, a, b) implies cross_to(p, a, b, x, y) >= 0 by {
                    if a == b {
                        assert(cross_to(p, a, a, x, y) == 0);
                    } else if a == 0 && b == 1 {
                        assert(c * y >= 0) by (nonlinear_arith)
                            requires
                                c >= 1,
                                y >= 0,
                        ;
                    } else if a == 1 && b == 2 {
                        assert(c * (c - x - y) >= 0) by (nonlinear_arith)
                            requires
                                c >= 1,
                                x + y <= c,
                        ;
                    } else if a == 2 && b == 0 {
                        assert(c * x >= 0) by (nonlinear_arith)
                            requires
                                c >= 1,
                                x >= 0,
                        ;
                    }
                }
                assert(lattice_member(p, 2, q));
            }
        }
    }
    assert(lattice_set(p, 2) =~= triangle_points(d));
}

/// The boundary of the triangle of degree `d` holds `3d` lattice points.
proof fn lemma_triangle_boundary(p: Seq<Vec<u32>>, d: nat)
    requires
        is_degree_triangle(p, d),
        1 <= d <= u32::MAX,
    ensures
        boundary_sum(p, seq![0usize, 1usize, 2usize]) == 3 * d,
{
    lemma_triangle_corners(p, d);
    let h = seq![0usize, 1usize, 2usize];
    assert(euclid(0, d) == d) by {
        assert(euclid(d, 0) == d);
        assert(0nat % d == 0);
    }
    assert(euclid(d, d) == d) by {
        assert(euclid(d, 0) == d);
        assert(d % d == 0) by (nonlinear_arith)
            requires
                d >= 1,
        ;
    }
    assert(edge_lattice(p, 0, 1) == d);
    assert(edge_lattice(p, 1, 2) == d);
    assert(edge_lattice(p, 2, 0) == d);
    assert(h[0] == 0 && h[1] == 1 && h[2] == 2 && h.len() == 3);
    assert(ring_lattice(p, h, 0) == 0);
    assert(ring_lattice(p, h, 1) == d);
    assert(ring_lattice(p, h, 2) == 2 * d);
    assert(ring_lattice(p, h, 3) == 3 * d);
}

/// The only hull that `convex_hull_indices` may return for the triangle of
/// degree `d` is its three corners in counter-clockwise order.
proof fn lemma_triangle_hull(p: Seq<Vec<u32>>, d: nat, h: Seq<usize>)
    requires
        is_degree_triangle(p, d),
        1 <= d <= u32::MAX,
        is_hull_indices(p, h),
    ensures
        h == seq![0usize, 1usize, 2usize],
{
    lemma_triangle_corners(p, d);
    assert(p[0]@.len() == 2);
    assert(h.len() >= 2);
    assert(crate::polytope::is_xy_first(p, h[0] as int));
    assert(h[0] == 0) by {
        if h[0] == 1 {
            assert(crate::polytope::xy_before(p, 1, 0));
        } else if h[0] == 2 {
            assert(crate::polytope::xy_before(p, 2, 0));
        }
    }
    assert(crate::permutation::entries_below(h, 3)) by {
        assert forall|i: int| 0 <= i < h.len() implies h[i] < 3 by {
            assert(h[i] < p.len());
        }
    }
    crate::permutation::lemma_distinct_below_len(h, 3);
    assert(crate::polytope::polygon_supports(p, h));
    assert(supports_left(p, crate::polytope::around(h, 0), crate::polytope::around(h, 0int + 1)));
    assert(h[1] != 2) by {
        if h[1] == 2 {
            assert(crate::polytope::around(h, 0) == 0 && crate::polytope::around(h, 1) == 2);
        }
    }
    assert(h[1] == 1);
    if h.len() == 2 {
        assert(supports_left(p, crate::polytope::around(h, 1), crate::polytope::around(h, 1int + 1)));
        assert(crate::polytope::around(h, 1) == 1 && crate::polytope::around(h, 1int + 1) == 0);
    }
    assert(h.len() == 3);
    assert(h[2] == 2);
    assert(h =~= seq![0usize, 1usize, 2usize]);
}

/// Baker's genus formula for the triangle of degree `d`: the Newton
/// polygon `conv{(0,0), (d,0), (0,d)}` of a general plane curve of degree `d`
/// has `3d` boundary lattice points and `(d - 1)(d - 2) / 2` interior ones,
/// and these are the counts that `pick_counts` returns for it.
pub proof fn lemma_triangle_genus(p: Seq<Vec<u32>>, d: nat, r: Option<(u64, u64)>)
    requires
        is_degree_triangle(p, d),
        1 <= d <= u32::MAX,
        pick_counts_of(p, r),
    ensures
        boundary_sum(p, seq![0usize, 1usize, 2usize]) == 3 * d,
        2 * (lattice_count(p, 2) - boundary_sum(p, seq![0usize, 1usize, 2usize])) == (d - 1) * (d - 2),
        match r {
            Some((interior, boundary)) => 2 * interior == (d - 1) * (d - 2) && boundary == 3 * d,
            None => false,
        },
{
    lemma_triangle_lattice(p, d);
    lemma_triangle_boundary(p, d);
    let n = lattice_count(p, 2);
    let c = d as int;
    assert(2 * (n - 3 * c) == (c - 1) * (c - 2)) by (nonlinear_arith)
        requires
            2 * n == (c + 1) * (c + 2),
    ;
    assert((c - 1) * (c - 2) >= 0) by (nonlinear_arith)
        requires
            c >= 1,
    ;
    let h = choose|h: Seq<usize>| #[trigger] is_hull_indices(p, h) && match r {
        Some((interior, boundary)) => boundary == boundary_sum(p, h) && interior + boundary == lattice_count(p, p[0]@.len()),
        None => boundary_sum(p, h) > lattice_count(p, p[0]@.len()),
    };
    lemma_triangle_hull(p, d, h);
    assert(p[0]@.len() == 2);
}

} // verus!
