//! The degree of a Newton polytope on a line or in the plane is the largest
//! total degree among all its points, not only its vertices.
use vstd::prelude::*;
use crate::planar::{cross2, dot2, in_half};
use crate::newton_polytope::{
    all_at, coord, coord_sum, cross, half_plane_at, hull_of, is_first_max_1d, max_degree_prefix, rel_x, rel_y, same_point_2d,
    sees_ahead, supports_left, total_degree, uniform_dim,
};

verus! {

/// `(a × b)(q_x + q_y) = (q × b)(a_x + a_y) + (a × q)(b_x + b_y)`: Cramer's
/// rule, read through the functional `x + y`.
proof fn lemma_cramer_sum(ax: int, ay: int, bx: int, by: int, qx: int, qy: int)
    ensures
        cross2(ax, ay, bx, by) * (qx + qy) == cross2(qx, qy, bx, by) * (ax + ay) + cross2(ax, ay, qx, qy) * (bx + by),
{
    let c = cross2(ax, ay, bx, by);
    let u = cross2(qx, qy, bx, by);
    let w = cross2(ax, ay, qx, qy);
    lemma_sub_mul(ax * by, ay * bx, qx);
    lemma_sub_mul(ax * by, ay * bx, qy);
    lemma_sub_mul(qx * by, qy * bx, ax);
    lemma_sub_mul(qx * by, qy * bx, ay);
    lemma_sub_mul(ax * qy, ay * qx, bx);
    lemma_sub_mul(ax * qy, ay * qx, by);
    lemma_rotate3(qx, by, ax);
    lemma_rotate3(qy, bx, ax);
    lemma_rotate3(ay, qx, bx);
    lemma_rotate3(qx, by, ay);
    lemma_rotate3(qy, bx, ay);
    lemma_rotate3(ax, qy, by);
    lemma_rotate3(ay, qx, by);
    lemma_rotate3(ax, qy, bx);
    lemma_add_mul_left(c, qx, qy);
    lemma_add_mul_left(u, ax, ay);
    lemma_add_mul_left(w, bx, by);
}

/// `(x - y) z = x z - y z`.
proof fn lemma_sub_mul(x: int, y: int, z: int)
    ensures
        (x - y) * z == x * z - y * z,
{
    assert((x - y) * z == x * z - y * z) by (nonlinear_arith);
}

/// `c (x + y) = c x + c y`.
proof fn lemma_add_mul_left(c: int, x: int, y: int)
    ensures
        c * (x + y) == c * x + c * y,
{
    assert(c * (x + y) == c * x + c * y) by (nonlinear_arith);
}

/// The six orders of a product of three factors agree.
proof fn lemma_rotate3(a: int, b: int, c: int)
    ensures
        (a * b) * c == (a * c) * b,
        (a * b) * c == (b * a) * c,
        (a * b) * c == (b * c) * a,
        (a * b) * c == (c * a) * b,
        (a * b) * c == (c * b) * a,
{
    assert((a * b) * c == (a * c) * b) by (nonlinear_arith);
    assert((a * b) * c == (b * a) * c) by (nonlinear_arith);
    assert((a * b) * c == (b * c) * a) by (nonlinear_arith);
    assert((a * b) * c == (c * a) * b) by (nonlinear_arith);
    assert((a * b) * c == (c * b) * a) by (nonlinear_arith);
}

/// A vector `q` parallel to `a`: `|a|² (q_x + q_y) = (a · q)(a_x + a_y)`.
proof fn lemma_parallel_sum(ax: int, ay: int, qx: int, qy: int)
    requires
        cross2(ax, ay, qx, qy) == 0,
    ensures
        (ax * ax + ay * ay) * (qx + qy) == dot2(ax, ay, qx, qy) * (ax + ay),
{
    let n = ax * ax + ay * ay;
    let d = dot2(ax, ay, qx, qy);
    // n qx = d ax - (a × q) ay and n qy = d ay + (a × q) ax.
    lemma_add_mul_left(qx, ax * ax, ay * ay);
    lemma_add_mul_left(qy, ax * ax, ay * ay);
    lemma_add_mul_left(ax, ax * qx, ay * qy);
    lemma_add_mul_left(ay, ax * qx, ay * qy);
    lemma_rotate3(ax, ax, qx);
    lemma_rotate3(ay, ay, qx);
    lemma_rotate3(ax, ax, qy);
    lemma_rotate3(ay, ay, qy);
    lemma_rotate3(ax, qx, ay);
    lemma_rotate3(ax, qy, ay);
    lemma_rotate3(ay, qy, ax);
    lemma_rotate3(ay, qx, ax);
    lemma_sub_mul(ax * qy, ay * qx, ay);
    lemma_sub_mul(ax * qy, ay * qx, ax);
    assert(n * qx == d * ax - cross2(ax, ay, qx, qy) * ay) by {
        assert(n * qx == qx * (ax * ax) + qx * (ay * ay)) by (nonlinear_arith)
            requires
                n == ax * ax + ay * ay,
        ;
        assert(d * ax == ax * (ax * qx) + ax * (ay * qy)) by (nonlinear_arith)
            requires
                d == ax * qx + ay * qy,
        ;
    }
    assert(n * qy == d * ay + cross2(ax, ay, qx, qy) * ax) by {
        assert(n * qy == qy * (ax * ax) + qy * (ay * ay)) by (nonlinear_arith)
            requires
                n == ax * ax + ay * ay,
        ;
        assert(d * ay == ay * (ax * qx) + ay * (ay * qy)) by (nonlinear_arith)
            requires
                d == ax * qx + ay * qy,
        ;
    }
    lemma_add_mul_left(n, qx, qy);
    lemma_add_mul_left(d, ax, ay);
}

/// For `b` parallel to `a`: `|a|² (b × q) = (a · b)(a × q)`.
proof fn lemma_parallel_cross(ax: int, ay: int, bx: int, by: int, qx: int, qy: int)
    requires
        cross2(ax, ay, bx, by) == 0,
    ensures
        (ax * ax + ay * ay) * cross2(bx, by, qx, qy) == dot2(ax, ay, bx, by) * cross2(ax, ay, qx, qy),
{
    let n = ax * ax + ay * ay;
    let d = dot2(ax, ay, bx, by);
    lemma_parallel_components(ax, ay, bx, by);
    assert(n * bx == d * ax && n * by == d * ay);
    // n (bx qy - by qx) = (n bx) qy - (n by) qx = (d ax) qy - (d ay) qx = d (ax qy - ay qx)
    assert(n * (bx * qy - by * qx) == (n * bx) * qy - (n * by) * qx) by (nonlinear_arith);
    assert((d * ax) * qy - (d * ay) * qx == d * (ax * qy - ay * qx)) by (nonlinear_arith);
}

/// For `b` parallel to `a`: `|a|² b = (a · b) a`, coordinate by coordinate.
proof fn lemma_parallel_components(ax: int, ay: int, bx: int, by: int)
    requires
        cross2(ax, ay, bx, by) == 0,
    ensures
        (ax * ax + ay * ay) * bx == dot2(ax, ay, bx, by) * ax,
        (ax * ax + ay * ay) * by == dot2(ax, ay, bx, by) * ay,
{
    lemma_parallel_sum_parts(ax, ay, bx, by);
}

proof fn lemma_parallel_sum_parts(ax: int, ay: int, qx: int, qy: int)
    requires
        cross2(ax, ay, qx, qy) == 0,
    ensures
        (ax * ax + ay * ay) * qx == dot2(ax, ay, qx, qy) * ax,
        (ax * ax + ay * ay) * qy == dot2(ax, ay, qx, qy) * ay,
{
    let n = ax * ax + ay * ay;
    let d = dot2(ax, ay, qx, qy);
    assert(n * qx == qx * (ax * ax) + qx * (ay * ay)) by (nonlinear_arith)
        requires
            n == ax * ax + ay * ay,
    ;
    assert(d * ax == ax * (ax * qx) + ax * (ay * qy)) by (nonlinear_arith)
        requires
            d == ax * qx + ay * qy,
    ;
    assert(n * qy == qy * (ax * ax) + qy * (ay * ay)) by (nonlinear_arith)
        requires
            n == ax * ax + ay * ay,
    ;
    assert(d * ay == ay * (ax * qx) + ay * (ay * qy)) by (nonlinear_arith)
        requires
            d == ax * qx + ay * qy,
    ;
    assert(ax * qy == ay * qx);
    assert(qx * (ay * ay) == ax * (ay * qy)) by (nonlinear_arith)
        requires
            ax * qy == ay * qx,
    ;
    assert(qy * (ax * ax) == ay * (ax * qx)) by (nonlinear_arith)
        requires
            ax * qy == ay * qx,
    ;
    assert(qx * (ax * ax) == ax * (ax * qx)) by (nonlinear_arith);
    assert(qy * (ay * ay) == ay * (ay * qy)) by (nonlinear_arith);
}

/// At a vertex `v` reached from `a` and left towards `b`, with every point
/// `q` in the half-plane of the arriving step and on or left of the leaving
/// edge, a linear functional that does not grow towards `a` or `b` does not
/// grow towards `q`: with `A = a - v`, `B = b - v`, `Q = q - v`, if
/// `A_x + A_y <= 0` and `B_x + B_y <= 0` then `Q_x + Q_y <= 0`.
proof fn lemma_cone_sum(ax: int, ay: int, bx: int, by: int, qx: int, qy: int)
    requires
        !(ax == 0 && ay == 0),
        !(bx == 0 && by == 0),
        ax + ay <= 0,
        bx + by <= 0,
        in_half(-ax, -ay, bx, by),
        in_half(-ax, -ay, qx, qy),
        cross2(bx, by, qx, qy) >= 0,
    ensures
        qx + qy <= 0,
{
    assert(cross2(-ax, -ay, qx, qy) == -cross2(ax, ay, qx, qy)) by (nonlinear_arith);
    assert(dot2(-ax, -ay, qx, qy) == -dot2(ax, ay, qx, qy)) by (nonlinear_arith);
    assert(cross2(-ax, -ay, bx, by) == -cross2(ax, ay, bx, by)) by (nonlinear_arith);
    assert(dot2(-ax, -ay, bx, by) == -dot2(ax, ay, bx, by)) by (nonlinear_arith);
    assert(cross2(qx, qy, bx, by) == -cross2(bx, by, qx, qy)) by (nonlinear_arith);
    let n = ax * ax + ay * ay;
    assert(n > 0) by (nonlinear_arith)
        requires
            !(ax == 0 && ay == 0),
            n == ax * ax + ay * ay,
    ;
    if qx == 0 && qy == 0 {
    } else if cross2(ax, ay, bx, by) < 0 {
        lemma_cramer_sum(ax, ay, bx, by, qx, qy);
        let c = cross2(ax, ay, bx, by);
        let s = qx + qy;
        let u = cross2(qx, qy, bx, by);
        let w = cross2(ax, ay, qx, qy);
        assert(u <= 0 && w <= 0);
        assert(c * s >= 0) by (nonlinear_arith)
            requires
                c * s == u * (ax + ay) + w * (bx + by),
                u <= 0,
                w <= 0,
                ax + ay <= 0,
                bx + by <= 0,
        ;
        assert(s <= 0) by (nonlinear_arith)
            requires
                c < 0,
                c * s >= 0,
        ;
    } else {
        assert(cross2(ax, ay, bx, by) == 0 && dot2(ax, ay, bx, by) > 0);
        lemma_parallel_cross(ax, ay, bx, by, qx, qy);
        let w = cross2(ax, ay, qx, qy);
        assert(w >= 0) by (nonlinear_arith)
            requires
                n * cross2(bx, by, qx, qy) == dot2(ax, ay, bx, by) * w,
                n > 0,
                cross2(bx, by, qx, qy) >= 0,
                dot2(ax, ay, bx, by) > 0,
        ;
        assert(w == 0);
        assert(dot2(ax, ay, qx, qy) > 0);
        lemma_parallel_sum(ax, ay, qx, qy);
        assert(qx + qy <= 0) by (nonlinear_arith)
            requires
                n * (qx + qy) == dot2(ax, ay, qx, qy) * (ax + ay),
                n > 0,
                dot2(ax, ay, qx, qy) > 0,
                ax + ay <= 0,
        ;
    }
}

proof fn lemma_coord_sum_nonnegative(x: Seq<u32>, k: nat)
    ensures
        coord_sum(x, k) >= 0,
    decreases k,
{
    if k > 0 {
        lemma_coord_sum_nonnegative(x, (k - 1) as nat);
    }
}

/// The largest total degree among the first `k` listed points bounds each of
/// them, and, when there is one, is the total degree of one of them.
proof fn lemma_max_degree_prefix(p: Seq<Vec<u32>>, v: Seq<usize>, k: nat)
    requires
        k <= v.len(),
    ensures
        forall|j: int| 0 <= j < k ==> total_degree(#[trigger] p[v[j] as int]@) <= max_degree_prefix(p, v, k),
        k > 0 ==> exists|j: int| 0 <= j < k && max_degree_prefix(p, v, k) == total_degree(#[trigger] p[v[j] as int]@),
    decreases k,
{
    if k > 0 {
        let k1 = (k - 1) as nat;
        lemma_max_degree_prefix(p, v, k1);
        lemma_coord_sum_nonnegative(p[v[k1 as int] as int]@, p[v[k1 as int] as int]@.len());
        if k1 > 0 {
            let j = choose|j: int| 0 <= j < k1 && max_degree_prefix(p, v, k1) == total_degree(#[trigger] p[v[j] as int]@);
            if max_degree_prefix(p, v, k) == max_degree_prefix(p, v, k1) {
                assert(max_degree_prefix(p, v, k) == total_degree(p[v[j] as int]@));
            } else {
                assert(max_degree_prefix(p, v, k) == total_degree(p[v[k1 as int] as int]@));
            }
        } else {
            assert(max_degree_prefix(p, v, 0) == 0);
            assert(max_degree_prefix(p, v, k) == total_degree(p[v[0] as int]@));
        }
    }
}

/// The degree of a Newton polytope is the largest total degree of its
/// vertices: at least that of each vertex, and that of one of them when
/// there is a vertex.
pub proof fn lemma_degree_of_vertices(p: Seq<Vec<u32>>, v: Seq<usize>)
    ensures
        forall|j: int| 0 <= j < v.len() ==> total_degree(#[trigger] p[v[j] as int]@) <= max_degree_prefix(p, v, v.len()),
        v.len() > 0 ==> exists|j: int| 0 <= j < v.len() && max_degree_prefix(p, v, v.len()) == total_degree(#[trigger] p[v[j] as int]@),
{
    lemma_max_degree_prefix(p, v, v.len());
}

/// A planar point's total degree is the sum of its two coordinates.
proof fn lemma_degree_2d(x: Seq<u32>)
    requires
        x.len() == 2,
    ensures
        total_degree(x) == x[0] + x[1],
{
    assert(coord_sum(x, 0) == 0);
    assert(coord_sum(x, 1) == x[0]);
}

/// On a line or in the plane, some hull vertex has the largest total degree
/// among all the points: the degree of the polytope bounds the total degree
/// of each of its points.
pub proof fn lemma_degree_bounds_points(p: Seq<Vec<u32>>, v: Seq<usize>, e: Seq<(usize, usize)>, d: nat)
    requires
        p.len() > 0,
        1 <= d <= 2,
        uniform_dim(p, d),
        hull_of(p, v, e, d),
    ensures
        forall|i: int| 0 <= i < p.len() ==> total_degree(#[trigger] p[i]@) <= max_degree_prefix(p, v, v.len() as nat),
{
    let n = p.len();
    let l = v.len();
    lemma_max_degree_prefix(p, v, l);
    let m = max_degree_prefix(p, v, l);
    if d == 1 {
        let top = v[l - 1] as int;
        assert(is_first_max_1d(p, top));
        assert forall|i: int| 0 <= i < n implies total_degree(#[trigger] p[i]@) <= m by {
            assert(p[i]@.len() == 1 && p[top]@.len() == 1);
            assert(coord_sum(p[i]@, 0) == 0 && coord_sum(p[top]@, 0) == 0);
            assert(total_degree(p[i]@) == coord(p, i, 0));
            assert(total_degree(p[top]@) == coord(p, top, 0));
            assert(total_degree(p[v[l - 1] as int]@) <= m);
        }
    } else if n < 2 || all_at(p, 0) {
        assert forall|i: int| 0 <= i < n implies total_degree(#[trigger] p[i]@) <= m by {
            assert(p[i]@.len() == 2 && p[0]@.len() == 2);
            lemma_degree_2d(p[i]@);
            lemma_degree_2d(p[0]@);
            if n >= 2 {
                assert(same_point_2d(p, i, 0));
            }
            assert(total_degree(p[v[0] as int]@) <= m);
        }
    } else {
        let k = choose|j: int| 0 <= j < l && m == total_degree(#[trigger] p[v[j] as int]@);
        let pk = if k == 0 { l - 1 } else { k - 1 };
        let nk = if k + 1 < l { k + 1 } else { 0 };
        let c = v[k] as int;
        let a = v[pk] as int;
        let b = v[nk] as int;
        assert(pk != k && nk != k);
        assert(!same_point_2d(p, v[pk] as int, v[k] as int));
        assert(!same_point_2d(p, v[nk] as int, v[k] as int));
        assert(sees_ahead(p, v, k));
        assert(half_plane_at(p, c, rel_x(p, a, c), rel_y(p, a, c)));
        if k + 1 < l {
            assert(supports_left(p, v[k] as int, v[k + 1] as int));
        } else {
            assert(supports_left(p, v[l - 1] as int, v[0] as int));
        }
        assert(supports_left(p, c, b));
        assert(p[a]@.len() == 2 && p[b]@.len() == 2 && p[c]@.len() == 2);
        lemma_degree_2d(p[a]@);
        lemma_degree_2d(p[b]@);
        lemma_degree_2d(p[c]@);
        assert(total_degree(p[v[pk] as int]@) <= m);
        assert(total_degree(p[v[nk] as int]@) <= m);
        let ax = coord(p, a, 0) - coord(p, c, 0);
        let ay = coord(p, a, 1) - coord(p, c, 1);
        let bx = coord(p, b, 0) - coord(p, c, 0);
        let by = coord(p, b, 1) - coord(p, c, 1);
        assert(in_half(rel_x(p, a, c), rel_y(p, a, c), rel_x(p, c, b), rel_y(p, c, b)));
        assert forall|i: int| 0 <= i < n implies total_degree(#[trigger] p[i]@) <= m by {
            assert(p[i]@.len() == 2);
            lemma_degree_2d(p[i]@);
            let qx = coord(p, i, 0) - coord(p, c, 0);
            let qy = coord(p, i, 1) - coord(p, c, 1);
            assert(in_half(rel_x(p, a, c), rel_y(p, a, c), rel_x(p, c, i), rel_y(p, c, i)));
            assert(cross(p, c, b, i) >= 0);
            assert(cross2(bx, by, qx, qy) == cross(p, c, b, i));
            lemma_cone_sum(ax, ay, bx, by, qx, qy);
        }
    }
}

} // verus!
