//! Orientation of planar integer vectors: cross and dot products, the
//! half-plane seen from a vertex of a convex polygon, and the facts about
//! turning left or right that make gift wrapping find the hull.
use vstd::prelude::*;

verus! {

/// The cross product `a × b` of two planar vectors.
pub open spec fn cross2(ax: int, ay: int, bx: int, by: int) -> int {
    ax * by - ay * bx
}

/// The dot product `a · b` of two planar vectors.
pub open spec fn dot2(ax: int, ay: int, bx: int, by: int) -> int {
    ax * bx + ay * by
}

/// `w` lies in the half-plane to the left of direction `d`, including the
/// boundary ray pointing backwards along `d` and the zero vector, but not the
/// boundary ray pointing forwards.
pub open spec fn in_half(dx: int, dy: int, wx: int, wy: int) -> bool {
    ||| cross2(dx, dy, wx, wy) > 0
    ||| cross2(dx, dy, wx, wy) == 0 && dot2(dx, dy, wx, wy) < 0
    ||| wx == 0 && wy == 0
}

/// A vector of squared length zero is zero.
pub proof fn lemma_square_zero(x: int, y: int)
    requires
        x * x + y * y == 0,
    ensures
        x == 0 && y == 0,
{
    assert(x * x >= 0 && y * y >= 0) by (nonlinear_arith);
    assert(x == 0) by (nonlinear_arith)
        requires
            x * x == 0,
    ;
    assert(y == 0) by (nonlinear_arith)
        requires
            y * y == 0,
    ;
}

/// When `v` is parallel to `u`, scaling by `u · u` turns `v` into a
/// multiple of `u`, so products with `v` are those with `u` scaled by
/// `u · v`.
pub proof fn lemma_parallel_scale(ux: int, uy: int, vx: int, vy: int, wx: int, wy: int)
    requires
        cross2(ux, uy, vx, vy) == 0,
    ensures
        cross2(vx, vy, wx, wy) * dot2(ux, uy, ux, uy) == dot2(ux, uy, vx, vy) * cross2(ux, uy, wx, wy),
        dot2(vx, vy, wx, wy) * dot2(ux, uy, ux, uy) == dot2(ux, uy, vx, vy) * dot2(ux, uy, wx, wy),
{
    let s = ux * ux + uy * uy;
    let t = ux * vx + uy * vy;
    assert(vx * s == ux * t) by (nonlinear_arith)
        requires
            ux * vy - uy * vx == 0,
            s == ux * ux + uy * uy,
            t == ux * vx + uy * vy,
    ;
    assert(vy * s == uy * t) by (nonlinear_arith)
        requires
            ux * vy - uy * vx == 0,
            s == ux * ux + uy * uy,
            t == ux * vx + uy * vy,
    ;
    let a = vx * s;
    let b = vy * s;
    assert((vx * wy - vy * wx) * s == a * wy - b * wx) by (nonlinear_arith)
        requires
            a == vx * s,
            b == vy * s,
    ;
    assert(a * wy - b * wx == t * (ux * wy - uy * wx)) by (nonlinear_arith)
        requires
            a == ux * t,
            b == uy * t,
    ;
    assert((vx * wx + vy * wy) * s == a * wx + b * wy) by (nonlinear_arith)
        requires
            a == vx * s,
            b == vy * s,
    ;
    assert(a * wx + b * wy == t * (ux * wx + uy * wy)) by (nonlinear_arith)
        requires
            a == ux * t,
            b == uy * t,
    ;
}

proof fn lemma_expand_product(a: int, b: int, c: int, e: int)
    ensures
        (a - b) * (c - e) == a * c - a * e - b * c + b * e,
{
    assert((a - b) * (c - e) == a * c - a * e - b * c + b * e) by (nonlinear_arith);
}

proof fn lemma_regroup(a: int, b: int, c: int, e: int)
    ensures
        (a * b) * (c * e) == (c * b) * (e * a),
        (a * b) * (c * e) == (a * e) * (c * b),
{
    assert((a * b) * (c * e) == (c * b) * (e * a)) by (nonlinear_arith);
    assert((a * b) * (c * e) == (a * e) * (c * b)) by (nonlinear_arith);
}

/// The cross products of three vectors with a fourth are linearly related.
pub proof fn lemma_three_cross(dx: int, dy: int, ux: int, uy: int, vx: int, vy: int, wx: int, wy: int)
    ensures
        cross2(vx, vy, wx, wy) * cross2(dx, dy, ux, uy) == cross2(ux, uy, wx, wy) * cross2(dx, dy, vx, vy)
            - cross2(dx, dy, wx, wy) * cross2(ux, uy, vx, vy),
{
    lemma_expand_product(vx * wy, vy * wx, dx * uy, dy * ux);
    lemma_expand_product(ux * wy, uy * wx, dx * vy, dy * vx);
    lemma_expand_product(dx * wy, dy * wx, ux * vy, uy * vx);
    // the twelve products pair off
    lemma_regroup(vx, wy, dx, uy);
    lemma_regroup(vx, wy, dy, ux);
    lemma_regroup(vy, wx, dx, uy);
    lemma_regroup(vy, wx, dy, ux);
    lemma_regroup(ux, wy, dx, vy);
    lemma_regroup(ux, wy, dy, vx);
    lemma_regroup(uy, wx, dx, vy);
    lemma_regroup(uy, wx, dy, vx);
    lemma_regroup(dx, wy, ux, vy);
    lemma_regroup(dx, wy, uy, vx);
    lemma_regroup(dy, wx, ux, vy);
    lemma_regroup(dy, wx, uy, vx);
}

/// Swapping the factors negates the cross product and keeps the dot
/// product.
pub proof fn lemma_flip(ax: int, ay: int, bx: int, by: int)
    ensures
        cross2(ax, ay, bx, by) == -cross2(bx, by, ax, ay),
        dot2(ax, ay, bx, by) == dot2(bx, by, ax, ay),
{
    assert(ax * by - ay * bx == -(bx * ay - by * ax)) by (nonlinear_arith);
    assert(ax * bx + ay * by == bx * ax + by * ay) by (nonlinear_arith);
}

/// Two non-zero parallel vectors of one half-plane point the same way.
pub proof fn lemma_same_ray(dx: int, dy: int, ux: int, uy: int, vx: int, vy: int)
    requires
        in_half(dx, dy, ux, uy),
        in_half(dx, dy, vx, vy),
        ux != 0 || uy != 0,
        vx != 0 || vy != 0,
        cross2(ux, uy, vx, vy) == 0,
    ensures
        dot2(ux, uy, vx, vy) > 0,
{
    let uu = dot2(ux, uy, ux, uy);
    let uv = dot2(ux, uy, vx, vy);
    assert(uu > 0) by {
        if uu == 0 {
            lemma_square_zero(ux, uy);
        }
        assert(ux * ux >= 0 && uy * uy >= 0) by (nonlinear_arith);
    }
    lemma_parallel_scale(ux, uy, vx, vy, dx, dy);
    lemma_flip(dx, dy, ux, uy);
    lemma_flip(dx, dy, vx, vy);
    // (d × v) uu == uv (d × u) and (d · v) uu == uv (d · u)
    let xvd = cross2(vx, vy, dx, dy);
    let xud = cross2(ux, uy, dx, dy);
    assert(cross2(dx, dy, vx, vy) * uu == uv * cross2(dx, dy, ux, uy)) by (nonlinear_arith)
        requires
            xvd * uu == uv * xud,
            cross2(dx, dy, vx, vy) == -xvd,
            cross2(dx, dy, ux, uy) == -xud,
    ;
    if uv == 0 {
        assert(vx * uu == 0 && vy * uu == 0) by (nonlinear_arith)
            requires
                ux * vy - uy * vx == 0,
                uv == ux * vx + uy * vy,
                uu == ux * ux + uy * uy,
                uv == 0,
        ;
        assert(vx == 0 && vy == 0) by (nonlinear_arith)
            requires
                vx * uu == 0,
                vy * uu == 0,
                uu > 0,
        ;
    } else if uv < 0 {
        let du = cross2(dx, dy, ux, uy);
        let dv = cross2(dx, dy, vx, vy);
        assert(du >= 0 && dv >= 0);
        assert(dv * uu <= 0) by (nonlinear_arith)
            requires
                dv * uu == uv * du,
                uv < 0,
                du >= 0,
        ;
        assert(dv == 0) by (nonlinear_arith)
            requires
                dv * uu <= 0,
                dv >= 0,
                uu > 0,
        ;
        assert(du == 0) by (nonlinear_arith)
            requires
                0 == uv * du,
                uv < 0,
        ;
        let pu = dot2(dx, dy, ux, uy);
        let pv = dot2(dx, dy, vx, vy);
        assert(pu < 0 && pv < 0);
        assert(false) by (nonlinear_arith)
            requires
                pv * uu == uv * pu,
                pu < 0,
                pv < 0,
                uv < 0,
                uu > 0,
        ;
    }
}

/// Inside one half-plane, turning right from `u` to `v` and not right from
/// `u` to `w` means not turning right from `v` to `w`.
pub proof fn lemma_turn_transitive(dx: int, dy: int, ux: int, uy: int, vx: int, vy: int, wx: int, wy: int)
    requires
        in_half(dx, dy, ux, uy),
        in_half(dx, dy, vx, vy),
        in_half(dx, dy, wx, wy),
        cross2(ux, uy, vx, vy) < 0,
        cross2(ux, uy, wx, wy) >= 0,
    ensures
        cross2(vx, vy, wx, wy) >= 0,
{
    let du = cross2(dx, dy, ux, uy);
    let dv = cross2(dx, dy, vx, vy);
    let dw = cross2(dx, dy, wx, wy);
    let uv = cross2(ux, uy, vx, vy);
    let uw = cross2(ux, uy, wx, wy);
    let vw = cross2(vx, vy, wx, wy);
    lemma_three_cross(dx, dy, ux, uy, vx, vy, wx, wy);
    assert(du >= 0 && dv >= 0 && dw >= 0);
    if du > 0 {
        assert(vw >= 0) by (nonlinear_arith)
            requires
                vw * du == uw * dv - dw * uv,
                du > 0,
                dv >= 0,
                dw >= 0,
                uv < 0,
                uw >= 0,
        ;
    } else {
        // `u` lies on the backward boundary ray: a negative multiple of `d`.
        assert(!(ux == 0 && uy == 0));
        let dd = dot2(dx, dy, dx, dy);
        let pu = dot2(dx, dy, ux, uy);
        assert(pu < 0);
        lemma_parallel_scale(dx, dy, ux, uy, vx, vy);
        lemma_parallel_scale(dx, dy, ux, uy, wx, wy);
        // uv * dd == pu * dv and uw * dd == pu * dw
        assert(dd > 0) by {
            assert(dd >= 0) by (nonlinear_arith)
                requires
                    dd == dx * dx + dy * dy,
            ;
            if dd == 0 {
                lemma_square_zero(dx, dy);
            }
        }
        assert(dv > 0) by (nonlinear_arith)
            requires
                uv * dd == pu * dv,
                uv < 0,
                pu < 0,
                dd > 0,
        ;
        assert(dw == 0) by (nonlinear_arith)
            requires
                uw * dd == pu * dw,
                uw >= 0,
                pu < 0,
                dd >= 0,
                dw >= 0,
        ;
        if !(wx == 0 && wy == 0) {
            let pw = dot2(dx, dy, wx, wy);
            assert(pw < 0);
            lemma_parallel_scale(dx, dy, wx, wy, vx, vy);
            // (w × v) dd == pw (d × v)
            assert(vw >= 0) by (nonlinear_arith)
                requires
                    -vw * dd == pw * dv,
                    pw < 0,
                    dv > 0,
                    dd > 0,
            ;
        } else {
            assert(vw == 0);
        }
    }
}

/// Inside one half-plane, if `u` turns right to `v` but not to `w`, and `w`
/// is parallel to `v`, then `w` is the zero vector.
pub proof fn lemma_turn_parallel_zero(dx: int, dy: int, ux: int, uy: int, vx: int, vy: int, wx: int, wy: int)
    requires
        in_half(dx, dy, vx, vy),
        in_half(dx, dy, wx, wy),
        cross2(ux, uy, vx, vy) < 0,
        cross2(ux, uy, wx, wy) >= 0,
        cross2(vx, vy, wx, wy) == 0,
    ensures
        wx == 0 && wy == 0,
{
    if !(wx == 0 && wy == 0) {
        assert(!(vx == 0 && vy == 0));
        lemma_same_ray(dx, dy, vx, vy, wx, wy);
        lemma_parallel_scale(vx, vy, wx, wy, ux, uy);
        let vv = dot2(vx, vy, vx, vy);
        let vw = dot2(vx, vy, wx, wy);
        assert(vv >= 0) by (nonlinear_arith)
            requires
                vv == vx * vx + vy * vy,
        ;
        // (w × u) vv == vw (v × u)
        assert(false) by (nonlinear_arith)
            requires
                cross2(wx, wy, ux, uy) * vv == vw * cross2(vx, vy, ux, uy),
                cross2(wx, wy, ux, uy) == -cross2(ux, uy, wx, wy),
                cross2(vx, vy, ux, uy) == -cross2(ux, uy, vx, vy),
                cross2(ux, uy, vx, vy) < 0,
                cross2(ux, uy, wx, wy) >= 0,
                vw > 0,
                vv >= 0,
        ;
    }
}

/// Inside one half-plane, a vector `v` parallel to a non-zero `u` and
/// pointing the same way keeps every sign of `u × w` as `v × w`.
pub proof fn lemma_same_ray_turns(dx: int, dy: int, ux: int, uy: int, vx: int, vy: int, wx: int, wy: int)
    requires
        in_half(dx, dy, ux, uy),
        in_half(dx, dy, vx, vy),
        ux != 0 || uy != 0,
        vx != 0 || vy != 0,
        cross2(ux, uy, vx, vy) == 0,
    ensures
        cross2(ux, uy, wx, wy) >= 0 ==> cross2(vx, vy, wx, wy) >= 0,
        cross2(vx, vy, wx, wy) == 0 ==> cross2(ux, uy, wx, wy) == 0,
{
    lemma_same_ray(dx, dy, ux, uy, vx, vy);
    lemma_parallel_scale(ux, uy, vx, vy, wx, wy);
    let uu = dot2(ux, uy, ux, uy);
    let uv = dot2(ux, uy, vx, vy);
    assert(uu > 0) by {
        assert(uu >= 0) by (nonlinear_arith)
            requires
                uu == ux * ux + uy * uy,
        ;
        if uu == 0 {
            lemma_square_zero(ux, uy);
        }
    }
    let uw = cross2(ux, uy, wx, wy);
    let vw = cross2(vx, vy, wx, wy);
    assert(uw >= 0 ==> vw >= 0) by (nonlinear_arith)
        requires
            vw * uu == uv * uw,
            uv > 0,
            uu > 0,
    ;
    assert(vw == 0 ==> uw == 0) by (nonlinear_arith)
        requires
            vw * uu == uv * uw,
            uv > 0,
    ;
}

/// Seen from the far end of a non-zero vector `u` of a half-plane, a vector
/// `w` of that half-plane that does not turn right from `u`, and is no longer
/// than `u` where parallel to it, lies in the half-plane left of `u`.
pub proof fn lemma_next_half_plane(dx: int, dy: int, ux: int, uy: int, wx: int, wy: int)
    requires
        in_half(dx, dy, ux, uy),
        in_half(dx, dy, wx, wy),
        ux != 0 || uy != 0,
        cross2(ux, uy, wx, wy) >= 0,
        cross2(ux, uy, wx, wy) == 0 ==> dot2(wx, wy, wx, wy) <= dot2(ux, uy, ux, uy),
    ensures
        in_half(ux, uy, wx - ux, wy - uy),
{
    let uu = dot2(ux, uy, ux, uy);
    assert(ux * (wy - uy) - uy * (wx - ux) == ux * wy - uy * wx) by (nonlinear_arith);
    assert(ux * (wx - ux) + uy * (wy - uy) == (ux * wx + uy * wy) - (ux * ux + uy * uy)) by (nonlinear_arith);
    assert(uu > 0) by {
        if uu == 0 {
            lemma_square_zero(ux, uy);
        }
        assert(ux * ux >= 0 && uy * uy >= 0) by (nonlinear_arith);
    }
    if cross2(ux, uy, wx, wy) == 0 {
        if !(wx == 0 && wy == 0) {
            lemma_same_ray(dx, dy, ux, uy, wx, wy);
            let uw = dot2(ux, uy, wx, wy);
            let ww = dot2(wx, wy, wx, wy);
            // Lagrange: uw² + (u × w)² == uu ww
            assert(uw * uw == uu * ww) by (nonlinear_arith)
                requires
                    ux * wy - uy * wx == 0,
                    uw == ux * wx + uy * wy,
                    uu == ux * ux + uy * uy,
                    ww == wx * wx + wy * wy,
            ;
            assert(uw <= uu) by (nonlinear_arith)
                requires
                    uw * uw == uu * ww,
                    ww <= uu,
                    uw > 0,
                    uu > 0,
            ;
            if uw == uu {
                assert(ww == uu) by (nonlinear_arith)
                    requires
                        uw * uw == uu * ww,
                        uw == uu,
                        uu > 0,
                ;
                assert((wx - ux) * (wx - ux) + (wy - uy) * (wy - uy) == ww - 2 * uw + uu) by (nonlinear_arith)
                    requires
                        uw == ux * wx + uy * wy,
                        uu == ux * ux + uy * uy,
                        ww == wx * wx + wy * wy,
                ;
                lemma_square_zero(wx - ux, wy - uy);
            }
        }
    }
}

/// The turn at `o` from `a` to `b`: the cross product `(a - o) × (b - o)`.
pub open spec fn turn(ox: int, oy: int, ax: int, ay: int, bx: int, by: int) -> int {
    cross2(ax - ox, ay - oy, bx - ox, by - oy)
}

/// A non-zero direction has no vector other than zero in its half-plane
/// together with the opposite vector.
pub proof fn lemma_half_plane_antisymmetric(dx: int, dy: int, ux: int, uy: int)
    requires
        dx != 0 || dy != 0,
        in_half(dx, dy, ux, uy),
        in_half(dx, dy, -ux, -uy),
    ensures
        ux == 0 && uy == 0,
{
    assert(cross2(dx, dy, -ux, -uy) == -cross2(dx, dy, ux, uy)) by (nonlinear_arith);
    assert(dot2(dx, dy, -ux, -uy) == -dot2(dx, dy, ux, uy)) by (nonlinear_arith);
    if !(ux == 0 && uy == 0) {
        let c = cross2(dx, dy, ux, uy);
        let e = dot2(dx, dy, ux, uy);
        assert(c == 0 && e == 0);
        lemma_parallel_scale(dx, dy, ux, uy, ux, uy);
        assert((ux * ux + uy * uy) * (dx * dx + dy * dy) == 0) by (nonlinear_arith)
            requires
                dot2(ux, uy, ux, uy) * dot2(dx, dy, dx, dy) == e * e,
                e == 0,
        ;
        assert(dx * dx + dy * dy > 0) by {
            assert(dx * dx >= 0 && dy * dy >= 0) by (nonlinear_arith);
            if dx * dx + dy * dy == 0 {
                lemma_square_zero(dx, dy);
            }
        }
        assert(ux * ux + uy * uy > 0) by {
            assert(ux * ux >= 0 && uy * uy >= 0) by (nonlinear_arith);
            if ux * ux + uy * uy == 0 {
                lemma_square_zero(ux, uy);
            }
        }
        assert(false) by (nonlinear_arith)
            requires
                (ux * ux + uy * uy) * (dx * dx + dy * dy) == 0,
                dx * dx + dy * dy > 0,
                ux * ux + uy * uy > 0,
        ;
    }
}

/// A strict turn at `b` from `a` to `c` has distinct consecutive points.
pub proof fn lemma_strict_turn_distinct(ax: int, ay: int, bx: int, by: int, cx: int, cy: int)
    requires
        turn(ax, ay, bx, by, cx, cy) != 0,
    ensures
        !(ax == bx && ay == by),
        !(bx == cx && by == cy),
{
    let ux = bx - ax;
    let uy = by - ay;
    let vx = cx - ax;
    let vy = cy - ay;
    assert(ux == 0 && uy == 0 ==> ux * vy - uy * vx == 0) by (nonlinear_arith);
    assert(ux == vx && uy == vy ==> ux * vy - uy * vx == 0) by (nonlinear_arith);
}

/// Walking back along a convex chain monotone in direction `d`: a point
/// after `b` that is left of the edge `b → c` is left of the edge `a → b`
/// when the chain turns left at `b`.
pub proof fn lemma_chain_left_step(
    dx: int,
    dy: int,
    ax: int,
    ay: int,
    bx: int,
    by: int,
    cx: int,
    cy: int,
    ix: int,
    iy: int,
)
    requires
        in_half(dx, dy, bx - ax, by - ay),
        in_half(dx, dy, cx - bx, cy - by),
        in_half(dx, dy, ix - bx, iy - by),
        turn(ax, ay, bx, by, cx, cy) > 0,
        turn(bx, by, cx, cy, ix, iy) >= 0,
    ensures
        turn(ax, ay, bx, by, ix, iy) >= 0,
{
    let (aux, auy) = (bx - ax, by - ay);
    let (bvx, bvy) = (cx - bx, cy - by);
    let (cvx, cvy) = (ix - bx, iy - by);
    assert(turn(ax, ay, bx, by, cx, cy) == cross2(aux, auy, bvx, bvy)) by (nonlinear_arith)
        requires
            aux == bx - ax,
            auy == by - ay,
            bvx == cx - bx,
            bvy == cy - by,
    ;
    assert(turn(ax, ay, bx, by, ix, iy) == cross2(aux, auy, cvx, cvy)) by (nonlinear_arith)
        requires
            aux == bx - ax,
            auy == by - ay,
            cvx == ix - bx,
            cvy == iy - by,
    ;
    lemma_flip(aux, auy, bvx, bvy);
    lemma_turn_transitive(dx, dy, bvx, bvy, aux, auy, cvx, cvy);
}

/// The new edge `b → i` of a monotone chain keeps a point `q` before `b`
/// on its left, when `q` is left of the edge `a → b` and `i` strictly so.
pub proof fn lemma_new_edge_before(
    dx: int,
    dy: int,
    ax: int,
    ay: int,
    bx: int,
    by: int,
    qx: int,
    qy: int,
    ix: int,
    iy: int,
)
    requires
        in_half(dx, dy, bx - ax, by - ay),
        in_half(dx, dy, bx - qx, by - qy),
        in_half(dx, dy, ix - bx, iy - by),
        turn(ax, ay, bx, by, qx, qy) >= 0,
        turn(ax, ay, bx, by, ix, iy) > 0,
    ensures
        turn(bx, by, ix, iy, qx, qy) >= 0,
{
    let (aux, auy) = (bx - ax, by - ay);
    let (qux, quy) = (bx - qx, by - qy);
    let (cx, cy) = (ix - bx, iy - by);
    assert(turn(ax, ay, bx, by, qx, qy) == -cross2(aux, auy, qux, quy)) by (nonlinear_arith)
        requires
            aux == bx - ax,
            auy == by - ay,
            qux == bx - qx,
            quy == by - qy,
    ;
    assert(turn(ax, ay, bx, by, ix, iy) == cross2(aux, auy, cx, cy)) by (nonlinear_arith)
        requires
            aux == bx - ax,
            auy == by - ay,
            cx == ix - bx,
            cy == iy - by,
    ;
    assert(turn(bx, by, ix, iy, qx, qy) == cross2(qux, quy, cx, cy)) by (nonlinear_arith)
        requires
            qux == bx - qx,
            quy == by - qy,
            cx == ix - bx,
            cy == iy - by,
    ;
    if cross2(aux, auy, qux, quy) < 0 {
        lemma_turn_transitive(dx, dy, aux, auy, qux, quy, cx, cy);
    } else if !(qux == 0 && quy == 0) {
        assert(!(aux == 0 && auy == 0)) by {
            assert(aux == 0 && auy == 0 ==> aux * cy - auy * cx == 0) by (nonlinear_arith);
        }
        lemma_same_ray_turns(dx, dy, aux, auy, qux, quy, cx, cy);
    } else {
        assert(cross2(qux, quy, cx, cy) == 0) by (nonlinear_arith)
            requires
                qux == 0,
                quy == 0,
        ;
    }
}

/// The new edge `b → i` of a monotone chain keeps a point `q` after `b`
/// on its left, when `q` is left of the popped edge `b → e` and `i` is not.
pub proof fn lemma_new_edge_after(
    dx: int,
    dy: int,
    bx: int,
    by: int,
    ex: int,
    ey: int,
    qx: int,
    qy: int,
    ix: int,
    iy: int,
)
    requires
        in_half(dx, dy, ex - bx, ey - by),
        in_half(dx, dy, qx - bx, qy - by),
        in_half(dx, dy, ix - bx, iy - by),
        !(ex == bx && ey == by),
        turn(bx, by, ex, ey, qx, qy) >= 0,
        turn(bx, by, ex, ey, ix, iy) <= 0,
    ensures
        turn(bx, by, ix, iy, qx, qy) >= 0,
{
    let (vx, vy) = (ex - bx, ey - by);
    let (wx, wy) = (qx - bx, qy - by);
    let (cx, cy) = (ix - bx, iy - by);
    if cross2(vx, vy, cx, cy) < 0 {
        lemma_turn_transitive(dx, dy, vx, vy, cx, cy, wx, wy);
    } else if !(cx == 0 && cy == 0) {
        lemma_same_ray_turns(dx, dy, vx, vy, cx, cy, wx, wy);
    } else {
        assert(cross2(cx, cy, wx, wy) == 0) by (nonlinear_arith)
            requires
                cx == 0,
                cy == 0,
        ;
    }
}

/// `w` points the same way as `v`: parallel, with positive dot product.
pub open spec fn same_ray(vx: int, vy: int, wx: int, wy: int) -> bool {
    cross2(vx, vy, wx, wy) == 0 && dot2(vx, vy, wx, wy) > 0
}

/// A vector of positive dot product with some vector is not zero.
pub proof fn lemma_same_ray_nonzero(vx: int, vy: int, wx: int, wy: int)
    requires
        same_ray(vx, vy, wx, wy),
    ensures
        !(vx == 0 && vy == 0),
        !(wx == 0 && wy == 0),
{
    assert(vx == 0 && vy == 0 ==> vx * wx + vy * wy == 0) by (nonlinear_arith);
    assert(wx == 0 && wy == 0 ==> vx * wx + vy * wy == 0) by (nonlinear_arith);
}

/// The sum of two vectors pointing the way of `v` points that way.
pub proof fn lemma_same_ray_add(vx: int, vy: int, ax: int, ay: int, bx: int, by: int)
    requires
        same_ray(vx, vy, ax, ay),
        same_ray(vx, vy, bx, by),
    ensures
        same_ray(vx, vy, ax + bx, ay + by),
{
    assert(cross2(vx, vy, ax + bx, ay + by) == cross2(vx, vy, ax, ay) + cross2(vx, vy, bx, by)) by (nonlinear_arith);
    assert(dot2(vx, vy, ax + bx, ay + by) == dot2(vx, vy, ax, ay) + dot2(vx, vy, bx, by)) by (nonlinear_arith);
}

/// Turning from a vector pointing the way of `v` has the sign of turning
/// from `v`.
pub proof fn lemma_same_ray_cross_sign(vx: int, vy: int, wx: int, wy: int, xx: int, xy: int)
    requires
        same_ray(vx, vy, wx, wy),
    ensures
        cross2(vx, vy, xx, xy) >= 0 ==> cross2(wx, wy, xx, xy) >= 0,
        cross2(vx, vy, xx, xy) == 0 ==> cross2(wx, wy, xx, xy) == 0,
{
    lemma_same_ray_nonzero(vx, vy, wx, wy);
    lemma_parallel_scale(vx, vy, wx, wy, xx, xy);
    let vv = dot2(vx, vy, vx, vy);
    assert(vv > 0) by {
        assert(vx * vx >= 0 && vy * vy >= 0) by (nonlinear_arith);
        if vv == 0 {
            lemma_square_zero(vx, vy);
        }
    }
    let vw = dot2(vx, vy, wx, wy);
    let c = cross2(vx, vy, xx, xy);
    let d = cross2(wx, wy, xx, xy);
    assert(c >= 0 ==> d >= 0) by (nonlinear_arith)
        requires
            d * vv == vw * c,
            vw > 0,
            vv > 0,
    ;
    assert(c == 0 ==> d == 0) by (nonlinear_arith)
        requires
            d * vv == vw * c,
            vv > 0,
    ;
}

/// A non-zero vector parallel to one that points the way of `v` points
/// either the way of `v` or the opposite way.
pub proof fn lemma_parallel_to_ray(vx: int, vy: int, ex: int, ey: int, fx: int, fy: int)
    requires
        same_ray(vx, vy, ex, ey),
        cross2(ex, ey, fx, fy) == 0,
        !(fx == 0 && fy == 0),
    ensures
        cross2(vx, vy, fx, fy) == 0,
        dot2(vx, vy, fx, fy) != 0,
{
    lemma_same_ray_nonzero(vx, vy, ex, ey);
    let ee = dot2(ex, ey, ex, ey);
    assert(ee > 0) by {
        assert(ex * ex >= 0 && ey * ey >= 0) by (nonlinear_arith);
        if ee == 0 {
            lemma_square_zero(ex, ey);
        }
    }
    lemma_flip(vx, vy, ex, ey);
    assert(cross2(ex, ey, vx, vy) == 0);
    lemma_parallel_scale(ex, ey, vx, vy, fx, fy);
    assert(cross2(vx, vy, fx, fy) == 0) by (nonlinear_arith)
        requires
            cross2(vx, vy, fx, fy) * ee == dot2(ex, ey, vx, vy) * cross2(ex, ey, fx, fy),
            cross2(ex, ey, fx, fy) == 0,
            ee > 0,
    ;
    let vv = dot2(vx, vy, vx, vy);
    assert(vv > 0) by {
        assert(vx * vx >= 0 && vy * vy >= 0) by (nonlinear_arith);
        if vv == 0 {
            lemma_square_zero(vx, vy);
        }
    }
    lemma_parallel_scale(vx, vy, fx, fy, fx, fy);
    if dot2(vx, vy, fx, fy) == 0 {
        assert(dot2(fx, fy, fx, fy) == 0) by (nonlinear_arith)
            requires
                dot2(fx, fy, fx, fy) * vv == dot2(vx, vy, fx, fy) * dot2(vx, vy, fx, fy),
                dot2(vx, vy, fx, fy) == 0,
                vv > 0,
        ;
        assert(fx * fx >= 0 && fy * fy >= 0) by (nonlinear_arith);
        lemma_square_zero(fx, fy);
    }
}

/// Turning from a vector pointing against `v` has the opposite sign of
/// turning from `v`.
pub proof fn lemma_opposite_ray_cross_sign(vx: int, vy: int, fx: int, fy: int, xx: int, xy: int)
    requires
        cross2(vx, vy, fx, fy) == 0,
        dot2(vx, vy, fx, fy) < 0,
    ensures
        cross2(fx, fy, xx, xy) >= 0 ==> cross2(vx, vy, xx, xy) <= 0,
{
    lemma_parallel_scale(vx, vy, fx, fy, xx, xy);
    let vv = dot2(vx, vy, vx, vy);
    assert(vv >= 0) by (nonlinear_arith)
        requires
            vv == vx * vx + vy * vy,
    ;
    assert(vv > 0) by {
        if vv == 0 {
            lemma_square_zero(vx, vy);
            assert(vx * fx + vy * fy == 0) by (nonlinear_arith)
                requires
                    vx == 0,
                    vy == 0,
            ;
        }
    }
    let vf = dot2(vx, vy, fx, fy);
    let c = cross2(vx, vy, xx, xy);
    let d = cross2(fx, fy, xx, xy);
    assert(d >= 0 ==> c <= 0) by (nonlinear_arith)
        requires
            d * vv == vf * c,
            vf < 0,
            vv > 0,
    ;
}

/// Two vectors parallel to a non-zero `v` are parallel.
pub proof fn lemma_both_parallel(vx: int, vy: int, ax: int, ay: int, bx: int, by: int)
    requires
        !(vx == 0 && vy == 0),
        cross2(vx, vy, ax, ay) == 0,
        cross2(vx, vy, bx, by) == 0,
    ensures
        cross2(ax, ay, bx, by) == 0,
{
    lemma_parallel_scale(vx, vy, ax, ay, bx, by);
    let vv = dot2(vx, vy, vx, vy);
    assert(vv > 0) by {
        assert(vx * vx >= 0 && vy * vy >= 0) by (nonlinear_arith);
        if vv == 0 {
            lemma_square_zero(vx, vy);
        }
    }
    assert(cross2(ax, ay, bx, by) == 0) by (nonlinear_arith)
        requires
            cross2(ax, ay, bx, by) * vv == dot2(vx, vy, ax, ay) * cross2(vx, vy, bx, by),
            cross2(vx, vy, bx, by) == 0,
            vv > 0,
    ;
}

/// A half-plane never holds both a non-zero vector and a vector pointing
/// the opposite way.
pub proof fn lemma_half_plane_no_opposite(dx: int, dy: int, ax: int, ay: int, cx: int, cy: int)
    requires
        dx != 0 || dy != 0,
        same_ray(ax, ay, cx, cy),
        in_half(dx, dy, cx, cy),
    ensures
        !in_half(dx, dy, -ax, -ay),
{
    if in_half(dx, dy, -ax, -ay) {
        lemma_half_plane_no_opposite_both(dx, dy, ax, ay, cx, cy);
        assert(dx * dx >= 0) by (nonlinear_arith);
    }
}

proof fn lemma_half_plane_no_opposite_both(dx: int, dy: int, ax: int, ay: int, cx: int, cy: int)
    requires
        dx != 0 || dy != 0,
        same_ray(ax, ay, cx, cy),
        in_half(dx, dy, -ax, -ay),
        in_half(dx, dy, cx, cy),
    ensures
        dx * dx < 0,
{
    lemma_same_ray_nonzero(ax, ay, cx, cy);
    lemma_flip(ax, ay, cx, cy);
    assert(same_ray(cx, cy, ax, ay));
    // the turns from `d` to `a` and to `c` have one sign
    lemma_same_ray_cross_sign(ax, ay, cx, cy, -dx, -dy);
    lemma_same_ray_cross_sign(cx, cy, ax, ay, -dx, -dy);
    assert(cross2(ax, ay, -dx, -dy) == cross2(dx, dy, ax, ay)) by (nonlinear_arith);
    assert(cross2(cx, cy, -dx, -dy) == cross2(dx, dy, cx, cy)) by (nonlinear_arith);
    assert(cross2(dx, dy, -ax, -ay) == -cross2(dx, dy, ax, ay)) by (nonlinear_arith);
    assert(dot2(dx, dy, -ax, -ay) == -dot2(dx, dy, ax, ay)) by (nonlinear_arith);
    if cross2(dx, dy, ax, ay) == 0 {
        // both on the boundary line: `a` ahead of `d`, and `c` with it
        assert(cross2(dx, dy, cx, cy) == 0);
        assert(dot2(dx, dy, ax, ay) > 0);
        lemma_parallel_scale(ax, ay, cx, cy, dx, dy);
        let aa = dot2(ax, ay, ax, ay);
        assert(aa > 0) by {
            assert(ax * ax >= 0 && ay * ay >= 0) by (nonlinear_arith);
            if aa == 0 {
                lemma_square_zero(ax, ay);
            }
        }
        assert(dot2(cx, cy, dx, dy) > 0) by (nonlinear_arith)
            requires
                dot2(cx, cy, dx, dy) * aa == dot2(ax, ay, cx, cy) * dot2(ax, ay, dx, dy),
                dot2(ax, ay, cx, cy) > 0,
                dot2(ax, ay, dx, dy) == dot2(dx, dy, ax, ay),
                dot2(dx, dy, ax, ay) > 0,
                aa > 0,
        ;
        assert(dot2(dx, dy, cx, cy) == dot2(cx, cy, dx, dy)) by (nonlinear_arith);
    } else {
        assert(cross2(dx, dy, ax, ay) < 0);
        assert(cross2(dx, dy, cx, cy) < 0);
    }
}

/// Two points `u` and `v`, each seeing every point in a half-plane of some
/// direction, that both step to the same point `w` the way gift wrapping
/// does (with every point in the half-plane of the step seen from `w`)
/// coincide.
pub proof fn lemma_no_common_successor(
    ux: int,
    uy: int,
    vx: int,
    vy: int,
    wx: int,
    wy: int,
    dux: int,
    duy: int,
    dvx: int,
    dvy: int,
)
    requires
        !(ux == wx && uy == wy),
        !(vx == wx && vy == wy),
        in_half(wx - ux, wy - uy, vx - wx, vy - wy),
        in_half(wx - vx, wy - vy, ux - wx, uy - wy),
        dux != 0 || duy != 0,
        dvx != 0 || dvy != 0,
        in_half(dux, duy, wx - ux, wy - uy),
        in_half(dux, duy, vx - ux, vy - uy),
        in_half(dvx, dvy, wx - vx, wy - vy),
        in_half(dvx, dvy, ux - vx, uy - vy),
    ensures
        ux == vx && uy == vy,
{
    let (ax, ay) = (ux - wx, uy - wy);
    let (bx, by) = (vx - wx, vy - wy);
    // seen from `w`, `u` and `v` lie on one ray
    assert(cross2(-ax, -ay, bx, by) == -cross2(ax, ay, bx, by)) by (nonlinear_arith);
    assert(dot2(-ax, -ay, bx, by) == -dot2(ax, ay, bx, by)) by (nonlinear_arith);
    assert(cross2(-bx, -by, ax, ay) == cross2(ax, ay, bx, by)) by (nonlinear_arith);
    assert(dot2(-bx, -by, ax, ay) == -dot2(ax, ay, bx, by)) by (nonlinear_arith);
    assert(wx - ux == -ax && wy - uy == -ay && wx - vx == -bx && wy - vy == -by);
    assert(cross2(ax, ay, bx, by) == 0);
    assert(dot2(ax, ay, bx, by) > 0);
    let aa = dot2(ax, ay, ax, ay);
    let bb = dot2(bx, by, bx, by);
    let ab = dot2(ax, ay, bx, by);
    assert(ab * ab == aa * bb) by (nonlinear_arith)
        requires
            ax * by - ay * bx == 0,
            ab == ax * bx + ay * by,
            aa == ax * ax + ay * ay,
            bb == bx * bx + by * by,
    ;
    assert(aa > 0 && bb > 0) by {
        assert(ax * ax >= 0 && ay * ay >= 0 && bx * bx >= 0 && by * by >= 0) by (nonlinear_arith);
        if aa == 0 {
            lemma_square_zero(ax, ay);
        }
        if bb == 0 {
            lemma_square_zero(bx, by);
        }
    }
    assert(cross2(ax, ay, bx - ax, by - ay) == cross2(ax, ay, bx, by)) by (nonlinear_arith);
    assert(dot2(ax, ay, bx - ax, by - ay) == ab - aa) by (nonlinear_arith)
        requires
            ab == ax * bx + ay * by,
            aa == ax * ax + ay * ay,
    ;
    assert(cross2(bx, by, ax - bx, ay - by) == -cross2(ax, ay, bx, by)) by (nonlinear_arith);
    assert(dot2(bx, by, ax - bx, ay - by) == ab - bb) by (nonlinear_arith)
        requires
            ab == ax * bx + ay * by,
            bb == bx * bx + by * by,
    ;
    if aa < bb {
        // `u` lies between `w` and `v`
        assert(ab > aa) by (nonlinear_arith)
            requires
                ab * ab == aa * bb,
                aa < bb,
                aa > 0,
                ab > 0,
        ;
        assert(vx - ux == bx - ax && vy - uy == by - ay);
        lemma_half_plane_no_opposite(dux, duy, ax, ay, bx - ax, by - ay);
        assert(false);
    } else if bb < aa {
        assert(ab > bb) by (nonlinear_arith)
            requires
                ab * ab == aa * bb,
                bb < aa,
                bb > 0,
                ab > 0,
        ;
        assert(ux - vx == ax - bx && uy - vy == ay - by);
        lemma_half_plane_no_opposite(dvx, dvy, bx, by, ax - bx, ay - by);
        assert(false);
    } else {
        assert(ab == aa) by (nonlinear_arith)
            requires
                ab * ab == aa * bb,
                aa == bb,
                aa > 0,
                ab > 0,
        ;
        assert((ax - bx) * (ax - bx) + (ay - by) * (ay - by) == aa - 2 * ab + bb) by (nonlinear_arith)
            requires
                ab == ax * bx + ay * by,
                aa == ax * ax + ay * ay,
                bb == bx * bx + by * by,
        ;
        lemma_square_zero(ax - bx, ay - by);
    }
}

/// The half-plane of `(0, 1)` holds exactly the opposites of the vectors in
/// the half-plane of `(0, -1)`.
pub proof fn lemma_half_plane_mirror(wx: int, wy: int)
    ensures
        in_half(0, 1, wx, wy) == in_half(0, -1, -wx, -wy),
{
    assert(cross2(0, 1, wx, wy) == -wx);
    assert(dot2(0, 1, wx, wy) == wy);
    assert(cross2(0, -1, -wx, -wy) == -wx);
    assert(dot2(0, -1, -wx, -wy) == wy);
}

/// A point `v` where a chain monotone in direction `d` turns left, coming
/// from `l` and going on to `r`, is not also a point of a chain monotone the
/// other way that arrives there from `u` after `v`: if the edge `v → r` keeps
/// `u` on its left and the edge `u → v` keeps `l` on its left, the first
/// chain does not turn left at `v`.
pub proof fn lemma_no_shared_turn(
    dx: int,
    dy: int,
    lx: int,
    ly: int,
    vx: int,
    vy: int,
    rx: int,
    ry: int,
    ux: int,
    uy: int,
)
    requires
        in_half(dx, dy, vx - lx, vy - ly),
        in_half(dx, dy, rx - vx, ry - vy),
        in_half(dx, dy, ux - vx, uy - vy),
        !(ux == vx && uy == vy),
        turn(vx, vy, rx, ry, ux, uy) >= 0,
        turn(ux, uy, vx, vy, lx, ly) >= 0,
    ensures
        turn(lx, ly, vx, vy, rx, ry) <= 0,
{
    let (ax, ay) = (lx - vx, ly - vy);
    let (bx, by) = (rx - vx, ry - vy);
    let (cx, cy) = (ux - vx, uy - vy);
    assert(turn(lx, ly, vx, vy, rx, ry) == cross2(bx, by, ax, ay)) by (nonlinear_arith)
        requires
            ax == lx - vx,
            ay == ly - vy,
            bx == rx - vx,
            by == ry - vy,
    ;
    assert(turn(vx, vy, rx, ry, ux, uy) == cross2(bx, by, cx, cy)) by (nonlinear_arith)
        requires
            bx == rx - vx,
            by == ry - vy,
            cx == ux - vx,
            cy == uy - vy,
    ;
    assert(turn(ux, uy, vx, vy, lx, ly) == -cross2(cx, cy, ax, ay)) by (nonlinear_arith)
        requires
            ax == lx - vx,
            ay == ly - vy,
            cx == ux - vx,
            cy == uy - vy,
    ;
    if cross2(bx, by, ax, ay) > 0 {
        assert(cross2(bx, by, -ax, -ay) == -cross2(bx, by, ax, ay)) by (nonlinear_arith);
        assert(vx - lx == -ax && vy - ly == -ay);
        lemma_turn_transitive(dx, dy, bx, by, -ax, -ay, cx, cy);
        assert(cross2(-ax, -ay, cx, cy) == -cross2(ax, ay, cx, cy)) by (nonlinear_arith);
        lemma_flip(ax, ay, cx, cy);
        assert(cross2(cx, cy, ax, ay) == 0);
        assert(!(ax == 0 && ay == 0)) by {
            assert(ax == 0 && ay == 0 ==> bx * ay - by * ax == 0) by (nonlinear_arith);
        }
        assert(cross2(-ax, -ay, cx, cy) == 0);
        lemma_same_ray(dx, dy, -ax, -ay, cx, cy);
        // `u` lies on the ray from `v` away from `l`, so `r` turns the same way
        // from it as from that ray
        lemma_parallel_scale(-ax, -ay, cx, cy, bx, by);
        let aa = dot2(-ax, -ay, -ax, -ay);
        assert(aa > 0) by {
            assert(ax * ax >= 0 && ay * ay >= 0) by (nonlinear_arith);
            assert(aa == ax * ax + ay * ay) by (nonlinear_arith)
                requires
                    aa == (-ax) * (-ax) + (-ay) * (-ay),
            ;
            if aa == 0 {
                lemma_square_zero(ax, ay);
            }
        }
        lemma_flip(cx, cy, bx, by);
        lemma_flip(-ax, -ay, bx, by);
        assert(false) by (nonlinear_arith)
            requires
                cross2(cx, cy, bx, by) * aa == dot2(-ax, -ay, cx, cy) * cross2(-ax, -ay, bx, by),
                cross2(cx, cy, bx, by) == -cross2(bx, by, cx, cy),
                cross2(-ax, -ay, bx, by) == -cross2(bx, by, -ax, -ay),
                cross2(bx, by, -ax, -ay) == -cross2(bx, by, ax, ay),
                cross2(bx, by, ax, ay) > 0,
                cross2(bx, by, cx, cy) >= 0,
                dot2(-ax, -ay, cx, cy) > 0,
                aa > 0,
        ;
    }
}

} // verus!
