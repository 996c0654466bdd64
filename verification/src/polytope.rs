//! Lattice counting on the boundary of a Newton polygon.
use vstd::arithmetic::div_mod::{lemma_fundamental_div_mod, lemma_mod_multiples_vanish};
use crate::newton_polytope::{
    coord, cross, is_first_max_1d, is_first_min_1d, rel_x, rel_y, same_point_2d, supports_left, zip_sum,
};
use crate::planar::{
    cross2, dot2, in_half, lemma_both_parallel, lemma_flip, lemma_half_plane_mirror, lemma_no_shared_turn, lemma_same_ray, lemma_chain_left_step, lemma_opposite_ray_cross_sign,
    lemma_parallel_to_ray, lemma_same_ray_add, lemma_same_ray_cross_sign, lemma_square_zero, same_ray, lemma_half_plane_antisymmetric, lemma_new_edge_after, lemma_new_edge_before,
    lemma_strict_turn_distinct,
};
use crate::permutation::{identity_perm, is_perm};
use vstd::prelude::*;

verus! {

/// `d` divides `x` (for non-negative `d`; only zero is divisible by zero).
pub open spec fn divides(d: int, x: int) -> bool {
    if d == 0 {
        x == 0
    } else {
        x % d == 0
    }
}

/// `g` is the greatest common divisor of `a` and `b`: a common divisor that
/// every positive common divisor divides.
pub open spec fn is_gcd(g: int, a: int, b: int) -> bool {
    &&& g >= 0
    &&& divides(g, a)
    &&& divides(g, b)
    &&& forall|d: int| d > 0 && #[trigger] divides(d, a) && divides(d, b) ==> divides(d, g)
}

/// One step of Euclid's algorithm keeps the common divisors.
pub proof fn lemma_euclid_step(a: int, b: int, d: int)
    requires
        a >= 0,
        b > 0,
        d > 0,
    ensures
        (divides(d, a) && divides(d, b)) <==> (divides(d, b) && divides(d, a % b)),
{
    if divides(d, b) {
        lemma_fundamental_div_mod(a, b);
        lemma_fundamental_div_mod(b, d);
        let q = a / b;
        let k = b / d;
        let r = a % b;
        assert(b == d * k);
        assert(b * q == d * (k * q)) by (nonlinear_arith)
            requires
                b == d * k,
        ;
        assert(a == d * (k * q) + r);
        lemma_mod_multiples_vanish(k * q, r, d);
    }
}

/// The common divisors of `a` and `b` are those of `a0` and `b0`, and `b`
/// is zero: then `a` is the greatest common divisor of `a0` and `b0`.
#[verifier::spinoff_prover]
pub proof fn lemma_euclid_done(a: int, a0: int, b0: int)
    requires
        a >= 0,
        forall|d: int| d > 0 ==> ((divides(d, a) && divides(d, 0)) <==> (#[trigger] divides(d, a0) && divides(d, b0))),
        a == 0 ==> a0 == 0 && b0 == 0,
    ensures
        is_gcd(a, a0, b0),
{
    if a > 0 {
        assert(divides(a, a)) by {
            vstd::arithmetic::div_mod::lemma_mod_self_0(a);
        }
        assert(divides(a, 0));
        assert((divides(a, a) && divides(a, 0)) <==> (divides(a, a0) && divides(a, b0)));
        assert(divides(a, a0) && divides(a, b0));
    }
}

/// Euclid's remainder sequence for the greatest common divisor.
pub open spec fn euclid(a: nat, b: nat) -> nat
    decreases b,
{
    if b == 0 {
        a
    } else {
        euclid(b, a % b)
    }
}

/// Euclid's remainder sequence ends at the greatest common divisor.
pub proof fn lemma_euclid_is_gcd(a: nat, b: nat)
    ensures
        is_gcd(euclid(a, b) as int, a as int, b as int),
    decreases b,
{
    if b == 0 {
        lemma_euclid_done(a as int, a as int, 0);
    } else {
        let r = (a % b) as nat;
        lemma_euclid_is_gcd(b, r);
        let g = euclid(a, b) as int;
        assert(g == euclid(b, r));
        assert(g > 0) by {
            if g == 0 {
                assert(divides(0, b as int));
            }
        }
        lemma_euclid_step(a as int, b as int, g);
        assert forall|d: int| d > 0 && #[trigger] divides(d, a as int) && divides(d, b as int) implies divides(d, g) by {
            lemma_euclid_step(a as int, b as int, d);
        }
    }
}

/// The greatest common divisor of two non-negative integers, by Euclid's
/// algorithm.
fn gcd(a: i64, b: i64) -> (g: u64)
    requires
        a >= 0,
        b >= 0,
    ensures
        is_gcd(g as int, a as int, b as int),
        g == euclid(a as nat, b as nat),
{
    let ghost a0 = a as int;
    let ghost b0 = b as int;
    let mut a = a;
    let mut b = b;
    while b != 0
        invariant
            a >= 0,
            b >= 0,
            forall|d: int| d > 0 ==> ((divides(d, a as int) && divides(d, b as int)) <==> (#[trigger] divides(d, a0) && divides(d, b0))),
            a == 0 && b == 0 ==> a0 == 0 && b0 == 0,
            euclid(a as nat, b as nat) == euclid(a0 as nat, b0 as nat),
        decreases b,
    {
        proof {
            assert forall|d: int| d > 0 implies ((divides(d, b as int) && divides(d, (a % b) as int)) <==> (
            #[trigger] divides(d, a0) && divides(d, b0))) by {
                lemma_euclid_step(a as int, b as int, d);
                assert((divides(d, a as int) && divides(d, b as int)) <==> (divides(d, a0) && divides(d, b0)));
            }
        }
        let t = b;
        b = a % b;
        a = t;
    }
    proof {
        lemma_euclid_done(a as int, a0, b0);
    }
    a as u64
}

/// Count lattice points on a line segment (excluding the first endpoint,
/// including the second): the greatest common divisor of the absolute
/// coordinate differences.
pub fn lattice_points_on_segment(x1: i64, y1: i64, x2: i64, y2: i64) -> (r: u64)
    requires
        -i64::MAX <= x2 - x1 <= i64::MAX,
        -i64::MAX <= y2 - y1 <= i64::MAX,
    ensures
        is_gcd(
            r as int,
            if x2 >= x1 { x2 - x1 } else { x1 - x2 },
            if y2 >= y1 { y2 - y1 } else { y1 - y2 },
        ),
        r == euclid(
            (if x2 >= x1 { x2 - x1 } else { x1 - x2 }) as nat,
            (if y2 >= y1 { y2 - y1 } else { y1 - y2 }) as nat,
        ),
{
    let dx = x2 - x1;
    let dy = y2 - y1;
    let dx = if dx < 0 { -dx } else { dx };
    let dy = if dy < 0 { -dy } else { dy };
    gcd(dx, dy)
}

// ---------------------------------------------------------------------------
// Convex hull of lattice points, for the Newton polytope
// ---------------------------------------------------------------------------

/// Every point has at least `d` coordinates.
pub open spec fn dims_at_least(p: Seq<Vec<u32>>, d: nat) -> bool {
    forall|i: int| 0 <= i < p.len() ==> (#[trigger] p[i]@).len() >= d
}

/// Point `a` comes before point `b` ordered by first coordinate, then by
/// second coordinate, then by index.
pub open spec fn xy_before(p: Seq<Vec<u32>>, a: int, b: int) -> bool {
    ||| coord(p, a, 0) < coord(p, b, 0)
    ||| coord(p, a, 0) == coord(p, b, 0) && coord(p, a, 1) < coord(p, b, 1)
    ||| coord(p, a, 0) == coord(p, b, 0) && coord(p, a, 1) == coord(p, b, 1) && a < b
}

fn xy_before_exec(p: &[Vec<u32>], a: usize, b: usize) -> (r: bool)
    requires
        a < p.len(),
        b < p.len(),
        p[a as int]@.len() >= 2,
        p[b as int]@.len() >= 2,
    ensures
        r == xy_before(p@, a as int, b as int),
{
    p[a][0] < p[b][0] || (p[a][0] == p[b][0] && (p[a][1] < p[b][1] || (p[a][1] == p[b][1] && a < b)))
}

/// The indices of the planar points ordered by first and then by second
/// coordinate, equal points in index order.
fn sort_by_coordinates(p: &[Vec<u32>]) -> (order: Vec<usize>)
    requires
        dims_at_least(p@, 2),
    ensures
        is_perm(order@, p.len() as nat),
        forall|i: int, j: int| 0 <= i < j < order.len() ==> xy_before(p@, order[i] as int, order[j] as int),
{
    broadcast use vstd::seq_lib::group_to_multiset_ensures;

    let n = p.len();
    let mut order: Vec<usize> = Vec::new();
    let mut k: usize = 0;
    while k < n
        invariant
            n == p.len(),
            dims_at_least(p@, 2),
            k <= n,
            order@.to_multiset() == identity_perm(k as nat).to_multiset(),
            forall|i: int| 0 <= i < order.len() ==> #[trigger] order[i] < k,
            forall|i: int, j: int| 0 <= i < j < order.len() ==> xy_before(p@, order[i] as int, order[j] as int),
        decreases n - k,
    {
        let mut pos: usize = 0;
        while pos < order.len() && xy_before_exec(p, order[pos], k)
            invariant
                n == p.len(),
                dims_at_least(p@, 2),
                k < n,
                pos <= order.len(),
                forall|i: int| 0 <= i < order.len() ==> #[trigger] order[i] < k,
                forall|m: int| 0 <= m < pos ==> xy_before(p@, order[m] as int, k as int),
            decreases order.len() - pos,
        {
            pos += 1;
        }
        let ghost old_order = order@;
        order.insert(pos, k);
        proof {
            vstd::seq_lib::to_multiset_insert(old_order, pos as int, k);
            identity_perm(k as nat).to_multiset_ensures();
            assert(identity_perm((k + 1) as nat) =~= identity_perm(k as nat).push(k));
            assert forall|i: int, j: int| 0 <= i < j < order.len() implies xy_before(
                p@,
                order[i] as int,
                order[j] as int,
            ) by {
                if j < pos {
                } else if j == pos {
                } else if i < pos {
                    assert(!xy_before(p@, old_order[pos as int] as int, k as int));
                    if j - 1 > pos {
                        assert(xy_before(p@, old_order[pos as int] as int, old_order[j - 1] as int));
                    }
                } else if i == pos {
                    assert(!xy_before(p@, old_order[pos as int] as int, k as int));
                    if j - 1 > pos {
                        assert(xy_before(p@, old_order[pos as int] as int, old_order[j - 1] as int));
                    }
                } else {
                }
            }
        }
        k += 1;
    }
    proof {
        assert(order@.len() == order@.to_multiset().len());
        assert(identity_perm(n as nat).len() == identity_perm(n as nat).to_multiset().len());
    }
    order
}

/// The point index at step `s` of a pass over `indices`, front to back, or
/// back to front when `backward`.
pub open spec fn pass_at(indices: Seq<usize>, backward: bool, s: int) -> usize {
    if backward {
        indices[indices.len() - 1 - s]
    } else {
        indices[s]
    }
}

/// The point indices in the order of a pass.
pub open spec fn pass_order(indices: Seq<usize>, backward: bool) -> Seq<usize> {
    Seq::new(indices.len(), |s: int| pass_at(indices, backward, s))
}

/// Along `ord`, each later point lies in the half-plane of the direction
/// `(dx, dy)` seen from each earlier point.
pub open spec fn monotone_along(p: Seq<Vec<u32>>, ord: Seq<usize>, dx: int, dy: int) -> bool {
    forall|s: int, t: int|
        0 <= s <= t < ord.len() ==> #[trigger] in_half(
            dx,
            dy,
            rel_x(p, ord[s] as int, ord[t] as int),
            rel_y(p, ord[s] as int, ord[t] as int),
        )
}

/// The first `t` points of `ord` are all on or left of the directed line
/// from point `a` through point `b`.
pub open spec fn left_of_prefix(p: Seq<Vec<u32>>, a: int, b: int, ord: Seq<usize>, t: int) -> bool {
    forall|s: int| 0 <= s < t ==> #[trigger] cross(p, a, b, ord[s] as int) >= 0
}

/// The invariant of a monotone-chain pass after `t` steps: the stack
/// `h[base..]` turns strictly left at every inner vertex, each of its edges
/// has the points seen so far on its left, and two consecutive stack points
/// coincide only in a two-point stack after points that all coincide.
pub open spec fn chain_state(p: Seq<Vec<u32>>, h: Seq<usize>, base: int, ord: Seq<usize>, t: int) -> bool {
    &&& forall|k: int| base <= k < h.len() - 1 ==> #[trigger] left_of_prefix(p, h[k] as int, h[k + 1] as int, ord, t)
    &&& forall|k: int| base <= k < h.len() - 2 ==> #[trigger] cross(p, h[k] as int, h[k + 1] as int, h[k + 2] as int) > 0
    &&& forall|k: int|
        base <= k < h.len() - 1 && #[trigger] same_point_2d(p, h[k] as int, h[k + 1] as int) ==> h.len() == base + 2
            && forall|s: int| 0 <= s < t ==> #[trigger] same_point_2d(p, ord[s] as int, h[base] as int)
}

proof fn lemma_chain_all_left(
    p: Seq<Vec<u32>>,
    h: Seq<usize>,
    sp: Seq<int>,
    base: int,
    ord: Seq<usize>,
    i: int,
    t: int,
    dx: int,
    dy: int,
    j: int,
)
    requires
        base <= j <= h.len() - 2,
        sp.len() == h.len() - base,
        0 <= t < ord.len(),
        i == ord[t] as int,
        monotone_along(p, ord, dx, dy),
        forall|k: int| 0 <= k < sp.len() ==> 0 <= #[trigger] sp[k] <= t && h[base + k] == ord[sp[k]],
        forall|k: int, l: int| 0 <= k <= l < sp.len() ==> #[trigger] sp[k] <= #[trigger] sp[l],
        forall|k: int| base <= k < h.len() - 2 ==> #[trigger] cross(p, h[k] as int, h[k + 1] as int, h[k + 2] as int) > 0,
        cross(p, h[h.len() - 2] as int, h[h.len() - 1] as int, i) >= 0,
    ensures
        cross(p, h[j] as int, h[j + 1] as int, i) >= 0,
    decreases h.len() - j,
{
    if j < h.len() - 2 {
        lemma_chain_all_left(p, h, sp, base, ord, i, t, dx, dy, j + 1);
        let a = h[j] as int;
        let b = h[j + 1] as int;
        let c = h[j + 2] as int;
        let (sa, sb, sc) = (sp[j - base], sp[j + 1 - base], sp[j + 2 - base]);
        assert(sa <= sb && sb <= sc && sb <= t);
        assert(h[base + (j - base)] == ord[sa]);
        assert(h[base + (j + 1 - base)] == ord[sb]);
        assert(h[base + (j + 2 - base)] == ord[sc]);
        assert(a == ord[sa] as int && b == ord[sb] as int && c == ord[sc] as int);
        assert(cross(p, h[j] as int, h[j + 1] as int, h[j + 2] as int) > 0);
        assert(in_half(dx, dy, rel_x(p, ord[sa] as int, ord[sb] as int), rel_y(p, ord[sa] as int, ord[sb] as int)));
        assert(in_half(dx, dy, rel_x(p, ord[sb] as int, ord[sc] as int), rel_y(p, ord[sb] as int, ord[sc] as int)));
        assert(in_half(dx, dy, rel_x(p, ord[sb] as int, ord[t] as int), rel_y(p, ord[sb] as int, ord[t] as int)));
        lemma_chain_left_step(
            dx,
            dy,
            coord(p, a, 0),
            coord(p, a, 1),
            coord(p, b, 0),
            coord(p, b, 1),
            coord(p, c, 0),
            coord(p, c, 1),
            coord(p, i, 0),
            coord(p, i, 1),
        );
    }
}

/// One pass of the monotone chain over the points in `indices` (front to
/// back, or back to front when `backward`), on the stack `hull[base..]`:
/// for each point, pop every top that does not turn strictly left towards
/// it, then push it.
fn chain_pass(
    p: &[Vec<u32>],
    indices: &Vec<usize>,
    backward: bool,
    hull: &mut Vec<usize>,
    base: usize,
    Ghost(dx): Ghost<int>,
    Ghost(dy): Ghost<int>,
)
    requires
        dims_at_least(p@, 2),
        indices.len() == p.len(),
        p.len() >= 1,
        forall|k: int| 0 <= k < indices.len() ==> #[trigger] indices[k] < p.len(),
        dx != 0 || dy != 0,
        monotone_along(p@, pass_order(indices@, backward), dx, dy),
        base <= old(hull).len() <= base + 1,
        old(hull).len() == base + 1 ==> old(hull)[base as int] == pass_at(indices@, backward, 0),
        forall|k: int| 0 <= k < old(hull).len() ==> #[trigger] old(hull)[k] < p.len(),
        indices@.no_duplicates(),
    ensures
        final(hull).len() >= base + 1,
        p.len() >= 2 ==> forall|k: int, l: int| base <= k < l < final(hull).len() ==> final(hull)[k] != final(hull)[l],
        p.len() >= 2 ==> forall|k: int|
            base < k < final(hull).len() - 1 ==> #[trigger] final(hull)[k] != pass_at(indices@, backward, 0)
                && final(hull)[k] != pass_at(indices@, backward, p.len() - 1),
        forall|k: int, l: int|
            base <= k <= l < final(hull).len() ==> #[trigger] in_half(
                dx,
                dy,
                rel_x(p@, final(hull)[k] as int, final(hull)[l] as int),
                rel_y(p@, final(hull)[k] as int, final(hull)[l] as int),
            ),
        forall|k: int| 0 <= k < base ==> final(hull)[k] == old(hull)[k],
        final(hull)[base as int] == pass_at(indices@, backward, 0),
        final(hull)[final(hull).len() - 1] == pass_at(indices@, backward, p.len() - 1),
        forall|k: int| 0 <= k < final(hull).len() ==> #[trigger] final(hull)[k] < p.len(),
        chain_state(p@, final(hull)@, base as int, pass_order(indices@, backward), p.len() as int),
{
    let n = indices.len();
    let ghost ord = pass_order(indices@, backward);
    let ghost pre = hull@;
    let ghost mut sp: Seq<int> = if hull.len() == base + 1 { seq![0int] } else { Seq::empty() };
    let mut t: usize = 0;
    while t < n
        invariant
            n == indices.len() == p.len(),
            n >= 1,
            dims_at_least(p@, 2),
            forall|k: int| 0 <= k < indices.len() ==> #[trigger] indices[k] < p.len(),
            dx != 0 || dy != 0,
            ord == pass_order(indices@, backward),
            monotone_along(p@, ord, dx, dy),
            t <= n,
            base <= hull.len(),
            t == 0 ==> hull@ == pre,
            t >= 1 ==> hull.len() >= base + 1 && hull[hull.len() - 1] == ord[t - 1],
            hull.len() >= base + 1 ==> hull[base as int] == ord[0],
            forall|k: int| 0 <= k < base ==> hull[k] == pre[k],
            forall|k: int| 0 <= k < hull.len() ==> #[trigger] hull[k] < p.len(),
            sp.len() == hull.len() - base,
            forall|k: int| 0 <= k < sp.len() ==> 0 <= #[trigger] sp[k] <= t && (sp[k] == t ==> t == 0) && hull[base + k] == ord[sp[k]],
            sp.len() >= 1 ==> sp[0] == 0,
            t >= 1 ==> sp[sp.len() - 1] == t - 1,
            forall|k: int, l: int| 0 <= k <= l < sp.len() ==> #[trigger] sp[k] <= #[trigger] sp[l],
            t >= 2 ==> forall|k: int, l: int| 0 <= k < l < sp.len() ==> #[trigger] sp[k] < #[trigger] sp[l],
            chain_state(p@, hull@, base as int, ord, t as int),
        decreases n - t,
    {
        let i = if backward { indices[n - 1 - t] } else { indices[t] };
        assert(i == ord[t as int]);
        let ghost old_h = hull@;
        let ghost old_sp = sp;
        while hull.len() - base > 1
            invariant
                n == p.len(),
                dims_at_least(p@, 2),
                i < n,
                base <= hull.len(),
                base + 1 <= hull.len() || hull@ == old_h,
                hull.len() <= old_h.len(),
                hull@ == old_h.take(hull.len() as int),
                forall|k: int| 0 <= k < hull.len() ==> #[trigger] hull[k] < p.len(),
                hull.len() < old_h.len() ==> cross(
                    p@,
                    old_h[hull.len() - 1] as int,
                    old_h[hull.len() as int] as int,
                    i as int,
                ) <= 0,
            ensures
                base <= hull.len(),
                hull.len() <= old_h.len(),
                base < hull.len() || hull.len() == old_h.len(),
                hull@ == old_h.take(hull.len() as int),
                forall|k: int| 0 <= k < hull.len() ==> #[trigger] hull[k] < p.len(),
                hull.len() < old_h.len() ==> cross(
                    p@,
                    old_h[hull.len() - 1] as int,
                    old_h[hull.len() as int] as int,
                    i as int,
                ) <= 0,
                hull.len() >= base + 2 ==> cross(
                    p@,
                    hull[hull.len() - 2] as int,
                    hull[hull.len() - 1] as int,
                    i as int,
                ) > 0,
            decreases hull.len(),
        {
            let a = hull[hull.len() - 2];
            let b = hull[hull.len() - 1];
            assert(p@[a as int]@.len() >= 2 && p@[b as int]@.len() >= 2 && p@[i as int]@.len() >= 2);
            if cross_exec_2d(p, a, b, i) <= 0 {
                hull.pop();
            } else {
                break;
            }
        }
        let ghost m = hull.len() as int;
        hull.push(i);
        proof {
            sp = old_sp.take(m - base).push(t as int);
            lemma_pass_step(p@, old_h, old_sp, hull@, sp, base as int, ord, t as int, dx, dy, m);
        }
        t += 1;
    }
    proof {
        let h = hull@;
        assert forall|k: int, l: int| base <= k <= l < h.len() implies #[trigger] in_half(
            dx,
            dy,
            rel_x(p@, h[k] as int, h[l] as int),
            rel_y(p@, h[k] as int, h[l] as int),
        ) by {
            let (a, b) = (sp[k - base], sp[l - base]);
            assert(h[base + (k - base)] == ord[a] && h[base + (l - base)] == ord[b]);
            assert(in_half(dx, dy, rel_x(p@, ord[a] as int, ord[b] as int), rel_y(p@, ord[a] as int, ord[b] as int)));
        }
        if n >= 2 {
            assert(forall|s1: int, s2: int| 0 <= s1 < s2 < n ==> ord[s1] != ord[s2]) by {
                assert forall|s1: int, s2: int| 0 <= s1 < s2 < n implies ord[s1] != ord[s2] by {
                    if backward {
                        assert(indices@[n - 1 - s1] != indices@[n - 1 - s2]);
                    } else {
                        assert(indices@[s1] != indices@[s2]);
                    }
                }
            }
            assert forall|k: int, l: int| base <= k < l < h.len() implies h[k] != h[l] by {
                let (a, b) = (sp[k - base], sp[l - base]);
                assert(a < b);
                assert(h[base + (k - base)] == ord[a] && h[base + (l - base)] == ord[b]);
            }
            assert forall|k: int| base < k < h.len() - 1 implies #[trigger] h[k] != pass_at(indices@, backward, 0)
                && h[k] != pass_at(indices@, backward, n - 1) by {
                let a = sp[k - base];
                let z: int = 0;
                let last = sp.len() - 1;
                assert(sp[z] < a && a < sp[last]);
                assert(h[base + (k - base)] == ord[a]);
                assert(ord[0] == pass_at(indices@, backward, 0));
                assert(ord[n - 1] == pass_at(indices@, backward, n - 1));
            }
        }
    }
}

/// One step of a monotone-chain pass keeps its invariant.
proof fn lemma_pass_step(
    p: Seq<Vec<u32>>,
    old_h: Seq<usize>,
    old_sp: Seq<int>,
    h: Seq<usize>,
    sp: Seq<int>,
    base: int,
    ord: Seq<usize>,
    t: int,
    dx: int,
    dy: int,
    m: int,
)
    requires
        dims_at_least(p, 2),
        dx != 0 || dy != 0,
        0 <= t < ord.len(),
        forall|k: int| 0 <= k < ord.len() ==> #[trigger] ord[k] < p.len(),
        monotone_along(p, ord, dx, dy),
        0 <= base <= m <= old_h.len(),
        base < m || m == old_h.len(),
        old_sp.len() == old_h.len() - base,
        forall|k: int| 0 <= k < old_sp.len() ==> 0 <= #[trigger] old_sp[k] <= t && (old_sp[k] == t ==> t == 0) && old_h[base + k] == ord[old_sp[k]],
        old_sp.len() >= 1 ==> old_sp[0] == 0,
        t >= 1 ==> old_sp.len() >= 1 && old_sp[old_sp.len() - 1] == t - 1,
        forall|k: int, l: int| 0 <= k <= l < old_sp.len() ==> #[trigger] old_sp[k] <= #[trigger] old_sp[l],
        t >= 2 ==> forall|k: int, l: int| 0 <= k < l < old_sp.len() ==> #[trigger] old_sp[k] < #[trigger] old_sp[l],
        chain_state(p, old_h, base, ord, t),
        old_h.len() >= base + 1 ==> old_h[base] == ord[0],
        h == old_h.take(m).push(ord[t]),
        sp == old_sp.take(m - base).push(t),
        m < old_h.len() ==> cross(p, old_h[m - 1] as int, old_h[m] as int, ord[t] as int) <= 0,
        m >= base + 2 ==> cross(p, old_h[m - 2] as int, old_h[m - 1] as int, ord[t] as int) > 0,
    ensures
        sp.len() == h.len() - base,
        forall|k: int| 0 <= k < sp.len() ==> 0 <= #[trigger] sp[k] <= t + 1 && (sp[k] == t + 1 ==> t + 1 == 0) && h[base + k] == ord[sp[k]],
        sp.len() >= 1 ==> sp[0] == 0,
        sp[sp.len() - 1] == t,
        forall|k: int, l: int| 0 <= k <= l < sp.len() ==> #[trigger] sp[k] <= #[trigger] sp[l],
        t + 1 >= 2 ==> forall|k: int, l: int| 0 <= k < l < sp.len() ==> #[trigger] sp[k] < #[trigger] sp[l],
        chain_state(p, h, base, ord, t + 1),
{
    let i = ord[t] as int;
    let hm = old_h.take(m);
    assert(sp.len() == h.len() - base);
    assert forall|k: int| 0 <= k < sp.len() implies 0 <= #[trigger] sp[k] <= t + 1 && (sp[k] == t + 1 ==> t + 1 == 0)
        && h[base + k] == ord[sp[k]] by {
        if k < sp.len() - 1 {
            assert(sp[k] == old_sp[k]);
            assert(h[base + k] == old_h[base + k]);
        }
    }
    if m > base {
        assert(sp[0] == old_sp[0]);
    } else {
        assert(t == 0 || old_sp.len() == 0) by {
            if t >= 1 {
                assert(old_sp.len() >= 1);
                assert(m == old_h.len());
            }
        }
    }
    assert forall|k: int, l: int| 0 <= k <= l < sp.len() implies #[trigger] sp[k] <= #[trigger] sp[l] by {
        if l < sp.len() - 1 {
            assert(sp[k] == old_sp[k] && sp[l] == old_sp[l]);
        } else if k < sp.len() - 1 {
            assert(sp[k] == old_sp[k]);
        }
    }
    if t >= 1 {
        assert forall|k: int, l: int| 0 <= k < l < sp.len() implies #[trigger] sp[k] < #[trigger] sp[l] by {
            if l < sp.len() - 1 {
                assert(sp[k] == old_sp[k] && sp[l] == old_sp[l]);
                if t == 1 {
                    // after one step the stack holds the first point, at most twice,
                    // and a doubled first point is popped by the second
                    assert(old_sp[k] == 0 && old_sp[l] == 0);
                    assert(m >= base + 2);
                    let k2 = m - 2;
                    assert(old_h[k2] == old_h[k2 + 1]) by {
                        assert(old_h[base + (k2 - base)] == ord[old_sp[k2 - base]]);
                        assert(old_h[base + (k2 + 1 - base)] == ord[old_sp[k2 + 1 - base]]);
                        assert(old_sp[k2 - base] <= t && old_sp[k2 + 1 - base] <= t);
                    }
                    assert(cross(p, old_h[k2] as int, old_h[k2 + 1] as int, ord[t] as int) > 0);
                    lemma_turn_distinct(p, old_h[k2] as int, old_h[k2 + 1] as int, ord[t] as int);
                }
            } else {
                assert(sp[k] == old_sp[k]);
            }
        }
    }
    // the monotone order between stack points, seen points and the new one
    assert forall|k: int, s: int|
        0 <= k < sp.len() && 0 <= s <= t && sp[k] <= s implies #[trigger] in_half(
        dx,
        dy,
        rel_x(p, h[base + k] as int, ord[s] as int),
        rel_y(p, h[base + k] as int, ord[s] as int),
    ) by {
        assert(in_half(dx, dy, rel_x(p, ord[sp[k]] as int, ord[s] as int), rel_y(p, ord[sp[k]] as int, ord[s] as int)));
    }
    // Stack edges that stay: the new point is on their left.
    assert forall|k: int| base <= k < h.len() - 1 implies #[trigger] left_of_prefix(
        p,
        h[k] as int,
        h[k + 1] as int,
        ord,
        t + 1,
    ) by {
        if k < m - 1 {
            assert(h[k] == old_h[k] && h[k + 1] == old_h[k + 1]);
            assert(left_of_prefix(p, old_h[k] as int, old_h[k + 1] as int, ord, t));
            assert forall|j: int| base <= j < hm.len() - 2 implies #[trigger] cross(
                p,
                hm[j] as int,
                hm[j + 1] as int,
                hm[j + 2] as int,
            ) > 0 by {
                assert(cross(p, old_h[j] as int, old_h[j + 1] as int, old_h[j + 2] as int) > 0);
            }
            let hsp = old_sp.take(m - base);
            assert forall|j: int| 0 <= j < hsp.len() implies 0 <= #[trigger] hsp[j] <= t && hm[base + j] == ord[hsp[j]] by {
                assert(hsp[j] == old_sp[j]);
            }
            assert forall|j: int, l: int| 0 <= j <= l < hsp.len() implies #[trigger] hsp[j] <= #[trigger] hsp[l] by {
                assert(hsp[j] == old_sp[j] && hsp[l] == old_sp[l]);
            }
            lemma_chain_all_left(p, hm, hsp, base, ord, i, t, dx, dy, k);
            assert(cross(p, h[k] as int, h[k + 1] as int, i) >= 0);
        } else {
            // the new edge from the top `b` to the new point
            let b = h[k] as int;
            assert(k == m - 1);
            assert(b == old_h[m - 1] as int);
            let bsp = sp[k - base];
            assert forall|s: int| 0 <= s < t + 1 implies #[trigger] cross(p, b, i, ord[s] as int) >= 0 by {
                let q = ord[s] as int;
                if s == t {
                    lemma_turn_zero_repeat(p, b, i);
                } else if s <= bsp {
                    assert(in_half(dx, dy, rel_x(p, ord[s] as int, b), rel_y(p, ord[s] as int, b))) by {
                        assert(b == ord[bsp] as int);
                    }
                    if m >= base + 2 {
                        let k2 = m - 2;
                        let a = old_h[k2] as int;
                        assert(left_of_prefix(p, old_h[k2] as int, old_h[k2 + 1] as int, ord, t));
                        assert(old_h[k2 + 1] == old_h[m - 1]);
                        assert(cross(p, a, b, q) >= 0);
                        assert(in_half(dx, dy, rel_x(p, a, b), rel_y(p, a, b))) by {
                            assert(a == h[base + (k - 1 - base)] as int);
                            assert(sp[k - 1 - base] <= bsp);
                        }
                        assert(in_half(dx, dy, rel_x(p, b, i), rel_y(p, b, i)));
                        lemma_new_edge_before(
                            dx,
                            dy,
                            coord(p, a, 0),
                            coord(p, a, 1),
                            coord(p, b, 0),
                            coord(p, b, 1),
                            coord(p, q, 0),
                            coord(p, q, 1),
                            coord(p, i, 0),
                            coord(p, i, 1),
                        );
                    } else {
                        assert(bsp == 0);
                        assert(s == 0);
                        lemma_turn_zero_end(p, b, i, q);
                    }
                } else {
                    // some stack point above `b` was popped for the new point
                    assert(m < old_h.len()) by {
                        if m == old_h.len() {
                            assert(bsp == t - 1);
                        }
                    }
                    let e = old_h[m] as int;
                    let k1 = m - 1;
                    assert(left_of_prefix(p, old_h[k1] as int, old_h[k1 + 1] as int, ord, t));
                    assert(old_h[k1 + 1] == old_h[m]);
                    assert(cross(p, b, e, q) >= 0);
                    if same_point_2d(p, b, e) {
                        assert(same_point_2d(p, old_h[m - 1] as int, old_h[m - 1 + 1] as int));
                        assert(same_point_2d(p, q, old_h[base] as int));
                        assert(m - 1 == base);
                        lemma_turn_zero_end(p, b, i, q);
                    } else {
                        let esp = old_sp[m - base];
                        assert(old_sp[m - 1 - base] <= esp);
                        assert(old_h[m - 1] == ord[old_sp[m - 1 - base]]);
                        assert(in_half(dx, dy, rel_x(p, ord[bsp] as int, ord[esp] as int), rel_y(p, ord[bsp] as int, ord[esp] as int)));
                        assert(in_half(dx, dy, rel_x(p, ord[bsp] as int, ord[s] as int), rel_y(p, ord[bsp] as int, ord[s] as int)));
                        assert(in_half(dx, dy, rel_x(p, ord[bsp] as int, ord[t] as int), rel_y(p, ord[bsp] as int, ord[t] as int)));
                        lemma_new_edge_after(
                            dx,
                            dy,
                            coord(p, b, 0),
                            coord(p, b, 1),
                            coord(p, e, 0),
                            coord(p, e, 1),
                            coord(p, q, 0),
                            coord(p, q, 1),
                            coord(p, i, 0),
                            coord(p, i, 1),
                        );
                    }
                }
            }
        }
    }
    // strict left turns
    assert forall|k: int| base <= k < h.len() - 2 implies #[trigger] cross(p, h[k] as int, h[k + 1] as int, h[k + 2] as int) > 0 by {
        if k < m - 2 {
            assert(h[k] == old_h[k] && h[k + 1] == old_h[k + 1] && h[k + 2] == old_h[k + 2]);
        }
    }
    // coinciding neighbours
    assert forall|k: int|
        base <= k < h.len() - 1 && #[trigger] same_point_2d(p, h[k] as int, h[k + 1] as int) implies h.len() == base + 2
            && forall|s: int| 0 <= s < t + 1 ==> #[trigger] same_point_2d(p, ord[s] as int, h[base] as int) by {
        if k < m - 2 {
            assert(cross(p, h[k] as int, h[k + 1] as int, h[k + 2] as int) > 0);
            lemma_turn_distinct(p, h[k] as int, h[k + 1] as int, h[k + 2] as int);
        } else if k == m - 2 {
            assert(cross(p, old_h[m - 2] as int, old_h[m - 1] as int, i) > 0);
            lemma_turn_distinct(p, h[k] as int, h[k + 1] as int, i);
        } else {
            if m >= base + 2 {
                lemma_turn_distinct(p, old_h[m - 2] as int, old_h[m - 1] as int, i);
            }
            assert(m == base + 1);
            assert(h[base] == ord[0]);
            assert forall|s: int| 0 <= s < t + 1 implies #[trigger] same_point_2d(p, ord[s] as int, h[base] as int) by {
                assert(in_half(dx, dy, rel_x(p, ord[0] as int, ord[s] as int), rel_y(p, ord[0] as int, ord[s] as int)));
                assert(in_half(dx, dy, rel_x(p, ord[s] as int, ord[t] as int), rel_y(p, ord[s] as int, ord[t] as int)));
                lemma_half_plane_antisymmetric(dx, dy, rel_x(p, ord[0] as int, ord[s] as int), rel_y(p, ord[0] as int, ord[s] as int));
            }
        }
    }
}

/// The turn from a point to itself, or towards a point that coincides with
/// the origin, vanishes.
proof fn lemma_turn_zero_repeat(p: Seq<Vec<u32>>, o: int, a: int)
    ensures
        cross(p, o, a, a) == 0,
{
    let ax = coord(p, a, 0) - coord(p, o, 0);
    let ay = coord(p, a, 1) - coord(p, o, 1);
    assert(ax * ay - ay * ax == 0) by (nonlinear_arith);
}

proof fn lemma_turn_zero_end(p: Seq<Vec<u32>>, o: int, a: int, q: int)
    requires
        same_point_2d(p, q, o),
    ensures
        cross(p, o, a, q) == 0,
{
    let ax = coord(p, a, 0) - coord(p, o, 0);
    let ay = coord(p, a, 1) - coord(p, o, 1);
    let qx = coord(p, q, 0) - coord(p, o, 0);
    let qy = coord(p, q, 1) - coord(p, o, 1);
    assert(qx == 0 && qy == 0 ==> ax * qy - ay * qx == 0) by (nonlinear_arith);
}

/// A strict turn has distinct consecutive points.
proof fn lemma_turn_distinct(p: Seq<Vec<u32>>, a: int, b: int, c: int)
    requires
        cross(p, a, b, c) != 0,
    ensures
        !same_point_2d(p, a, b),
        !same_point_2d(p, b, c),
{
    lemma_strict_turn_distinct(coord(p, a, 0), coord(p, a, 1), coord(p, b, 0), coord(p, b, 1), coord(p, c, 0), coord(p, c, 1));
}

/// Position `j`, in `0 .. 2 * h.len()`, going round the closed polygon `h`.
pub open spec fn around(h: Seq<usize>, j: int) -> int {
    (if j < h.len() {
        h[j]
    } else {
        h[j - h.len()]
    }) as int
}

/// Every point lies on the line through point `a` with direction `(vx, vy)`.
pub open spec fn all_on_line(p: Seq<Vec<u32>>, a: int, vx: int, vy: int) -> bool {
    forall|q: int| 0 <= q < p.len() ==> #[trigger] cross2(vx, vy, rel_x(p, a, q), rel_y(p, a, q)) == 0
}

/// Along a run of a polygon that goes straight on at each inner vertex,
/// with supporting edges between distinct points, the run so far either
/// heads the way of its first edge, or all points lie on one line.
proof fn lemma_straight_run_state(p: Seq<Vec<u32>>, h: Seq<usize>, a: int, j: int)
    requires
        0 <= a < h.len(),
        a < j <= a + h.len(),
        forall|k: int| a <= k < j ==> #[trigger] supports_left(p, around(h, k), around(h, k + 1)),
        forall|k: int| a <= k < j ==> !#[trigger] same_point_2d(p, around(h, k), around(h, k + 1)),
        forall|k: int| a < k < j ==> #[trigger] cross(p, around(h, k - 1), around(h, k), around(h, k + 1)) == 0,
    ensures
        ({
            let aa = around(h, a);
            let vx = rel_x(p, aa, around(h, a + 1));
            let vy = rel_y(p, aa, around(h, a + 1));
            ||| same_ray(vx, vy, rel_x(p, aa, around(h, j)), rel_y(p, aa, around(h, j)))
                && same_ray(vx, vy, rel_x(p, around(h, j - 1), around(h, j)), rel_y(p, around(h, j - 1), around(h, j)))
            ||| all_on_line(p, aa, vx, vy)
        }),
    decreases j - a,
{
    let aa = around(h, a);
    let vx = rel_x(p, aa, around(h, a + 1));
    let vy = rel_y(p, aa, around(h, a + 1));
    if j == a + 1 {
        assert(!same_point_2d(p, around(h, a), around(h, a + 1)));
        assert(vx * vy - vy * vx == 0) by (nonlinear_arith);
        assert(vx * vx + vy * vy > 0) by {
            assert(vx * vx >= 0 && vy * vy >= 0) by (nonlinear_arith);
            if vx * vx + vy * vy == 0 {
                lemma_square_zero(vx, vy);
            }
        }
    } else {
        lemma_straight_run_state(p, h, a, j - 1);
        let b = around(h, j - 2);
        let c = around(h, j - 1);
        let d = around(h, j);
        let (ex, ey) = (rel_x(p, b, c), rel_y(p, b, c));
        let (fx, fy) = (rel_x(p, c, d), rel_y(p, c, d));
        assert(cross(p, around(h, (j - 1) - 1), around(h, j - 1), around(h, (j - 1) + 1)) == 0);
        assert(cross2(ex, ey, fx, fy) == 0) by (nonlinear_arith)
            requires
                cross2(ex, ey, ex + fx, ey + fy) == 0,
        ;
        assert(!same_point_2d(p, around(h, j - 1), around(h, (j - 1) + 1)));
        assert(!(fx == 0 && fy == 0));
        if !all_on_line(p, aa, vx, vy) {
            assert(same_ray(vx, vy, ex, ey));
            assert(same_ray(vx, vy, rel_x(p, aa, c), rel_y(p, aa, c)));
            lemma_parallel_to_ray(vx, vy, ex, ey, fx, fy);
            if dot2(vx, vy, fx, fy) > 0 {
                lemma_same_ray_add(vx, vy, rel_x(p, aa, c), rel_y(p, aa, c), fx, fy);
            } else {
                assert(supports_left(p, around(h, j - 1), around(h, (j - 1) + 1)));
                assert(supports_left(p, around(h, a), around(h, a + 1)));
                assert forall|q: int| 0 <= q < p.len() implies #[trigger] cross2(
                    vx,
                    vy,
                    rel_x(p, aa, q),
                    rel_y(p, aa, q),
                ) == 0 by {
                    assert(cross(p, c, d, q) >= 0);
                    assert(cross(p, aa, around(h, a + 1), q) >= 0);
                    lemma_opposite_ray_cross_sign(vx, vy, fx, fy, rel_x(p, c, q), rel_y(p, c, q));
                    assert(cross2(vx, vy, rel_x(p, aa, c), rel_y(p, aa, c)) == 0);
                    assert(cross2(vx, vy, rel_x(p, aa, q), rel_y(p, aa, q)) == cross2(vx, vy, rel_x(p, c, q), rel_y(p, c, q))
                        + cross2(vx, vy, rel_x(p, aa, c), rel_y(p, aa, c))) by (nonlinear_arith)
                        requires
                            rel_x(p, aa, q) == rel_x(p, c, q) + rel_x(p, aa, c),
                            rel_y(p, aa, q) == rel_y(p, c, q) + rel_y(p, aa, c),
                    ;
                }
            }
        }
    }
}

/// A run of a polygon that goes straight on at each inner vertex, with
/// supporting edges between distinct points, can be replaced by the single
/// edge from its first to its last point, which also supports.
proof fn lemma_straight_run(p: Seq<Vec<u32>>, h: Seq<usize>, a: int, b: int)
    requires
        forall|k: int| 0 <= k < h.len() ==> #[trigger] h[k] < p.len(),
        0 <= a < h.len(),
        a < b <= a + h.len(),
        forall|k: int| a <= k < b ==> #[trigger] supports_left(p, around(h, k), around(h, k + 1)),
        forall|k: int| a <= k < b ==> !#[trigger] same_point_2d(p, around(h, k), around(h, k + 1)),
        forall|k: int| a < k < b ==> #[trigger] cross(p, around(h, k - 1), around(h, k), around(h, k + 1)) == 0,
    ensures
        supports_left(p, around(h, a), around(h, b)),
{
    lemma_straight_run_state(p, h, a, b);
    let aa = around(h, a);
    let vx = rel_x(p, aa, around(h, a + 1));
    let vy = rel_y(p, aa, around(h, a + 1));
    let (wx, wy) = (rel_x(p, aa, around(h, b)), rel_y(p, aa, around(h, b)));
    assert(supports_left(p, around(h, a), around(h, a + 1)));
    assert(!same_point_2d(p, around(h, a), around(h, a + 1)));
    assert forall|q: int| 0 <= q < p.len() implies #[trigger] cross(p, aa, around(h, b), q) >= 0 by {
        assert(cross(p, aa, around(h, a + 1), q) >= 0);
        if all_on_line(p, aa, vx, vy) {
            assert(around(h, b) < p.len());
            assert(cross2(vx, vy, wx, wy) == 0);
            assert(cross2(vx, vy, rel_x(p, aa, q), rel_y(p, aa, q)) == 0);
            lemma_both_parallel(vx, vy, wx, wy, rel_x(p, aa, q), rel_y(p, aa, q));
        } else {
            lemma_same_ray_cross_sign(vx, vy, wx, wy, rel_x(p, aa, q), rel_y(p, aa, q));
        }
    }
}

/// Point `x` comes first when ordered by coordinates and then by index.
pub open spec fn is_xy_first(p: Seq<Vec<u32>>, x: int) -> bool {
    &&& 0 <= x < p.len()
    &&& forall|j: int| 0 <= j < p.len() && j != x ==> #[trigger] xy_before(p, x, j)
}

/// Point `x` comes last when ordered by coordinates and then by index.
pub open spec fn is_xy_last(p: Seq<Vec<u32>>, x: int) -> bool {
    &&& 0 <= x < p.len()
    &&& forall|j: int| 0 <= j < p.len() && j != x ==> #[trigger] xy_before(p, j, x)
}

/// In a polygon of more than three points whose edges all support a point
/// set that is not on one line, the boundary does not go straight on at a
/// point that sees every point in one half-plane.
proof fn lemma_extreme_not_straight(
    p: Seq<Vec<u32>>,
    h: Seq<usize>,
    z: int,
    dx: int,
    dy: int,
    a: int,
    b: int,
    c: int,
)
    requires
        forall|k: int| 0 <= k < h.len() ==> #[trigger] h[k] < p.len(),
        h.len() > 3,
        polygon_supports(p, h),
        polygon_distinct(p, h),
        0 <= z < h.len(),
        dx != 0 || dy != 0,
        forall|q: int| 0 <= q < p.len() ==> #[trigger] in_half(dx, dy, rel_x(p, h[z] as int, q), rel_y(p, h[z] as int, q)),
        0 <= a < p.len(),
        0 <= b < p.len(),
        0 <= c < p.len(),
        cross(p, a, b, c) != 0,
    ensures
        !straight_at(p, h, z),
{
    let n = h.len() as int;
    let m = h[z] as int;
    let kp = if z == 0 { n - 1 } else { z - 1 };
    let prev = around(h, kp);
    assert(around(h, kp + 1) == m);
    let next = around(h, z + 1);
    assert(next == (if z + 1 == n { h[0] } else { h[z + 1] }) as int);
    assert(prev == (if z == 0 { h[n - 1] } else { h[z - 1] }) as int);
    if straight_at(p, h, z) {
        assert(supports_left(p, around(h, kp), around(h, kp + 1)));
        assert(supports_left(p, around(h, z), around(h, z + 1)));
        assert(!same_point_2d(p, around(h, kp), around(h, kp + 1)));
        assert(!same_point_2d(p, around(h, z), around(h, z + 1)));
        let (ax, ay) = (rel_x(p, m, prev), rel_y(p, m, prev));
        let (bx, by) = (rel_x(p, m, next), rel_y(p, m, next));
        assert(in_half(dx, dy, ax, ay));
        assert(in_half(dx, dy, bx, by));
        assert(cross(p, prev, m, next) == -cross2(ax, ay, bx, by)) by (nonlinear_arith)
            requires
                cross(p, prev, m, next) == cross2(-ax, -ay, bx - ax, by - ay),
        ;
        lemma_same_ray(dx, dy, ax, ay, bx, by);
        assert(same_ray(ax, ay, bx, by));
        assert(same_ray(bx, by, ax, ay)) by {
            lemma_flip(ax, ay, bx, by);
        }
        assert forall|q: int| 0 <= q < p.len() implies #[trigger] cross2(ax, ay, rel_x(p, m, q), rel_y(p, m, q)) == 0 by {
            let (wx, wy) = (rel_x(p, m, q), rel_y(p, m, q));
            assert(cross(p, prev, m, q) >= 0);
            assert(cross(p, m, next, q) >= 0);
            assert(cross(p, prev, m, q) == -cross2(ax, ay, wx, wy)) by (nonlinear_arith)
                requires
                    cross(p, prev, m, q) == cross2(-ax, -ay, wx - ax, wy - ay),
            ;
            lemma_same_ray_cross_sign(bx, by, ax, ay, wx, wy);
        }
        assert(!(ax == 0 && ay == 0));
        let (ux, uy) = (rel_x(p, a, b), rel_y(p, a, b));
        let (vx, vy) = (rel_x(p, a, c), rel_y(p, a, c));
        assert(cross2(ax, ay, rel_x(p, m, a), rel_y(p, m, a)) == 0);
        assert(cross2(ax, ay, rel_x(p, m, b), rel_y(p, m, b)) == 0);
        assert(cross2(ax, ay, rel_x(p, m, c), rel_y(p, m, c)) == 0);
        assert(cross2(ax, ay, ux, uy) == cross2(ax, ay, rel_x(p, m, b), rel_y(p, m, b)) - cross2(ax, ay, rel_x(p, m, a), rel_y(p, m, a))) by (nonlinear_arith)
            requires
                ux == rel_x(p, m, b) - rel_x(p, m, a),
                uy == rel_y(p, m, b) - rel_y(p, m, a),
        ;
        assert(cross2(ax, ay, vx, vy) == cross2(ax, ay, rel_x(p, m, c), rel_y(p, m, c)) - cross2(ax, ay, rel_x(p, m, a), rel_y(p, m, a))) by (nonlinear_arith)
            requires
                vx == rel_x(p, m, c) - rel_x(p, m, a),
                vy == rel_y(p, m, c) - rel_y(p, m, a),
        ;
        lemma_both_parallel(ax, ay, ux, uy, vx, vy);
        assert(cross(p, a, b, c) == cross2(ux, uy, vx, vy));
    }
}

/// Andrew's monotone chain for the planar convex hull, followed by the
/// removal of hull points where the boundary goes straight on.
fn convex_hull_2d(p: &[Vec<u32>]) -> (hull: Vec<usize>)
    requires
        dims_at_least(p@, 2),
    ensures
        p.len() < 2 ==> hull@ == identity_perm(p.len() as nat),
        forall|k: int| 0 <= k < hull.len() ==> #[trigger] hull[k] < p.len(),
        polygon_supports(p@, hull@),
        hull@.no_duplicates(),
        hull.len() >= 3 ==> forall|j: int| 0 <= j < hull.len() ==> #[trigger] turns_left_at(p@, hull@, j),
        p.len() >= 2 ==> hull.len() >= 2 && is_xy_first(p@, hull[0] as int) && exists|k: int|
            0 <= k < hull.len() && #[trigger] is_xy_last(p@, hull[k] as int),
{
    let n = p.len();
    if n < 2 {
        let mut h: Vec<usize> = Vec::new();
        if n == 1 {
            h.push(0);
        }
        assert(h@ =~= identity_perm(n as nat));
        return h;
    }
    let indices = sort_by_coordinates(p);
    proof {
        crate::permutation::lemma_perm_entries_below(indices@, n as nat);
        vstd::seq_lib::to_multiset_len(indices@);
        vstd::seq_lib::to_multiset_len(identity_perm(n as nat));
        lemma_sorted_monotone(p@, indices@);
        crate::permutation::lemma_perm_no_duplicates(indices@, n as nat);
    }
    let mut hull: Vec<usize> = Vec::new();
    // lower hull
    chain_pass(p, &indices, false, &mut hull, 0, Ghost(0), Ghost(-1));
    let ghost h1 = hull@;
    // upper hull
    let lower_base = hull.len();
    chain_pass(p, &indices, true, &mut hull, lower_base - 1, Ghost(0), Ghost(1));
    proof {
        lemma_two_chains(p@, indices@, h1, hull@);
    }
    let ghost h2 = hull@;
    proof {
        lemma_hull_turns(p@, indices@, h1, h2);
    }
    hull.pop();
    proof {
        assert(hull@ == h2.take(h2.len() - 1));
        if hull.len() >= 3 {
            assert forall|z: int| 0 <= z < hull.len() implies !#[trigger] straight_at(p@, hull@, z) by {
                assert(turns_left_at(p@, hull@, z));
            }
        }
    }
    let r = remove_collinear(&hull, p);
    proof {
        lemma_hull_extremes(p@, indices@, hull@, r@, (lower_base - 1) as int);
    }
    r
}

/// A pass over an arrangement of all points sees every point.
proof fn lemma_pass_sees(indices: Seq<usize>, backward: bool, q: int) -> (s: int)
    requires
        is_perm(indices, indices.len()),
        indices.len() <= usize::MAX,
        0 <= q < indices.len(),
    ensures
        0 <= s < indices.len(),
        pass_order(indices, backward)[s] == q,
{
    let n = indices.len();
    crate::permutation::lemma_inverse_perm(indices, n);
    crate::permutation::lemma_perm_entries_below(crate::permutation::inverse_perm(indices), n);
    let j = crate::permutation::inverse_perm(indices)[q] as int;
    assert(indices[j] == q);
    if backward {
        n - 1 - j
    } else {
        j
    }
}

/// The two monotone chains, the second closing back onto the first, form a
/// polygon whose edges all support the points, and whose neighbours are
/// distinct when it has more than three points.
proof fn lemma_two_chains(p: Seq<Vec<u32>>, indices: Seq<usize>, h1: Seq<usize>, h2: Seq<usize>)
    requires
        p.len() >= 2,
        indices.len() == p.len(),
        is_perm(indices, p.len() as nat),
        p.len() <= usize::MAX,
        forall|k: int| 0 <= k < h2.len() ==> #[trigger] h2[k] < p.len(),
        h1.len() >= 1,
        h1[0] == indices[0],
        h1[h1.len() - 1] == indices[p.len() - 1],
        chain_state(p, h1, 0, pass_order(indices, false), p.len() as int),
        h2.len() >= h1.len(),
        forall|k: int| 0 <= k < h1.len() - 1 ==> h2[k] == h1[k],
        h2[h1.len() - 1] == indices[p.len() - 1],
        h2[h2.len() - 1] == indices[0],
        chain_state(p, h2, h1.len() - 1, pass_order(indices, true), p.len() as int),
        forall|k: int, l: int| 0 <= k < l < h1.len() ==> h1[k] != h1[l],
        forall|k: int| 0 < k < h1.len() - 1 ==> #[trigger] h1[k] != indices[0] && h1[k] != indices[p.len() - 1],
        forall|k: int, l: int|
            0 <= k <= l < h1.len() ==> #[trigger] in_half(0, -1, rel_x(p, h1[k] as int, h1[l] as int), rel_y(p, h1[k] as int, h1[l] as int)),
        forall|k: int, l: int| h1.len() - 1 <= k < l < h2.len() ==> h2[k] != h2[l],
        forall|k: int| h1.len() - 1 < k < h2.len() - 1 ==> #[trigger] h2[k] != indices[p.len() - 1] && h2[k] != indices[0],
        forall|k: int, l: int|
            h1.len() - 1 <= k <= l < h2.len() ==> #[trigger] in_half(0, 1, rel_x(p, h2[k] as int, h2[l] as int), rel_y(p, h2[k] as int, h2[l] as int)),
    ensures
        h2.take(h2.len() - 1).no_duplicates(),
        h2.len() >= 2,
        h1.len() >= 2,
        h2.len() >= h1.len() + 1,
        h2[0] == indices[0],
        polygon_supports(p, h2.take(h2.len() - 1)),
        h2.len() - 1 > 3 ==> polygon_distinct(p, h2.take(h2.len() - 1)),
        h2.len() - 1 > 3 ==> exists|a: int, b: int, c: int|
            0 <= a < p.len() && 0 <= b < p.len() && 0 <= c < p.len() && #[trigger] cross(p, a, b, c) != 0,
{
    let n = p.len() as int;
    let l = h1.len() as int;
    let m = h2.len() as int;
    let hh = h2.take(m - 1);
    let ordf = pass_order(indices, false);
    let ordb = pass_order(indices, true);
    crate::permutation::lemma_perm_no_duplicates(indices, n as nat);
    assert(indices[0] != indices[n - 1]);
    assert(l >= 2);
    assert(m >= l + 1);
    assert(h2[0] == h1[0]);
    // every edge of the second sequence supports the points
    assert forall|k: int| 0 <= k < m - 1 implies #[trigger] supports_left(p, h2[k] as int, h2[k + 1] as int) by {
        if k < l - 1 {
            assert(h2[k] == h1[k]);
            assert(h2[k + 1] == h1[k + 1]);
            assert(left_of_prefix(p, h1[k] as int, h1[k + 1] as int, ordf, n));
            assert forall|q: int| 0 <= q < p.len() implies #[trigger] cross(p, h2[k] as int, h2[k + 1] as int, q) >= 0 by {
                let s = lemma_pass_sees(indices, false, q);
                assert(cross(p, h1[k] as int, h1[k + 1] as int, ordf[s] as int) >= 0);
            }
        } else {
            assert(left_of_prefix(p, h2[k] as int, h2[k + 1] as int, ordb, n));
            assert forall|q: int| 0 <= q < p.len() implies #[trigger] cross(p, h2[k] as int, h2[k + 1] as int, q) >= 0 by {
                let s = lemma_pass_sees(indices, true, q);
                assert(cross(p, h2[k] as int, h2[k + 1] as int, ordb[s] as int) >= 0);
            }
        }
    }
    assert forall|k: int| 0 <= k < hh.len() implies #[trigger] supports_left(p, around(hh, k), around(hh, k + 1)) by {
        assert(supports_left(p, h2[k] as int, h2[k + 1] as int));
        if k + 1 == hh.len() {
            assert(around(hh, k + 1) == h2[0] as int);
            assert(h2[k + 1] == indices[0]);
        }
    }
    if m - 1 > 3 {
        if l >= 3 {
            let z: int = 0;
            assert(cross(p, h1[z] as int, h1[z + 1] as int, h1[z + 2] as int) > 0);
            assert(cross(p, h1[0] as int, h1[1] as int, h1[2] as int) != 0);
        } else {
            let z = l - 1;
            assert(cross(p, h2[z] as int, h2[z + 1] as int, h2[z + 2] as int) > 0);
        }
        assert forall|k: int| 0 <= k < hh.len() implies !#[trigger] same_point_2d(p, around(hh, k), around(hh, k + 1)) by {
            let a = h2[k] as int;
            let b = h2[k + 1] as int;
            assert(around(hh, k) == a);
            assert(around(hh, k + 1) == b) by {
                if k + 1 == hh.len() {
                    assert(h2[k + 1] == indices[0]);
                }
            }
            if same_point_2d(p, a, b) {
                if k < l - 1 {
                    assert(h2[k] == h1[k] && h2[k + 1] == h1[k + 1]);
                    assert(same_point_2d(p, h1[k] as int, h1[k + 1] as int));
                    assert(l == 2);
                    // then every point coincides, and the upper stack has two points
                    let c = h1[0] as int;
                    assert forall|q: int| 0 <= q < p.len() implies #[trigger] same_point_2d(p, q, c) by {
                        let s = lemma_pass_sees(indices, false, q);
                        assert(same_point_2d(p, ordf[s] as int, h1[0] as int));
                    }
                    let k0 = l - 1;
                    assert(same_point_2d(p, h2[k0] as int, h2[k0 + 1] as int)) by {
                        assert(same_point_2d(p, h2[k0] as int, c));
                        assert(same_point_2d(p, h2[k0 + 1] as int, c));
                    }
                    assert(m == l + 1);
                    assert(false);
                } else {
                    assert(same_point_2d(p, h2[k] as int, h2[k + 1] as int));
                    assert(m == l + 1);
                    let c = h2[l - 1] as int;
                    assert forall|q: int| 0 <= q < p.len() implies #[trigger] same_point_2d(p, q, c) by {
                        let s = lemma_pass_sees(indices, true, q);
                        assert(same_point_2d(p, ordb[s] as int, h2[l - 1] as int));
                    }
                    if l >= 3 {
                        let z: int = 0;
                        assert(same_point_2d(p, h1[z] as int, h1[z + 1] as int)) by {
                            assert(same_point_2d(p, h1[z] as int, c));
                            assert(same_point_2d(p, h1[z + 1] as int, c));
                        }
                        assert(h1.len() == 2);
                    }
                    assert(false);
                }
            }
        }
    }
    assert forall|x: int, y: int| 0 <= x < hh.len() && 0 <= y < hh.len() && x != y implies hh[x] != hh[y] by {
        let (a, b) = if x < y { (x, y) } else { (y, x) };
        assert(hh[a] == h2[a] && hh[b] == h2[b]);
        if b <= l - 1 {
            assert(h2[a] == h1[a]);
            assert(h2[b] == h1[b]);
        } else if a >= l - 1 {
        } else if a == 0 {
            assert(h2[a] == h1[a]);
            assert(h2[b] != indices[0]);
        } else {
            // a point inside the lower chain is not inside the upper one
            assert(h2[a] == h1[a]);
            if h1[a] == h2[b] {
                let lp = h1[a - 1] as int;
                let v = h1[a] as int;
                let rp = h1[a + 1] as int;
                let up = h2[b - 1] as int;
                assert(h2[a - 1] == h1[a - 1] && h2[a + 1] == h1[a + 1]);
                assert(supports_left(p, h2[a] as int, h2[a + 1] as int));
                let kb = b - 1;
                assert(supports_left(p, h2[kb] as int, h2[kb + 1] as int));
                assert(cross(p, v, rp, up) >= 0);
                assert(cross(p, up, v, lp) >= 0);
                let z = a - 1;
                assert(cross(p, h1[z] as int, h1[z + 1] as int, h1[z + 2] as int) > 0);
                assert(in_half(0, -1, rel_x(p, h1[a - 1] as int, h1[a] as int), rel_y(p, h1[a - 1] as int, h1[a] as int)));
                assert(in_half(0, -1, rel_x(p, h1[a] as int, h1[a + 1] as int), rel_y(p, h1[a] as int, h1[a + 1] as int)));
                assert(in_half(0, 1, rel_x(p, h2[b - 1] as int, h2[b] as int), rel_y(p, h2[b - 1] as int, h2[b] as int)));
                lemma_half_plane_mirror(rel_x(p, up, v), rel_y(p, up, v));
                assert(in_half(0, -1, rel_x(p, v, up), rel_y(p, v, up)));
                let k1 = b - 1;
                assert(!same_point_2d(p, h2[k1] as int, h2[k1 + 1] as int)) by {
                    if same_point_2d(p, h2[k1] as int, h2[k1 + 1] as int) {
                        assert(m == l + 1);
                    }
                }
                lemma_no_shared_turn(
                    0,
                    -1,
                    coord(p, lp, 0),
                    coord(p, lp, 1),
                    coord(p, v, 0),
                    coord(p, v, 1),
                    coord(p, rp, 0),
                    coord(p, rp, 1),
                    coord(p, up, 0),
                    coord(p, up, 1),
                );
            }
        }
    }
}

/// The polygon of the two chains turns strictly left at every point, when it
/// has at least three.
proof fn lemma_hull_turns(p: Seq<Vec<u32>>, indices: Seq<usize>, h1: Seq<usize>, h2: Seq<usize>)
    requires
        p.len() >= 2,
        indices.len() == p.len(),
        p.len() <= usize::MAX,
        is_perm(indices, p.len() as nat),
        monotone_along(p, pass_order(indices, false), 0, -1),
        monotone_along(p, pass_order(indices, true), 0, 1),
        forall|k: int| 0 <= k < h2.len() ==> #[trigger] h2[k] < p.len(),
        h1.len() >= 2,
        h2.len() >= h1.len() + 1,
        forall|k: int| 0 <= k < h1.len() - 1 ==> h2[k] == h1[k],
        h2[0] == indices[0],
        h1[h1.len() - 1] == indices[p.len() - 1],
        h2[h1.len() - 1] == indices[p.len() - 1],
        h2[h2.len() - 1] == indices[0],
        chain_state(p, h1, 0, pass_order(indices, false), p.len() as int),
        chain_state(p, h2, h1.len() - 1, pass_order(indices, true), p.len() as int),
        polygon_supports(p, h2.take(h2.len() - 1)),
        h2.len() - 1 > 3 ==> polygon_distinct(p, h2.take(h2.len() - 1)),
        h2.len() - 1 > 3 ==> exists|a: int, b: int, c: int|
            0 <= a < p.len() && 0 <= b < p.len() && 0 <= c < p.len() && #[trigger] cross(p, a, b, c) != 0,
    ensures
        h2.len() - 1 >= 3 ==> forall|j: int| 0 <= j < h2.len() - 1 ==> #[trigger] turns_left_at(p, h2.take(h2.len() - 1), j),
{
    let hh = h2.take(h2.len() - 1);
    let n = hh.len() as int;
    let l = h1.len() as int;
    let m = h2.len() as int;
    if n >= 3 {
        // interior points of both chains turn strictly left
        assert forall|j: int| 0 < j < n && j != l - 1 implies #[trigger] turns_left_at(p, hh, j) by {
            let k = j - 1;
            if j < l - 1 {
                assert(cross(p, h1[k] as int, h1[k + 1] as int, h1[k + 2] as int) > 0);
                assert(h2[k] == h1[k] && h2[k + 1] == h1[k + 1]);
                assert(h1[k + 2] == h2[k + 2]) by {
                    if k + 2 < l - 1 {
                        assert(h2[k + 2] == h1[k + 2]);
                    }
                }
            } else {
                assert(cross(p, h2[k] as int, h2[k + 1] as int, h2[k + 2] as int) > 0);
                if j + 1 == n {
                    assert(hh[0] == h2[m - 1]);
                }
            }
        }
        // the two ends of the chains
        assert forall|j: int| (j == 0 || j == l - 1) implies #[trigger] turns_left_at(p, hh, j) by {
            let kp = if j == 0 { n - 1 } else { j - 1 };
            let prev = around(hh, kp);
            let next = around(hh, j + 1);
            assert(around(hh, kp + 1) == hh[j] as int);
            assert(prev == (if j == 0 { hh[n - 1] } else { hh[j - 1] }) as int);
            assert(next == (if j + 1 == n { hh[0] } else { hh[j + 1] }) as int);
            assert(supports_left(p, around(hh, kp), around(hh, kp + 1)));
            assert(cross(p, prev, hh[j] as int, next) >= 0);
            if n > 3 {
                let (a, b, c) = choose|a: int, b: int, c: int|
                    0 <= a < p.len() && 0 <= b < p.len() && 0 <= c < p.len() && #[trigger] cross(p, a, b, c) != 0;
                let ordf = pass_order(indices, false);
                let ordb = pass_order(indices, true);
                if j == 0 {
                    assert forall|q: int| 0 <= q < p.len() implies #[trigger] in_half(0, -1, rel_x(p, hh[0] as int, q), rel_y(p, hh[0] as int, q)) by {
                        let s = lemma_pass_sees(indices, false, q);
                        assert(in_half(0, -1, rel_x(p, ordf[0] as int, ordf[s] as int), rel_y(p, ordf[0] as int, ordf[s] as int)));
                    }
                    lemma_extreme_not_straight(p, hh, 0, 0, -1, a, b, c);
                } else {
                    assert forall|q: int| 0 <= q < p.len() implies #[trigger] in_half(0, 1, rel_x(p, hh[l - 1] as int, q), rel_y(p, hh[l - 1] as int, q)) by {
                        let s = lemma_pass_sees(indices, true, q);
                        assert(in_half(0, 1, rel_x(p, ordb[0] as int, ordb[s] as int), rel_y(p, ordb[0] as int, ordb[s] as int)));
                    }
                    lemma_extreme_not_straight(p, hh, l - 1, 0, 1, a, b, c);
                }
            } else {
                // a triangle: the turn at one interior point is the turn at
                // every point
                let (x, y, z) = (hh[0] as int, hh[1] as int, hh[2] as int);
                lemma_turn_rotate(p, x, y, z);
                if l - 1 == 1 {
                    assert(turns_left_at(p, hh, 2));
                } else {
                    assert(turns_left_at(p, hh, 1));
                }
            }
        }
    }
}

/// The turn of three points does not depend on which one comes first.
proof fn lemma_turn_rotate(p: Seq<Vec<u32>>, a: int, b: int, c: int)
    ensures
        cross(p, a, b, c) == cross(p, b, c, a),
        cross(p, a, b, c) == cross(p, c, a, b),
{
    let (ax, ay) = (coord(p, a, 0), coord(p, a, 1));
    let (bx, by) = (coord(p, b, 0), coord(p, b, 1));
    let (cx, cy) = (coord(p, c, 0), coord(p, c, 1));
    assert((bx - ax) * (cy - ay) - (by - ay) * (cx - ax) == (cx - bx) * (ay - by) - (cy - by) * (ax - bx)) by (nonlinear_arith);
    assert((bx - ax) * (cy - ay) - (by - ay) * (cx - ax) == (ax - cx) * (by - cy) - (ay - cy) * (bx - cx)) by (nonlinear_arith);
}

/// The polygon keeps the first point by coordinates in front and the last
/// one somewhere.
proof fn lemma_hull_extremes(p: Seq<Vec<u32>>, indices: Seq<usize>, hh: Seq<usize>, r: Seq<usize>, y: int)
    requires
        p.len() >= 2,
        indices.len() == p.len(),
        p.len() <= usize::MAX,
        is_perm(indices, p.len() as nat),
        forall|i: int, j: int| 0 <= i < j < indices.len() ==> xy_before(p, indices[i] as int, indices[j] as int),
        monotone_along(p, pass_order(indices, false), 0, -1),
        monotone_along(p, pass_order(indices, true), 0, 1),
        forall|k: int| 0 <= k < hh.len() ==> #[trigger] hh[k] < p.len(),
        1 <= y < hh.len(),
        hh[0] == indices[0],
        hh[y] == indices[p.len() - 1],
        polygon_supports(p, hh),
        hh.len() > 3 ==> polygon_distinct(p, hh),
        hh.len() > 3 ==> exists|a: int, b: int, c: int|
            0 <= a < p.len() && 0 <= b < p.len() && 0 <= c < p.len() && #[trigger] cross(p, a, b, c) != 0,
        hh.len() <= 3 ==> r == hh,
        forall|z: int| 0 <= z < hh.len() && !#[trigger] straight_at(p, hh, z) ==> r.contains(hh[z]),
        hh.len() > 0 && !straight_at(p, hh, 0) ==> r.len() > 0 && r[0] == hh[0],
    ensures
        r.len() >= 2,
        is_xy_first(p, r[0] as int),
        exists|k: int| 0 <= k < r.len() && #[trigger] is_xy_last(p, r[k] as int),
{
    let n = p.len() as int;
    let first = indices[0] as int;
    let last = indices[n - 1] as int;
    crate::permutation::lemma_perm_entries_below(indices, n as nat);
    crate::permutation::lemma_perm_no_duplicates(indices, n as nat);
    assert(is_xy_first(p, first)) by {
        assert forall|j: int| 0 <= j < p.len() && j != first implies #[trigger] xy_before(p, first, j) by {
            let s = lemma_pass_sees(indices, false, j);
            assert(indices[s] == j);
            assert(s != 0);
        }
    }
    assert(is_xy_last(p, last)) by {
        assert forall|j: int| 0 <= j < p.len() && j != last implies #[trigger] xy_before(p, j, last) by {
            let s = lemma_pass_sees(indices, false, j);
            assert(indices[s] == j);
            assert(s != n - 1);
        }
    }
    if hh.len() > 3 {
        let (a, b, c) = choose|a: int, b: int, c: int|
            0 <= a < p.len() && 0 <= b < p.len() && 0 <= c < p.len() && #[trigger] cross(p, a, b, c) != 0;
        let ordf = pass_order(indices, false);
        let ordb = pass_order(indices, true);
        assert forall|q: int| 0 <= q < p.len() implies #[trigger] in_half(0, -1, rel_x(p, hh[0] as int, q), rel_y(p, hh[0] as int, q)) by {
            let s = lemma_pass_sees(indices, false, q);
            assert(in_half(0, -1, rel_x(p, ordf[0] as int, ordf[s] as int), rel_y(p, ordf[0] as int, ordf[s] as int)));
        }
        assert forall|q: int| 0 <= q < p.len() implies #[trigger] in_half(0, 1, rel_x(p, hh[y] as int, q), rel_y(p, hh[y] as int, q)) by {
            let s = lemma_pass_sees(indices, true, q);
            assert(in_half(0, 1, rel_x(p, ordb[0] as int, ordb[s] as int), rel_y(p, ordb[0] as int, ordb[s] as int)));
        }
        lemma_extreme_not_straight(p, hh, 0, 0, -1, a, b, c);
        lemma_extreme_not_straight(p, hh, y, 0, 1, a, b, c);
        assert(r.contains(hh[y]));
        let k = choose|k: int| 0 <= k < r.len() && r[k] == hh[y];
        assert(is_xy_last(p, r[k] as int));
        assert(r.contains(hh[0]));
        if r.len() < 2 {
            assert(r[0] == hh[0] && r[k] == hh[y]);
            assert(indices[0] != indices[n - 1]);
        }
    } else {
        assert(is_xy_last(p, r[y] as int));
        assert(r.len() >= 2);
    }
}

/// Points sorted by coordinates are monotone downwards-left, and in
/// reverse upwards-right.
proof fn lemma_sorted_monotone(p: Seq<Vec<u32>>, order: Seq<usize>)
    requires
        forall|i: int, j: int| 0 <= i < j < order.len() ==> xy_before(p, order[i] as int, order[j] as int),
    ensures
        monotone_along(p, pass_order(order, false), 0, -1),
        monotone_along(p, pass_order(order, true), 0, 1),
{
    let f = pass_order(order, false);
    let r = pass_order(order, true);
    assert forall|s: int, t: int| 0 <= s <= t < f.len() implies #[trigger] in_half(
        0,
        -1,
        rel_x(p, f[s] as int, f[t] as int),
        rel_y(p, f[s] as int, f[t] as int),
    ) by {
        if s < t {
            assert(xy_before(p, order[s] as int, order[t] as int));
        }
    }
    assert forall|s: int, t: int| 0 <= s <= t < r.len() implies #[trigger] in_half(
        0,
        1,
        rel_x(p, r[s] as int, r[t] as int),
        rel_y(p, r[s] as int, r[t] as int),
    ) by {
        let n = order.len();
        if s < t {
            assert(xy_before(p, order[n - 1 - t] as int, order[n - 1 - s] as int));
        }
    }
}

fn cross_exec_2d(p: &[Vec<u32>], o: usize, a: usize, b: usize) -> (c: i128)
    requires
        o < p.len(),
        a < p.len(),
        b < p.len(),
        p[o as int]@.len() >= 2,
        p[a as int]@.len() >= 2,
        p[b as int]@.len() >= 2,
    ensures
        c == cross(p@, o as int, a as int, b as int),
{
    let ax = p[a][0] as i128 - p[o][0] as i128;
    let ay = p[a][1] as i128 - p[o][1] as i128;
    let bx = p[b][0] as i128 - p[o][0] as i128;
    let by = p[b][1] as i128 - p[o][1] as i128;
    assert(-0x1_0000_0000_0000_0000 < ax * by < 0x1_0000_0000_0000_0000) by (nonlinear_arith)
        requires
            -0x1_0000_0000 < ax < 0x1_0000_0000,
            -0x1_0000_0000 < by < 0x1_0000_0000,
    ;
    assert(-0x1_0000_0000_0000_0000 < ay * bx < 0x1_0000_0000_0000_0000) by (nonlinear_arith)
        requires
            -0x1_0000_0000 < ay < 0x1_0000_0000,
            -0x1_0000_0000 < bx < 0x1_0000_0000,
    ;
    ax * by - ay * bx
}

/// Each edge of the closed polygon `h` supports the point set.
pub open spec fn polygon_supports(p: Seq<Vec<u32>>, h: Seq<usize>) -> bool {
    forall|k: int| 0 <= k < h.len() ==> #[trigger] supports_left(p, around(h, k), around(h, k + 1))
}

/// No two neighbours of the closed polygon `h` coincide.
pub open spec fn polygon_distinct(p: Seq<Vec<u32>>, h: Seq<usize>) -> bool {
    forall|k: int| 0 <= k < h.len() ==> !#[trigger] same_point_2d(p, around(h, k), around(h, k + 1))
}

/// The boundary of the closed polygon `h` goes straight on at position `j`.
pub open spec fn straight_at(p: Seq<Vec<u32>>, h: Seq<usize>, j: int) -> bool {
    let n = h.len() as int;
    cross(p, (if j == 0 { h[n - 1] } else { h[j - 1] }) as int, h[j] as int, (if j + 1 == n { h[0] } else { h[j + 1] }) as int) == 0
}

/// The boundary of the closed polygon `h` turns strictly left at position
/// `j`.
pub open spec fn turns_left_at(p: Seq<Vec<u32>>, h: Seq<usize>, j: int) -> bool {
    let n = h.len() as int;
    cross(p, (if j == 0 { h[n - 1] } else { h[j - 1] }) as int, h[j] as int, (if j + 1 == n { h[0] } else { h[j + 1] }) as int) > 0
}

/// Drop the hull points where the boundary goes straight on (zero cross
/// product with both neighbours), unless fewer than three points would
/// remain.
#[verifier::rlimit(60)]
#[verifier::spinoff_prover]
fn remove_collinear(hull: &Vec<usize>, p: &[Vec<u32>]) -> (r: Vec<usize>)
    requires
        dims_at_least(p@, 2),
        forall|k: int| 0 <= k < hull.len() ==> #[trigger] hull[k] < p.len(),
        polygon_supports(p@, hull@),
        hull.len() > 3 ==> polygon_distinct(p@, hull@),
    ensures
        hull.len() <= 3 ==> r@ == hull@,
        forall|k: int| 0 <= k < r.len() ==> #[trigger] r[k] < p.len(),
        forall|k: int| 0 <= k < r.len() ==> hull@.contains(#[trigger] r[k]),
        polygon_supports(p@, r@),
        forall|z: int| 0 <= z < hull.len() && !#[trigger] straight_at(p@, hull@, z) ==> r@.contains(hull[z]),
        hull.len() > 0 && !straight_at(p@, hull@, 0) ==> r.len() > 0 && r[0] == hull[0],
        hull@.no_duplicates() ==> r@.no_duplicates(),
        (forall|z: int| 0 <= z < hull.len() ==> !#[trigger] straight_at(p@, hull@, z)) ==> r@ == hull@,
{
    if hull.len() <= 3 {
        let c = hull.clone();
        assert(c@ =~= hull@);
        proof {
            assert forall|z: int| 0 <= z < hull.len() && !#[trigger] straight_at(p@, hull@, z) implies c@.contains(hull[z]) by {
                assert(c@[z] == hull[z]);
            }
        }
        return c;
    }
    let n = hull.len();
    let mut result: Vec<usize> = Vec::new();
    let ghost mut kp: Seq<int> = Seq::empty();
    let mut k: usize = 0;
    while k < n
        invariant
            n == hull.len(),
            n > 3,
            dims_at_least(p@, 2),
            forall|k: int| 0 <= k < hull.len() ==> #[trigger] hull[k] < p.len(),
            k <= n,
            forall|j: int| 0 <= j < result.len() ==> #[trigger] result[j] < p.len(),
            forall|j: int| 0 <= j < result.len() ==> hull@.contains(#[trigger] result[j]),
            result.len() == kp.len(),
            forall|x: int| 0 <= x < kp.len() ==> 0 <= #[trigger] kp[x] < k && result[x] == hull[kp[x]],
            forall|x: int, y: int| 0 <= x < y < kp.len() ==> #[trigger] kp[x] < #[trigger] kp[y],
            forall|x: int, j: int| 0 <= x < kp.len() - 1 && #[trigger] kp[x] < j < kp[x + 1] ==> #[trigger] straight_at(p@, hull@, j),
            forall|j: int| 0 <= j < k && (kp.len() == 0 || j < kp[0]) ==> #[trigger] straight_at(p@, hull@, j),
            kp.len() > 0 ==> forall|j: int| kp[kp.len() - 1] < j < k ==> #[trigger] straight_at(p@, hull@, j),
            forall|z: int| 0 <= z < k && !#[trigger] straight_at(p@, hull@, z) ==> result@.contains(hull[z]),
            k > 0 && !straight_at(p@, hull@, 0) ==> result.len() > 0 && result[0] == hull[0],
            (forall|z: int| 0 <= z < k ==> !#[trigger] straight_at(p@, hull@, z)) ==> result@ == hull@.take(k as int),
        decreases n - k,
    {
        let prev = if k == 0 { hull[n - 1] } else { hull[k - 1] };
        let curr = hull[k];
        let next = if k + 1 == n { hull[0] } else { hull[k + 1] };
        assert(p@[prev as int]@.len() >= 2 && p@[curr as int]@.len() >= 2 && p@[next as int]@.len() >= 2);
        let ghost old_kp = kp;
        if cross_exec_2d(p, prev, curr, next) != 0 {
            assert(hull@[k as int] == curr);
            let ghost old_result = result@;
            result.push(curr);
            proof {
                assert forall|z: int| 0 <= z < k + 1 && !#[trigger] straight_at(p@, hull@, z) implies result@.contains(hull[z]) by {
                    if z < k {
                        assert(old_result.contains(hull[z]));
                        let x = choose|x: int| 0 <= x < old_result.len() && old_result[x] == hull[z];
                        assert(result@[x] == hull[z]);
                    } else {
                        assert(result@[result.len() - 1] == hull[z]);
                    }
                }
                if forall|z: int| 0 <= z < k + 1 ==> !#[trigger] straight_at(p@, hull@, z) {
                    assert(forall|z: int| 0 <= z < k ==> !#[trigger] straight_at(p@, hull@, z));
                    assert(result@ =~= hull@.take(k + 1));
                }
                if k == 0 {
                    assert(old_result.len() == 0) by {
                        if kp.len() > 0 {
                            assert(0 <= kp[0] < k);
                        }
                    }
                    assert(result[0] == hull[0]);
                }
                kp = kp.push(k as int);
                assert forall|x: int, j: int| 0 <= x < kp.len() - 1 && #[trigger] kp[x] < j < kp[x + 1] implies #[trigger] straight_at(
                    p@,
                    hull@,
                    j,
                ) by {
                    if x < old_kp.len() - 1 {
                        assert(kp[x] == old_kp[x] && kp[x + 1] == old_kp[x + 1]);
                    } else {
                        assert(kp[x] == old_kp[old_kp.len() - 1]);
                    }
                }
            }
        } else {
            proof {
                assert(straight_at(p@, hull@, k as int));
            }
        }
        k += 1;
    }
    proof {
        if forall|z: int| 0 <= z < hull.len() ==> !#[trigger] straight_at(p@, hull@, z) {
            assert(result@ =~= hull@.take(n as int));
            assert(hull@.take(n as int) =~= hull@);
        }
    }
    if result.len() < 3 {
        let c = hull.clone();
        assert(c@ =~= hull@);
        proof {
            assert forall|z: int| 0 <= z < hull.len() && !#[trigger] straight_at(p@, hull@, z) implies c@.contains(hull[z]) by {
                assert(c@[z] == hull[z]);
            }
        }
        c
    } else {
        proof {
            lemma_kept_polygon_supports(p@, hull@, result@, kp);
            if hull@.no_duplicates() {
                assert forall|x: int, y: int| 0 <= x < result.len() && 0 <= y < result.len() && x != y implies result@[x]
                    != result@[y] by {
                    if x < y {
                        assert(kp[x] < kp[y]);
                    } else {
                        assert(kp[y] < kp[x]);
                    }
                }
            }
        }
        result
    }
}

/// Keeping the polygon points at the positions `kp`, where the boundary goes
/// straight on at every dropped position, keeps every edge supporting.
proof fn lemma_kept_polygon_supports(p: Seq<Vec<u32>>, h: Seq<usize>, r: Seq<usize>, kp: Seq<int>)
    requires
        h.len() > 3,
        forall|k: int| 0 <= k < h.len() ==> #[trigger] h[k] < p.len(),
        polygon_supports(p, h),
        polygon_distinct(p, h),
        r.len() == kp.len(),
        kp.len() >= 1,
        forall|x: int| 0 <= x < kp.len() ==> 0 <= #[trigger] kp[x] < h.len() && r[x] == h[kp[x]],
        forall|x: int, y: int| 0 <= x < y < kp.len() ==> #[trigger] kp[x] < #[trigger] kp[y],
        forall|x: int, j: int| 0 <= x < kp.len() - 1 && #[trigger] kp[x] < j < kp[x + 1] ==> #[trigger] straight_at(p, h, j),
        forall|j: int| 0 <= j < kp[0] ==> #[trigger] straight_at(p, h, j),
        forall|j: int| kp[kp.len() - 1] < j < h.len() ==> #[trigger] straight_at(p, h, j),
    ensures
        polygon_supports(p, r),
{
    let n = h.len() as int;
    // facts about positions going round twice
    assert forall|k: int| 0 <= k < 2 * n - 1 implies #[trigger] supports_left(p, around(h, k), around(h, k + 1)) by {
        if k >= n {
            assert(supports_left(p, around(h, k - n), around(h, k - n + 1)));
        }
    }
    assert forall|k: int| 0 <= k < 2 * n - 1 implies !#[trigger] same_point_2d(p, around(h, k), around(h, k + 1)) by {
        if k >= n {
            assert(!same_point_2d(p, around(h, k - n), around(h, k - n + 1)));
        }
    }
    assert forall|x: int| 0 <= x < r.len() implies #[trigger] supports_left(p, around(r, x), around(r, x + 1)) by {
        let a = kp[x];
        if x < r.len() - 1 {
            let b = kp[x + 1];
            assert(a < b);
            assert forall|k: int| a < k < b implies #[trigger] cross(p, around(h, k - 1), around(h, k), around(h, k + 1)) == 0 by {
                assert(straight_at(p, h, k));
            }
            lemma_straight_run(p, h, a, b);
            assert(around(r, x) == around(h, a) && around(r, x + 1) == around(h, b));
        } else {
            let b = kp[0] + n;
            assert(kp[0] <= a);
            assert forall|k: int| a < k < b implies #[trigger] cross(p, around(h, k - 1), around(h, k), around(h, k + 1)) == 0 by {
                if k < n {
                    assert(straight_at(p, h, k));
                } else {
                    assert(straight_at(p, h, k - n));
                }
            }
            lemma_straight_run(p, h, a, b);
            assert(around(r, x) == around(h, a) && around(r, x + 1) == around(h, b));
        }
    }
}

/// What `convex_hull_indices` returns for the points `p`: the first
/// minimum and maximum on a line; in the plane a counter-clockwise polygon of
/// distinct indices with every point on or left of each edge, turning left at
/// each vertex when it has three or more, from the lowest-leftmost point and
/// through the highest-rightmost; otherwise every index in order.
pub open spec fn is_hull_indices(p: Seq<Vec<u32>>, hull: Seq<usize>) -> bool {
    &&& p[0]@.len() == 1 ==> (hull.len() == 1 && is_first_min_1d(p, hull[0] as int) && is_first_max_1d(p, hull[0] as int))
        || (hull.len() == 2 && hull[0] != hull[1] && is_first_min_1d(p, hull[0] as int) && is_first_max_1d(p, hull[1] as int))
    &&& p[0]@.len() == 2 ==> polygon_supports(p, hull) && hull.no_duplicates()
    &&& p[0]@.len() == 2 && hull.len() >= 3 ==> forall|j: int| 0 <= j < hull.len() ==> #[trigger] turns_left_at(p, hull, j)
    &&& p[0]@.len() == 2 && p.len() >= 2 ==> hull.len() >= 2 && is_xy_first(p, hull[0] as int) && exists|k: int|
        0 <= k < hull.len() && #[trigger] is_xy_last(p, hull[k] as int)
    &&& p[0]@.len() == 0 || p[0]@.len() >= 3 ==> hull == identity_perm(p.len() as nat)
    &&& forall|k: int| 0 <= k < hull.len() ==> #[trigger] hull[k] < p.len()
}

/// The indices of the convex hull vertices of lattice points, read in the
/// dimension of the first point: the two extremes on a line, the
/// counter-clockwise hull in the plane (a closed polygon of distinct points,
/// turning strictly left at each one when it has three or more, each of
/// whose edges has every point on or left of it, starting at the first point
/// by coordinates and passing through the last), and every point otherwise.
pub fn convex_hull_indices(p: &[Vec<u32>]) -> (hull: Vec<usize>)
    requires
        p.len() > 0,
        1 <= p[0]@.len() <= 2 ==> dims_at_least(p@, p[0]@.len()),
    ensures
        p[0]@.len() == 1 ==> (hull.len() == 1 && is_first_min_1d(p@, hull[0] as int) && is_first_max_1d(p@, hull[0] as int))
            || (hull.len() == 2 && hull[0] != hull[1] && is_first_min_1d(p@, hull[0] as int) && is_first_max_1d(p@, hull[1] as int)),
        p[0]@.len() == 2 ==> polygon_supports(p@, hull@) && hull@.no_duplicates(),
        p[0]@.len() == 2 && hull.len() >= 3 ==> forall|j: int| 0 <= j < hull.len() ==> #[trigger] turns_left_at(p@, hull@, j),
        p[0]@.len() == 2 && p.len() >= 2 ==> hull.len() >= 2 && is_xy_first(p@, hull[0] as int) && exists|k: int|
            0 <= k < hull.len() && #[trigger] is_xy_last(p@, hull[k] as int),
        p[0]@.len() == 0 || p[0]@.len() >= 3 ==> hull@ == identity_perm(p.len() as nat),
        forall|k: int| 0 <= k < hull.len() ==> #[trigger] hull[k] < p.len(),
        is_hull_indices(p@, hull@),
{
    let d = p[0].len();
    if d == 1 {
        let mut min_idx: usize = 0;
        let mut max_idx: usize = 0;
        let mut i: usize = 0;
        while i < p.len()
            invariant
                dims_at_least(p@, 1),
                0 < p.len(),
                i <= p.len(),
                min_idx < p.len(),
                max_idx < p.len(),
                forall|k: int| 0 <= k < i ==> coord(p@, min_idx as int, 0) <= #[trigger] coord(p@, k, 0),
                forall|k: int| 0 <= k < min_idx ==> coord(p@, min_idx as int, 0) < #[trigger] coord(p@, k, 0),
                forall|k: int| 0 <= k < i ==> coord(p@, max_idx as int, 0) >= #[trigger] coord(p@, k, 0),
                forall|k: int| 0 <= k < max_idx ==> coord(p@, max_idx as int, 0) > #[trigger] coord(p@, k, 0),
            decreases p.len() - i,
        {
            assert(p@[i as int]@.len() >= 1 && p@[min_idx as int]@.len() >= 1 && p@[max_idx as int]@.len() >= 1);
            if p[i][0] < p[min_idx][0] {
                min_idx = i;
            }
            if p[i][0] > p[max_idx][0] {
                max_idx = i;
            }
            i += 1;
        }
        if min_idx == max_idx {
            vec![min_idx]
        } else {
            vec![min_idx, max_idx]
        }
    } else if d == 2 {
        convex_hull_2d(p)
    } else {
        let mut all: Vec<usize> = Vec::new();
        let mut i: usize = 0;
        while i < p.len()
            invariant
                i <= p.len(),
                all@ == identity_perm(i as nat),
            decreases p.len() - i,
        {
            all.push(i);
            i += 1;
            assert(all@ =~= identity_perm(i as nat));
        }
        all
    }
}

/// The views of a sequence of vectors.
pub open spec fn views(r: Seq<Vec<u32>>) -> Seq<Seq<u32>> {
    r.map_values(|v: Vec<u32>| v@)
}

/// The coordinatewise sums of `p` with each point of `b`, in order.
pub open spec fn sums_with(p: Seq<u32>, b: Seq<Vec<u32>>) -> Seq<Seq<u32>> {
    b.map_values(|q: Vec<u32>| zip_sum(p, q@))
}

/// The coordinatewise sums of every point of `a` with every point of `b`,
/// row by row: first those of `a[0]`, then those of `a[1]`, and so on.
pub open spec fn all_pair_sums(a: Seq<Vec<u32>>, b: Seq<Vec<u32>>) -> Seq<Seq<u32>>
    decreases a.len(),
{
    if a.len() == 0 {
        Seq::empty()
    } else {
        all_pair_sums(a.drop_last(), b) + sums_with(a.last()@, b)
    }
}

/// The entries of `s` in order, each kept at its first occurrence only.
pub open spec fn first_occurrences(s: Seq<Seq<u32>>) -> Seq<Seq<u32>>
    decreases s.len(),
{
    if s.len() == 0 {
        Seq::empty()
    } else {
        let d = first_occurrences(s.drop_last());
        if d.contains(s.last()) {
            d
        } else {
            d.push(s.last())
        }
    }
}

/// Every coordinatewise sum of a point of `a` and a point of `b` fits in a
/// `u32`.
pub open spec fn pair_sums_fit(a: Seq<Vec<u32>>, b: Seq<Vec<u32>>) -> bool {
    forall|i: int, j: int, k: int|
        0 <= i < a.len() && 0 <= j < b.len() && 0 <= k < a[i]@.len() && 0 <= k < b[j]@.len() ==> #[trigger] a[i]@[k]
            + #[trigger] b[j]@[k] <= u32::MAX
}

/// The pair sums are exactly the coordinatewise sums of a point of `a` and a
/// point of `b`.
pub proof fn lemma_all_pair_sums(a: Seq<Vec<u32>>, b: Seq<Vec<u32>>)
    ensures
        forall|x: Seq<u32>| #[trigger] all_pair_sums(a, b).contains(x) <==> exists|i: int, j: int|
            0 <= i < a.len() && 0 <= j < b.len() && x == zip_sum(#[trigger] a[i]@, #[trigger] b[j]@),
    decreases a.len(),
{
    if a.len() > 0 {
        let a1 = a.drop_last();
        lemma_all_pair_sums(a1, b);
        let s1 = all_pair_sums(a1, b);
        let s2 = sums_with(a.last()@, b);
        assert(all_pair_sums(a, b) == s1 + s2);
        assert forall|x: Seq<u32>| #[trigger] all_pair_sums(a, b).contains(x) <==> exists|i: int, j: int|
            0 <= i < a.len() && 0 <= j < b.len() && x == zip_sum(#[trigger] a[i]@, #[trigger] b[j]@) by {
            let s = s1 + s2;
            if s.contains(x) {
                let k = choose|k: int| 0 <= k < s.len() && s[k] == x;
                if k < s1.len() {
                    assert(s1[k] == x);
                    assert(s1.contains(x));
                    let (i, j) = choose|i: int, j: int| 0 <= i < a1.len() && 0 <= j < b.len() && x == zip_sum(#[trigger] a1[i]@, #[trigger] b[j]@);
                    assert(a[i] == a1[i]);
                } else {
                    let j = k - s1.len();
                    assert(s2[j] == x);
                    assert(x == zip_sum(a[a.len() - 1]@, b[j]@));
                }
            }
            if exists|i: int, j: int| 0 <= i < a.len() && 0 <= j < b.len() && x == zip_sum(#[trigger] a[i]@, #[trigger] b[j]@) {
                let (i, j) = choose|i: int, j: int| 0 <= i < a.len() && 0 <= j < b.len() && x == zip_sum(#[trigger] a[i]@, #[trigger] b[j]@);
                if i < a1.len() {
                    assert(a1[i] == a[i]);
                    assert(s1.contains(x));
                    let k = choose|k: int| 0 <= k < s1.len() && s1[k] == x;
                    assert(s[k] == x);
                } else {
                    assert(s2[j] == x);
                    assert(s[s1.len() + j] == x);
                }
            }
        }
    }
}

/// Keeping first occurrences leaves no entry twice and loses no entry.
pub proof fn lemma_first_occurrences(s: Seq<Seq<u32>>)
    ensures
        first_occurrences(s).no_duplicates(),
        forall|x: Seq<u32>| #[trigger] first_occurrences(s).contains(x) <==> s.contains(x),
    decreases s.len(),
{
    if s.len() > 0 {
        lemma_first_occurrences(s.drop_last());
        let d = first_occurrences(s.drop_last());
        assert forall|x: Seq<u32>| #[trigger] first_occurrences(s).contains(x) <==> s.contains(x) by {
            if s.contains(x) && x != s.last() {
                let k = choose|k: int| 0 <= k < s.len() && s[k] == x;
                assert(s.drop_last()[k] == x);
            }
            if s.drop_last().contains(x) {
                let k = choose|k: int| 0 <= k < s.drop_last().len() && s.drop_last()[k] == x;
                assert(s[k] == x);
            }
            if !d.contains(s.last()) && x == s.last() {
                assert(d.push(s.last())[d.len() as int] == x);
            }
            if !d.contains(s.last()) && d.push(s.last()).contains(x) && x != s.last() {
                let k = choose|k: int| 0 <= k < d.push(s.last()).len() && d.push(s.last())[k] == x;
                assert(d[k] == x);
            }
            if !d.contains(s.last()) && d.contains(x) {
                let k = choose|k: int| 0 <= k < d.len() && d[k] == x;
                assert(d.push(s.last())[k] == x);
            }
        }
    }
}

/// The coordinatewise sums of every point of `a` with every point of `b`,
/// each sum kept once, at its first occurrence, in the order `a` then `b`.
pub fn distinct_pairwise_sums(a: &[Vec<u32>], b: &[Vec<u32>]) -> (r: Vec<Vec<u32>>)
    requires
        pair_sums_fit(a@, b@),
    ensures
        views(r@) == first_occurrences(all_pair_sums(a@, b@)),
        views(r@).no_duplicates(),
        forall|x: Seq<u32>| #[trigger] views(r@).contains(x) <==> all_pair_sums(a@, b@).contains(x),
        forall|x: Seq<u32>| #[trigger] views(r@).contains(x) <==> exists|i: int, j: int|
            0 <= i < a.len() && 0 <= j < b.len() && x == zip_sum(#[trigger] a@[i]@, #[trigger] b@[j]@),
{
    proof {
        lemma_all_pair_sums(a@, b@);
    }
    let mut r: Vec<Vec<u32>> = Vec::new();
    let mut i: usize = 0;
    assert(a@.take(0) =~= Seq::<Vec<u32>>::empty());
    assert(views(r@) =~= Seq::<Seq<u32>>::empty());
    while i < a.len()
        invariant
            pair_sums_fit(a@, b@),
            i <= a.len(),
            views(r@) == first_occurrences(all_pair_sums(a@.take(i as int), b@)),
        decreases a.len() - i,
    {
        let ghost done = all_pair_sums(a@.take(i as int), b@);
        let mut j: usize = 0;
        assert(sums_with(a[i as int]@, b@).take(0) =~= Seq::<Seq<u32>>::empty());
        assert(done + sums_with(a[i as int]@, b@).take(0) =~= done);
        while j < b.len()
            invariant
                pair_sums_fit(a@, b@),
                i < a.len(),
                j <= b.len(),
                done == all_pair_sums(a@.take(i as int), b@),
                views(r@) == first_occurrences(done + sums_with(a[i as int]@, b@).take(j as int)),
            decreases b.len() - j,
        {
            let ghost before = done + sums_with(a[i as int]@, b@).take(j as int);
            let sum = crate::newton_polytope::zip_sum_exec(&a[i], &b[j]);
            let mut found = false;
            let mut x: usize = 0;
            while x < r.len() && !found
                invariant
                    x <= r.len(),
                    found ==> views(r@).contains(sum@),
                    !found ==> forall|y: int| 0 <= y < x ==> r[y]@ != sum@,
                decreases r.len() - x + if found { 0int } else { 1int },
            {
                if vec_eq(&r[x], &sum) {
                    assert(views(r@)[x as int] == sum@);
                    found = true;
                } else {
                    x += 1;
                }
            }
            let ghost after = done + sums_with(a[i as int]@, b@).take(j + 1);
            assert(after =~= before.push(sum@));
            assert(after.drop_last() =~= before);
            if !found {
                assert(!views(r@).contains(sum@)) by {
                    if views(r@).contains(sum@) {
                        let y = choose|y: int| 0 <= y < views(r@).len() && views(r@)[y] == sum@;
                        assert(r[y]@ == sum@);
                    }
                }
                let ghost old_views = views(r@);
                r.push(sum);
                assert(views(r@) =~= old_views.push(sum@));
            }
            j += 1;
        }
        proof {
            let t = a@.take(i + 1);
            assert(t.drop_last() =~= a@.take(i as int));
            assert(sums_with(a[i as int]@, b@).take(b.len() as int) =~= sums_with(a[i as int]@, b@));
        }
        i += 1;
    }
    assert(a@.take(a.len() as int) =~= a@);
    proof {
        lemma_first_occurrences(all_pair_sums(a@, b@));
    }
    r
}

fn vec_eq(x: &Vec<u32>, y: &Vec<u32>) -> (r: bool)
    ensures
        r == (x@ == y@),
{
    if x.len() != y.len() {
        return false;
    }
    let mut k: usize = 0;
    while k < x.len()
        invariant
            x.len() == y.len(),
            k <= x.len(),
            forall|m: int| 0 <= m < k ==> x@[m] == y@[m],
        decreases x.len() - k,
    {
        if x[k] != y[k] {
            return false;
        }
        k += 1;
    }
    assert(x@ =~= y@);
    true
}

} // verus!
