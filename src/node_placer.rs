use crate::component_functions::Component;
use crate::visualization_support::{bounded, is_isqrt, isqrt, random_between, ClusterRegion};
use rand::rngs::StdRng;
use vstd::arithmetic::div_mod::{lemma_fundamental_div_mod, lemma_mod_pos_bound};
use vstd::prelude::*;

verus! {

/// The half-width of the square from which directions are drawn.
pub const DIRECTION_SCALE: i64 = 1000;

/// How many directions are drawn before the fallback direction is taken.
pub const DIRECTION_ATTEMPTS: u32 = 32;

/// The point lies in the closed disc of the region.
pub open spec fn in_region(p: (i64, i64), region: ClusterRegion) -> bool {
    (p.0 - region.center_x) * (p.0 - region.center_x) + (p.1 - region.center_y) * (p.1
        - region.center_y) <= region.radius * region.radius
}

/// A direction from the disc of directions: not zero, and no longer than
/// `DIRECTION_SCALE`.
pub open spec fn is_direction(dx: int, dy: int) -> bool {
    &&& -DIRECTION_SCALE <= dx <= DIRECTION_SCALE
    &&& -DIRECTION_SCALE <= dy <= DIRECTION_SCALE
    &&& 0 < dx * dx + dy * dy <= DIRECTION_SCALE * DIRECTION_SCALE
}

/// The integer square root of a non-negative `x`.
pub open spec fn root_of(x: int) -> int {
    choose|r: int| is_isqrt(x, r)
}

proof fn lemma_root_of(x: int, r: int)
    requires
        is_isqrt(x, r),
    ensures
        root_of(x) == r,
{
    let s = root_of(x);
    assert(is_isqrt(x, s));
    if s < r {
        assert((s + 1) * (s + 1) <= r * r) by (nonlinear_arith)
            requires
                0 <= s + 1 <= r,
        ;
    }
    if r < s {
        assert((r + 1) * (r + 1) <= s * s) by (nonlinear_arith)
            requires
                0 <= r + 1 <= s,
        ;
    }
}

/// `a` times `num / den`, rounded towards zero.
pub open spec fn scaled(a: int, num: int, den: int) -> int {
    if a < 0 {
        -((num * -a) / den)
    } else {
        (num * a) / den
    }
}

/// The point at distance `rho` from the centre of `region` in the
/// direction `(dx, dy)`, as `point_in_region` computes it.
pub open spec fn placed_point(region: ClusterRegion, rho: int, dx: int, dy: int) -> (int, int) {
    let q = root_of(dx * dx + dy * dy) + 1;
    (region.center_x + scaled(dx, rho, q), region.center_y + scaled(dy, rho, q))
}

/// `a` scaled by `num / den`, rounded towards zero.
fn scale_toward_zero(a: i64, num: u64, den: u64) -> (r: i64)
    requires
        -DIRECTION_SCALE <= a <= DIRECTION_SCALE,
        num <= 0x4_0000_0000,
        den > 0,
    ensures
        r == scaled(a as int, num as int, den as int),
        0 <= r * a,
        den * den * (r * r) <= num * num * (a * a),
        -0x4_0000_0000 * DIRECTION_SCALE <= r <= 0x4_0000_0000 * DIRECTION_SCALE,
{
    let abs: u64 = if a < 0 { (-a) as u64 } else { a as u64 };
    assert(num * abs <= 0x4_0000_0000 * 1000int) by (nonlinear_arith)
        requires
            num <= 0x4_0000_0000int,
            abs <= 1000,
    ;
    let m = num * abs;
    let q = m / den;
    proof {
        lemma_fundamental_div_mod(m as int, den as int);
        lemma_mod_pos_bound(m as int, den as int);
        assert(den * q <= m);
        assert(q <= m) by (nonlinear_arith)
            requires
                den * q <= m,
                den >= 1,
                q >= 0,
        ;
        assert(den * den * (q * q) <= m * m) by (nonlinear_arith)
            requires
                0 <= den * q <= m,
                q >= 0,
                den >= 1,
        ;
        assert(m * m == num * num * (abs * abs)) by (nonlinear_arith)
            requires
                m == num * abs,
        ;
        assert(abs * abs == a * a) by (nonlinear_arith)
            requires
                abs == a || abs == -a,
        ;
    }
    let r = if a < 0 { -(q as i64) } else { q as i64 };
    proof {
        assert(r * r == q * q) by (nonlinear_arith)
            requires
                r == q || r == -q,
        ;
        assert(0 <= r * a) by (nonlinear_arith)
            requires
                (a < 0 && r <= 0) || (a >= 0 && r >= 0),
        ;
    }
    r
}

/// The point at distance `rho` from the centre of `region` in the
/// direction `(dx, dy)`: the direction scaled by `rho` over one more than the
/// integer square root of its squared length, each coordinate rounded
/// towards zero, so that the point stays in the region.
pub fn point_in_region(region: &ClusterRegion, rho: u64, dx: i64, dy: i64) -> (p: (i64, i64))
    requires
        bounded(*region),
        rho <= region.radius,
        -DIRECTION_SCALE <= dx <= DIRECTION_SCALE,
        -DIRECTION_SCALE <= dy <= DIRECTION_SCALE,
    ensures
        (p.0 as int, p.1 as int) == placed_point(*region, rho as int, dx as int, dy as int),
        in_region(p, *region),
{
    assert(0 <= dx * dx <= 1_000_000 && 0 <= dy * dy <= 1_000_000) by (nonlinear_arith)
        requires
            -1000 <= dx <= 1000,
            -1000 <= dy <= 1000,
    ;
    let d2 = (dx * dx + dy * dy) as u128;
    let norm = isqrt(d2);
    proof {
        lemma_root_of(d2 as int, norm as int);
        assert(norm <= 2000) by (nonlinear_arith)
            requires
                norm * norm <= d2,
                d2 <= 2_000_000,
                norm >= 0,
        ;
    }
    let q = norm + 1;
    let ox = scale_toward_zero(dx, rho as u64, q);
    let oy = scale_toward_zero(dy, rho as u64, q);
    proof {
        let (r2, s2, q2) = (rho * rho, ox * ox + oy * oy, q * q);
        assert(q * q * (ox * ox) + q * q * (oy * oy) <= rho * rho * (dx * dx) + rho * rho * (dy * dy));
        assert(q * q * s2 <= r2 * d2) by (nonlinear_arith)
            requires
                q * q * (ox * ox) + q * q * (oy * oy) <= rho * rho * (dx * dx) + rho * rho * (dy * dy),
                s2 == ox * ox + oy * oy,
                r2 == rho * rho,
                d2 == dx * dx + dy * dy,
        ;
        assert(d2 < q2);
        assert(0 <= ox * ox && 0 <= oy * oy) by (nonlinear_arith);
        assert(s2 <= r2) by (nonlinear_arith)
            requires
                q * q * s2 <= r2 * d2,
                d2 < q2,
                q2 == q * q,
                q >= 1,
                r2 >= 0,
                s2 >= 0,
        ;
        assert(r2 <= region.radius * region.radius) by (nonlinear_arith)
            requires
                0 <= rho <= region.radius,
                r2 == rho * rho,
        ;
    }
    (region.center_x + ox, region.center_y + oy)
}

/// A point of `region`: its distance from the centre is drawn uniformly
/// between zero and the radius, and its direction uniformly over a disc of
/// directions by rejection, so that points gather towards the centre; the
/// point is then `point_in_region`. Where every direction drawn is
/// rejected, the direction is `(DIRECTION_SCALE, 0)`.
pub fn place_node(region: &ClusterRegion, rng: &mut StdRng) -> (p: (i64, i64))
    requires
        bounded(*region),
    ensures
        exists|rho: int, dx: int, dy: int|
            0 <= rho <= region.radius && is_direction(dx, dy) && #[trigger] placed_point(*region, rho, dx, dy)
                == (p.0 as int, p.1 as int),
        in_region(p, *region),
{
    let rho = random_between(rng, 0, region.radius as i64 + 1);
    let mut dx: i64 = DIRECTION_SCALE;
    let mut dy: i64 = 0;
    let mut found = false;
    let mut attempts: u32 = 0;
    while !found && attempts < DIRECTION_ATTEMPTS
        invariant
            is_direction(dx as int, dy as int),
            attempts <= DIRECTION_ATTEMPTS,
        decreases DIRECTION_ATTEMPTS - attempts,
    {
        let x = random_between(rng, -DIRECTION_SCALE, DIRECTION_SCALE + 1);
        let y = random_between(rng, -DIRECTION_SCALE, DIRECTION_SCALE + 1);
        assert(0 <= x * x <= 1_000_000 && 0 <= y * y <= 1_000_000) by (nonlinear_arith)
            requires
                -1000 <= x <= 1000,
                -1000 <= y <= 1000,
        ;
        let d2 = x * x + y * y;
        if 0 < d2 && d2 <= DIRECTION_SCALE * DIRECTION_SCALE {
            dx = x;
            dy = y;
            found = true;
        }
        attempts = attempts + 1;
    }
    let p = point_in_region(region, rho as u64, dx, dy);
    proof {
        assert(placed_point(*region, rho as int, dx as int, dy as int) == (p.0 as int, p.1 as int));
    }
    p
}

/// The region given to component `c`, if there is one.
fn region_of(regions: &Vec<ClusterRegion>, c: Component) -> (r: Option<usize>)
    ensures
        match r {
            Some(t) => t < regions@.len() && regions@[t as int].component == c,
            None => forall|t: int| 0 <= t < regions@.len() ==> (#[trigger] regions@[t]).component != c,
        },
{
    let mut t: usize = 0;
    while t < regions.len()
        invariant
            t <= regions@.len(),
            forall|u: int| 0 <= u < t ==> (#[trigger] regions@[u]).component != c,
        decreases regions@.len() - t,
    {
        if regions[t].component == c {
            return Some(t);
        }
        t = t + 1;
    }
    None
}

/// A position for each vertex, inside the region of its component; a
/// vertex without a label, or whose component has no region, gets none.
pub fn place_nodes(
    component: &Vec<Option<Component>>,
    regions: &Vec<ClusterRegion>,
    rng: &mut StdRng,
) -> (r: Vec<Option<(i64, i64)>>)
    requires
        forall|t: int| 0 <= t < regions@.len() ==> bounded(#[trigger] regions@[t]),
    ensures
        r@.len() == component@.len(),
        forall|v: int|
            0 <= v < component@.len() ==> match #[trigger] r@[v] {
                Some(p) => exists|t: int|
                    0 <= t < regions@.len() && component@[v] == Some((#[trigger] regions@[t]).component)
                        && in_region(p, regions@[t]),
                None => component@[v] is None || forall|t: int|
                    0 <= t < regions@.len() ==> Some((#[trigger] regions@[t]).component) != component@[v],
            },
{
    let mut positions: Vec<Option<(i64, i64)>> = Vec::new();
    let mut v: usize = 0;
    while v < component.len()
        invariant
            v <= component@.len(),
            positions@.len() == v,
            forall|t: int| 0 <= t < regions@.len() ==> bounded(#[trigger] regions@[t]),
            forall|w: int|
                0 <= w < v ==> match #[trigger] positions@[w] {
                    Some(p) => exists|t: int|
                        0 <= t < regions@.len() && component@[w] == Some((#[trigger] regions@[t]).component)
                            && in_region(p, regions@[t]),
                    None => component@[w] is None || forall|t: int|
                        0 <= t < regions@.len() ==> Some((#[trigger] regions@[t]).component) != component@[w],
                },
        decreases component@.len() - v,
    {
        let placed = match component[v] {
            Some(c) => match region_of(regions, c) {
                Some(t) => {
                    let p = place_node(&regions[t], rng);
                    proof {
                        assert(regions@[t as int].component == c);
                    }
                    Some(p)
                },
                None => None,
            },
            None => None,
        };
        positions.push(placed);
        proof {
            assert(positions@[v as int] == placed);
        }
        v = v + 1;
    }
    positions
}

} // verus!
