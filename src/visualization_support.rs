use crate::component_functions::{
    components_by_size,
    count_components,
    count_label,
    count_table_of,
    is_size_order,
    labels_below,
    Component,
};
use rand::rngs::StdRng;
use rand::Rng;
use std::collections::HashMap;
use vstd::arithmetic::div_mod::lemma_fundamental_div_mod;
use vstd::prelude::*;

verus! {

/// The smallest radius a region gets, so that small components stay visible.
pub const MIN_RADIUS: u64 = 50;

/// How many centres are tried for one region before it is placed where the
/// last one fell, possibly overlapping others, and flagged.
pub const PLACEMENT_ATTEMPTS: u32 = 200;

/// The seedable generator of the rand crate, carried through opaquely.
#[verifier::external_type_specification]
#[verifier::external_body]
pub struct ExStdRng(StdRng);

/// Relies on rand's `Rng::gen_range` over a half-open range of `i64`: the
/// value drawn lies in `low..high` (it panics on an empty range, which the
/// precondition rules out).
#[verifier::external_body]
pub(crate) fn random_between(rng: &mut StdRng, low: i64, high: i64) -> (r: i64)
    requires
        low < high,
    ensures
        low <= r < high,
{
    rng.gen_range(low..high)
}

/// `r` is the integer square root of `x`.
pub open spec fn is_isqrt(x: int, r: int) -> bool {
    0 <= r && r * r <= x < (r + 1) * (r + 1)
}

/// The integer square root, by bisection.
pub fn isqrt(x: u128) -> (r: u64)
    ensures
        is_isqrt(x as int, r as int),
{
    let mut lo: u128 = 0;
    let mut hi: u128 = 0x1_0000_0000_0000_0000;
    proof {
        assert(x < hi * hi) by (nonlinear_arith)
            requires
                x <= u128::MAX,
                hi == 0x1_0000_0000_0000_0000u128,
        ;
    }
    while hi - lo > 1
        invariant
            lo < hi <= 0x1_0000_0000_0000_0000,
            lo * lo <= x,
            x < hi * hi,
        decreases hi - lo,
    {
        let mid = lo + (hi - lo) / 2;
        assert(mid * mid < 0x1_0000_0000_0000_0000 * 0x1_0000_0000_0000_0000) by (nonlinear_arith)
            requires
                mid < 0x1_0000_0000_0000_0000int,
        ;
        if mid * mid <= x {
            lo = mid;
        } else {
            hi = mid;
        }
    }
    lo as u64
}

/// A circular region of the canvas given to one component. `accepted` is
/// false where no free place was found within the allowed attempts and the
/// region was placed anyway, possibly over others.
#[derive(Debug, Clone, Copy, PartialEq, Eq, Structural)]
pub struct ClusterRegion {
    pub component: Component,
    pub center_x: i64,
    pub center_y: i64,
    pub radius: u64,
    pub accepted: bool,
}

/// Two circles do not overlap: the distance between their centres is at
/// least the sum of their radii.
pub open spec fn separated(a: ClusterRegion, b: ClusterRegion) -> bool {
    (a.center_x - b.center_x) * (a.center_x - b.center_x) + (a.center_y - b.center_y) * (a.center_y
        - b.center_y) >= (a.radius + b.radius) * (a.radius + b.radius)
}

/// The radius of a component that holds `count` of `total` vertices: the
/// square root of its share times `max_radius`, rounded down, and no less
/// than the minimum.
pub open spec fn radius_fits(radius: int, count: int, total: int, max_radius: int) -> bool {
    exists|s: int|
        #[trigger] is_isqrt((count * (max_radius * max_radius)) / total, s) && radius == if s
            < MIN_RADIUS {
            MIN_RADIUS as int
        } else {
            s
        }
}

proof fn lemma_isqrt_bound(x: int, s: int, m: int)
    requires
        is_isqrt(x, s),
        0 <= m,
        x <= m * m,
    ensures
        s <= m,
{
    if s > m {
        assert(s * s > m * m) by (nonlinear_arith)
            requires
                s >= m + 1,
                m >= 0,
        ;
    }
}

/// The radius of a component with `count` of `total` vertices.
fn circle_radius(count: usize, total: usize, max_radius: u32) -> (r: u64)
    requires
        0 < total,
        count <= total,
    ensures
        radius_fits(r as int, count as int, total as int, max_radius as int),
        MIN_RADIUS <= r,
        r <= MIN_RADIUS || r <= max_radius,
{
    assert((max_radius as int) * (max_radius as int) <= 0xffff_ffff * 0xffff_ffffint) by (nonlinear_arith)
        requires
            max_radius <= 0xffff_ffffint,
            max_radius >= 0,
    ;
    let sq = (max_radius as u128) * (max_radius as u128);
    assert((count as int) * (sq as int) <= 0xffff_ffff_ffff_ffff * (0xffff_ffff * 0xffff_ffffint)) by (nonlinear_arith)
        requires
            count <= 0xffff_ffff_ffff_ffffint,
            count >= 0,
            sq <= 0xffff_ffff * 0xffff_ffffint,
            sq >= 0,
    ;
    let x = (count as u128) * sq / (total as u128);
    let s = isqrt(x);
    proof {
        assert(x <= sq) by (nonlinear_arith)
            requires
                x == (count * sq) / (total as int),
                count <= total,
                0 < total,
                0 <= sq,
        ;
        lemma_isqrt_bound(x as int, s as int, max_radius as int);
        assert(is_isqrt((count * (max_radius * max_radius)) / (total as int), s as int));
    }
    if s < MIN_RADIUS {
        MIN_RADIUS
    } else {
        s
    }
}

/// The largest coordinate magnitude the layout works with.
pub const COORD_LIMIT: i64 = 0x1_0000_0000;

/// A region whose numbers stay far from the integer limits.
pub open spec fn bounded(c: ClusterRegion) -> bool {
    &&& -COORD_LIMIT <= c.center_x <= COORD_LIMIT
    &&& -COORD_LIMIT <= c.center_y <= COORD_LIMIT
    &&& c.radius <= 2 * COORD_LIMIT
}

proof fn lemma_separated_symmetric(a: ClusterRegion, b: ClusterRegion)
    requires
        separated(a, b),
    ensures
        separated(b, a),
{
    assert((a.center_x - b.center_x) * (a.center_x - b.center_x) == (b.center_x - a.center_x) * (
    b.center_x - a.center_x)) by (nonlinear_arith);
    assert((a.center_y - b.center_y) * (a.center_y - b.center_y) == (b.center_y - a.center_y) * (
    b.center_y - a.center_y)) by (nonlinear_arith);
}

/// Whether two regions overlap.
fn overlaps(a: &ClusterRegion, b: &ClusterRegion) -> (r: bool)
    requires
        bounded(*a),
        bounded(*b),
    ensures
        r == !separated(*a, *b),
{
    let dx = (a.center_x as i128) - (b.center_x as i128);
    let dy = (a.center_y as i128) - (b.center_y as i128);
    let rs = (a.radius as i128) + (b.radius as i128);
    assert(0 <= dx * dx <= 0x10_0000_0000_0000_0000int) by (nonlinear_arith)
        requires
            -0x4_0000_0000int <= dx <= 0x4_0000_0000int,
    ;
    assert(0 <= dy * dy <= 0x10_0000_0000_0000_0000int) by (nonlinear_arith)
        requires
            -0x4_0000_0000int <= dy <= 0x4_0000_0000int,
    ;
    assert(0 <= rs * rs <= 0x10_0000_0000_0000_0000int) by (nonlinear_arith)
        requires
            0 <= rs <= 0x4_0000_0000int,
    ;
    dx * dx + dy * dy < rs * rs
}

/// Two values less than `c` apart fall in the same or in neighbouring cells
/// of width `c`.
proof fn lemma_close_cells(p: int, q: int, c: int)
    requires
        0 <= p,
        0 <= q,
        0 < c,
        -c < p - q < c,
    ensures
        -1 <= p / c - q / c <= 1,
{
    lemma_fundamental_div_mod(p, c);
    lemma_fundamental_div_mod(q, c);
    vstd::arithmetic::div_mod::lemma_mod_pos_bound(p, c);
    vstd::arithmetic::div_mod::lemma_mod_pos_bound(q, c);
    let (a, b) = (p / c, q / c);
    if a - b >= 2 {
        assert(c * a >= c * b + 2 * c) by (nonlinear_arith)
            requires
                a - b >= 2,
                c > 0,
        ;
    }
    if b - a >= 2 {
        assert(c * b >= c * a + 2 * c) by (nonlinear_arith)
            requires
                b - a >= 2,
                c > 0,
        ;
    }
}

/// Overlapping circles whose radii add up to at most `c` have centres less
/// than `c` apart on each axis.
proof fn lemma_overlap_is_near(a: ClusterRegion, b: ClusterRegion, c: int)
    requires
        !separated(a, b),
        a.radius + b.radius <= c,
    ensures
        -c < a.center_x - b.center_x < c,
        -c < a.center_y - b.center_y < c,
{
    let dx = a.center_x - b.center_x;
    let dy = a.center_y - b.center_y;
    let rs = a.radius + b.radius;
    assert(-c < dx < c && -c < dy < c) by (nonlinear_arith)
        requires
            dx * dx + dy * dy < rs * rs,
            0 <= rs <= c,
    ;
}

/// A spatial hash over the canvas: each placed region is registered under
/// the cell of width `cell` that holds its centre.
struct SpatialGrid {
    x_min: i64,
    y_min: i64,
    cell: i64,
    ncols: u128,
    cells: HashMap<u128, Vec<usize>>,
}

impl SpatialGrid {
    spec fn cell_x(&self, x: int) -> int {
        (x - self.x_min) / (self.cell as int)
    }

    spec fn cell_y(&self, y: int) -> int {
        (y - self.y_min) / (self.cell as int)
    }

    spec fn key(&self, a: int, b: int) -> int {
        b * self.ncols + a
    }

    spec fn key_of(&self, c: ClusterRegion) -> u128 {
        self.key(self.cell_x(c.center_x as int), self.cell_y(c.center_y as int)) as u128
    }

    /// The centre lies in the part of the canvas the grid covers.
    spec fn covers(&self, c: ClusterRegion) -> bool {
        &&& bounded(c)
        &&& self.x_min <= c.center_x <= self.x_min + 2 * COORD_LIMIT
        &&& self.y_min <= c.center_y <= self.y_min + 2 * COORD_LIMIT
    }

    /// Every region of `placed` is registered under its cell, every entry
    /// names a region of `placed`, and any two regions of radius at most
    /// `max_r` fit in one cell.
    spec fn wf(&self, placed: Seq<ClusterRegion>, max_r: int) -> bool {
        &&& 1 <= self.cell <= 4 * COORD_LIMIT
        &&& 2 * max_r <= self.cell
        &&& -COORD_LIMIT <= self.x_min <= COORD_LIMIT
        &&& -COORD_LIMIT <= self.y_min <= COORD_LIMIT
        &&& self.ncols == 2 * COORD_LIMIT + 2
        &&& forall|t: int|
            0 <= t < placed.len() ==> self.covers(#[trigger] placed[t]) && placed[t].radius <= max_r
                && self.cells@.contains_key(self.key_of(placed[t])) && self.cells@[self.key_of(
                placed[t],
            )]@.contains(t as usize)
        &&& forall|k: u128, i: int|
            self.cells@.contains_key(k) && 0 <= i < self.cells@[k]@.len() ==> #[trigger] self.cells@[k]@[i]
                < placed.len()
    }

    fn cell_key(&self, a: u128, b: u128) -> (k: u128)
        requires
            self.ncols == 2 * COORD_LIMIT + 2,
            a <= 2 * COORD_LIMIT + 2,
            b <= 2 * COORD_LIMIT + 2,
        ensures
            k == self.key(a as int, b as int),
    {
        assert(b * self.ncols <= 0x2_0000_0002 * 0x2_0000_0002int) by (nonlinear_arith)
            requires
                0 <= b <= 0x2_0000_0002int,
                self.ncols == 0x2_0000_0002int,
        ;
        b * self.ncols + a
    }

    /// The cell coordinates of a centre the grid covers.
    fn cell_of(&self, c: &ClusterRegion) -> (r: (u128, u128))
        requires
            1 <= self.cell,
            self.covers(*c),
        ensures
            r.0 == self.cell_x(c.center_x as int),
            r.1 == self.cell_y(c.center_y as int),
            r.0 <= 2 * COORD_LIMIT,
            r.1 <= 2 * COORD_LIMIT,
    {
        let px = (c.center_x as i128 - self.x_min as i128) as u128;
        let py = (c.center_y as i128 - self.y_min as i128) as u128;
        let cell = self.cell as u128;
        proof {
            vstd::arithmetic::div_mod::lemma_div_is_ordered_by_denominator(px as int, 1, cell as int);
            vstd::arithmetic::div_mod::lemma_div_is_ordered_by_denominator(py as int, 1, cell as int);
        }
        (px / cell, py / cell)
    }

    /// Whether `cand` overlaps a region of `placed`; only the regions
    /// registered in the cell of its centre and the eight cells around it
    /// are looked at.
    fn collides(&self, placed: &Vec<ClusterRegion>, cand: &ClusterRegion, Ghost(max_r): Ghost<int>) -> (r: bool)
        requires
            self.wf(placed@, max_r),
            self.covers(*cand),
            cand.radius <= max_r,
        ensures
            r == exists|t: int| 0 <= t < placed@.len() && !separated(#[trigger] placed@[t], *cand),
    {
        broadcast use vstd::std_specs::hash::group_hash_axioms;

        let (cx, cy) = self.cell_of(cand);
        let plen = placed.len();
        let mut dy: u128 = 0;
        while dy < 3
            invariant
                self.wf(placed@, max_r),
                plen == placed@.len(),
                self.covers(*cand),
                cand.radius <= max_r,
                cx == self.cell_x(cand.center_x as int),
                cy == self.cell_y(cand.center_y as int),
                cx <= 2 * COORD_LIMIT,
                cy <= 2 * COORD_LIMIT,
                dy <= 3,
                forall|t: int|
                    0 <= t < placed@.len() && cx - 1 <= self.cell_x(placed@[t].center_x as int) <= cx
                        + 1 && cy - 1 <= self.cell_y(placed@[t].center_y as int) < cy - 1 + dy
                        ==> separated(#[trigger] placed@[t], *cand),
            decreases 3 - dy,
        {
            let mut dx: u128 = 0;
            while dx < 3
                invariant
                    self.wf(placed@, max_r),
                    plen == placed@.len(),
                    self.covers(*cand),
                    cand.radius <= max_r,
                    cx == self.cell_x(cand.center_x as int),
                    cy == self.cell_y(cand.center_y as int),
                    cx <= 2 * COORD_LIMIT,
                    cy <= 2 * COORD_LIMIT,
                    dy < 3,
                    dx <= 3,
                    forall|t: int|
                        0 <= t < placed@.len() && cx - 1 <= self.cell_x(placed@[t].center_x as int)
                            <= cx + 1 && cy - 1 <= self.cell_y(placed@[t].center_y as int) < cy - 1
                            + dy ==> separated(#[trigger] placed@[t], *cand),
                    forall|t: int|
                        0 <= t < placed@.len() && cx - 1 <= self.cell_x(placed@[t].center_x as int)
                            < cx - 1 + dx && self.cell_y(placed@[t].center_y as int) == cy - 1 + dy
                            ==> separated(#[trigger] placed@[t], *cand),
                decreases 3 - dx,
            {
                if cx + dx >= 1 && cy + dy >= 1 {
                    let a = cx + dx - 1;
                    let b = cy + dy - 1;
                    let key = self.cell_key(a, b);
                    match self.cells.get(&key) {
                        Some(entries) => {
                            let mut i: usize = 0;
                            while i < entries.len()
                                invariant
                                    self.wf(placed@, max_r),
                                    plen == placed@.len(),
                                    self.covers(*cand),
                                    self.cells@.contains_key(key),
                                    *entries == self.cells@[key],
                                    i <= entries@.len(),
                                    forall|j: int|
                                        0 <= j < i ==> separated(
                                            #[trigger] placed@[entries@[j] as int],
                                            *cand,
                                        ),
                                decreases entries@.len() - i,
                            {
                                let t = entries[i];
                                proof {
                                    assert(entries@[i as int] == self.cells@[key]@[i as int]);
                                    assert(self.cells@[key]@[i as int] < placed@.len());
                                    assert(self.covers(placed@[t as int]));
                                }
                                if overlaps(&placed[t], cand) {
                                    proof {
                                        assert(!separated(placed@[t as int], *cand));
                                    }
                                    return true;
                                }
                                i = i + 1;
                            }
                            proof {
                                assert forall|t: int|
                                    0 <= t < placed@.len() && self.cell_x(placed@[t].center_x as int)
                                        == a && self.cell_y(placed@[t].center_y as int) == b
                                        implies separated(#[trigger] placed@[t], *cand) by {
                                    assert(self.key_of(placed@[t]) == key);
                                    assert(self.cells@[self.key_of(placed@[t])]@.contains(t as usize));
                                    assert(entries@.contains(t as usize));
                                    let j = choose|j: int|
                                        0 <= j < entries@.len() && entries@[j] == t as usize;
                                    assert(separated(placed@[entries@[j] as int], *cand));
                                }
                            }
                        },
                        None => {
                            proof {
                                assert forall|t: int|
                                    0 <= t < placed@.len() && self.cell_x(placed@[t].center_x as int)
                                        == a && self.cell_y(placed@[t].center_y as int) == b
                                        implies separated(#[trigger] placed@[t], *cand) by {
                                    assert(self.key_of(placed@[t]) == key);
                                }
                            }
                        },
                    }
                }
                dx = dx + 1;
            }
            dy = dy + 1;
        }
        proof {
            assert forall|t: int| 0 <= t < placed@.len() implies separated(
                #[trigger] placed@[t],
                *cand,
            ) by {
                let p = placed@[t];
                if !separated(p, *cand) {
                    lemma_overlap_is_near(p, *cand, self.cell as int);
                    lemma_close_cells(
                        p.center_x - self.x_min,
                        cand.center_x - self.x_min,
                        self.cell as int,
                    );
                    lemma_close_cells(
                        p.center_y - self.y_min,
                        cand.center_y - self.y_min,
                        self.cell as int,
                    );
                }
            }
        }
        false
    }
}

impl SpatialGrid {
    /// An empty grid with cells of width `cell` over a canvas whose lower
    /// corner is `(x_min, y_min)`.
    fn new(x_min: i64, y_min: i64, cell: i64, Ghost(max_r): Ghost<int>) -> (g: SpatialGrid)
        requires
            1 <= cell <= 4 * COORD_LIMIT,
            2 * max_r <= cell,
            -COORD_LIMIT <= x_min <= COORD_LIMIT,
            -COORD_LIMIT <= y_min <= COORD_LIMIT,
        ensures
            g.wf(Seq::empty(), max_r),
            g.x_min == x_min,
            g.y_min == y_min,
            g.cell == cell,
    {
        SpatialGrid { x_min, y_min, cell, ncols: 0x2_0000_0002, cells: HashMap::new() }
    }

    /// Registers the last region of `placed` under its cell.
    fn register(&mut self, placed: &Vec<ClusterRegion>, Ghost(max_r): Ghost<int>)
        requires
            placed@.len() > 0,
            old(self).wf(placed@.drop_last(), max_r),
            old(self).covers(placed@.last()),
            placed@.last().radius <= max_r,
        ensures
            final(self).wf(placed@, max_r),
            final(self).x_min == old(self).x_min,
            final(self).y_min == old(self).y_min,
            final(self).cell == old(self).cell,
    {
        broadcast use vstd::std_specs::hash::group_hash_axioms;

        let t = placed.len() - 1;
        let ghost prev = placed@.drop_last();
        let ghost m0 = self.cells@;
        let (a, b) = self.cell_of(&placed[t]);
        let key = self.cell_key(a, b);
        let mut entries = match self.cells.remove(&key) {
            Some(v) => v,
            None => Vec::new(),
        };
        let ghost e0 = entries@;
        entries.push(t);
        self.cells.insert(key, entries);
        proof {
            assert(key == self.key_of(placed@[t as int]));
            assert forall|u: int| 0 <= u < placed@.len() implies self.covers(#[trigger] placed@[u])
                && placed@[u].radius <= max_r && self.cells@.contains_key(self.key_of(placed@[u]))
                && self.cells@[self.key_of(placed@[u])]@.contains(u as usize) by {
                if u < t {
                    assert(placed@[u] == prev[u]);
                    let ku = self.key_of(placed@[u]);
                    assert(m0[ku]@.contains(u as usize));
                    if ku == key {
                        let j = choose|j: int| 0 <= j < m0[ku]@.len() && m0[ku]@[j] == u as usize;
                        assert(self.cells@[ku]@[j] == u as usize);
                    }
                } else {
                    assert(self.cells@[key]@[e0.len() as int] == t);
                }
            }
            assert forall|k: u128, i: int|
                self.cells@.contains_key(k) && 0 <= i < self.cells@[k]@.len() implies #[trigger] self.cells@[k]@[i]
                < placed@.len() by {
                if k == key {
                    if i < e0.len() {
                        assert(m0[key]@[i] < prev.len());
                    }
                } else {
                    assert(m0[k]@[i] < prev.len());
                }
            }
        }
    }
}

/// The radius of the region of a component that holds every vertex: the
/// smaller side of the canvas divided by `biggest_circle`.
pub open spec fn max_radius_of(bounds: (i32, i32, i32, i32), biggest_circle: u32) -> int {
    let w = bounds.1 - bounds.0;
    let h = bounds.3 - bounds.2;
    (if w < h {
        w
    } else {
        h
    }) / (biggest_circle as int)
}

/// The centre lies in the canvas.
pub open spec fn inside(c: ClusterRegion, bounds: (i32, i32, i32, i32)) -> bool {
    bounds.0 <= c.center_x <= bounds.1 && bounds.2 <= c.center_y <= bounds.3
}

/// The components of a layout with their sizes, in the order they were
/// placed.
pub open spec fn placement_order(regions: Seq<ClusterRegion>, counts: Seq<usize>) -> Seq<(Component, usize)> {
    regions.map_values(|c: ClusterRegion| (c.component, counts[c.component as int]))
}

/// Where the cursor goes after a region of radius `r` was placed: right by
/// `r * jx / 100` and down by `r * jy / 100` times `(200 - share) / 100`,
/// where `share` is the square root of the component's share in hundredths,
/// so that smaller components step further down; on an axis where the next
/// region would pass the far edge, back to the low edge plus `wx` (or `wy`).
pub open spec fn cursor_step(
    cursor: (i64, i64),
    r: int,
    share: int,
    bounds: (i32, i32, i32, i32),
    jx: int,
    jy: int,
    wx: int,
    wy: int,
) -> (int, int) {
    let x = cursor.0 + r * jx / 100;
    let y = cursor.1 + r * jy * (200 - share) / 10000;
    (
        if x + r > bounds.1 {
            bounds.0 + wx
        } else {
            x
        },
        if y + r > bounds.3 {
            bounds.2 + wy
        } else {
            y
        },
    )
}

/// Moves the cursor on after a region of radius `r` was placed, with the
/// random factors `jx` and `jy` (in hundredths) and the random offsets
/// `wx` and `wy` of a wrap drawn by the caller; see `cursor_step`.
pub fn advance_cursor(
    cursor: (i64, i64),
    r: u64,
    share: u64,
    bounds: (i32, i32, i32, i32),
    jx: i64,
    jy: i64,
    wx: i64,
    wy: i64,
) -> (next: (i64, i64))
    requires
        bounds.0 < bounds.1,
        bounds.2 < bounds.3,
        bounds.0 <= cursor.0 <= bounds.1 + 100,
        bounds.2 <= cursor.1 <= bounds.3 + 100,
        r <= COORD_LIMIT,
        share <= 100,
        200 <= jx < 400,
        200 <= jy < 300,
        0 <= wx < 100,
        0 <= wy < 100,
    ensures
        (next.0 as int, next.1 as int) == cursor_step(
            cursor,
            r as int,
            share as int,
            bounds,
            jx as int,
            jy as int,
            wx as int,
            wy as int,
        ),
        bounds.0 <= next.0 <= bounds.1 + 100,
        bounds.2 <= next.1 <= bounds.3 + 100,
{
    let (x_min, x_max, y_min, y_max) = (bounds.0 as i64, bounds.1 as i64, bounds.2 as i64, bounds.3 as i64);
    assert(0 <= r * jx <= 0x1_0000_0000 * 400int) by (nonlinear_arith)
        requires
            0 <= r <= 0x1_0000_0000int,
            0 <= jx < 400,
    ;
    assert(0 <= r * jy <= 0x1_0000_0000 * 300int) by (nonlinear_arith)
        requires
            0 <= r <= 0x1_0000_0000int,
            0 <= jy < 300,
    ;
    assert(0 <= (r * jy) * (200 - share) <= 0x1_0000_0000 * 300 * 200int) by (nonlinear_arith)
        requires
            0 <= r * jy <= 0x1_0000_0000 * 300int,
            0 <= 200 - share <= 200,
    ;
    let step_x = (r as i64) * jx / 100;
    let step_y = (r as i64) * jy * (200 - share as i64) / 10000;
    assert(0 <= step_x && 0 <= step_y);
    let mut x = cursor.0 + step_x;
    let mut y = cursor.1 + step_y;
    if x + (r as i64) > x_max {
        x = x_min + wx;
    }
    if y + (r as i64) > y_max {
        y = y_min + wy;
    }
    (x, y)
}

/// Gives each component of the labelling a circular region of the canvas
/// `drawing_bounds` (`x_min, x_max, y_min, y_max`), the largest component
/// first. A component's radius is the square root of its share of the
/// vertices times the smaller side of the canvas divided by
/// `biggest_circle`, and at least `MIN_RADIUS`. Its centre is first
/// proposed at a cursor that moves across the canvas with random steps;
/// while the region would overlap one placed before, the centre is drawn
/// anew, uniformly over the canvas, up to `PLACEMENT_ATTEMPTS` times. The
/// overlap checks go through a spatial hash with cells of width
/// `grid_size`, widened where needed so that two regions can only overlap
/// when their centres lie in the same or in neighbouring cells. A region
/// for which every attempt failed is placed where the last one fell and is
/// not `accepted`. With no vertex there is no region.
pub fn get_graph_dimensions(
    component: &Vec<Option<Component>>,
    num_components: usize,
    drawing_bounds: (i32, i32, i32, i32),
    biggest_circle: u32,
    grid_size: u32,
    rng: &mut StdRng,
) -> (r: Vec<ClusterRegion>)
    requires
        labels_below(component@, num_components as nat),
        drawing_bounds.0 < drawing_bounds.1,
        drawing_bounds.2 < drawing_bounds.3,
        biggest_circle >= 1,
        grid_size >= 1,
    ensures
        component@.len() == 0 ==> r@.len() == 0,
        component@.len() > 0 ==> {
            &&& is_size_order(
                count_table_of(component@, num_components as nat),
                placement_order(r@, count_table_of(component@, num_components as nat)),
            )
            &&& num_components > 0 ==> r@[0].accepted
        },
        forall|t: int|
            0 <= t < r@.len() ==> inside(#[trigger] r@[t], drawing_bounds) && bounded(r@[t]) && radius_fits(
                r@[t].radius as int,
                count_label(component@, r@[t].component as int) as int,
                component@.len() as int,
                max_radius_of(drawing_bounds, biggest_circle),
            ),
        forall|a: int, b: int|
            0 <= a < b < r@.len() && (#[trigger] r@[b]).accepted ==> separated(#[trigger] r@[a], r@[b]),
        forall|a: int, b: int|
            0 <= a < r@.len() && 0 <= b < r@.len() && a != b && (#[trigger] r@[a]).accepted
                && (#[trigger] r@[b]).accepted ==> separated(r@[a], r@[b]),
{
    let mut placed: Vec<ClusterRegion> = Vec::new();
    let total = component.len();
    if total == 0 {
        return placed;
    }
    let (x_min, x_max, y_min, y_max) = (
        drawing_bounds.0 as i64,
        drawing_bounds.1 as i64,
        drawing_bounds.2 as i64,
        drawing_bounds.3 as i64,
    );
    let counts = count_components(component, num_components);
    let order = components_by_size(&counts);
    let ghost table = count_table_of(component@, num_components as nat);
    proof {
        assert(counts@ == table);
    }
    let w = x_max - x_min;
    let h = y_max - y_min;
    let max_radius = ((if w < h {
        w
    } else {
        h
    }) / (biggest_circle as i64)) as u32;
    let largest: u64 = if (max_radius as u64) > MIN_RADIUS {
        max_radius as u64
    } else {
        MIN_RADIUS
    };
    let cell: i64 = if (grid_size as i64) > 2 * (largest as i64) {
        grid_size as i64
    } else {
        2 * (largest as i64)
    };
    let ghost max_r = largest as int;
    let mut grid = SpatialGrid::new(x_min, y_min, cell, Ghost(max_r));
    let mut cursor: (i64, i64) = (x_min, y_min);
    let mut t: usize = 0;
    while t < order.len()
        invariant
            total == component@.len(),
            total > 0,
            counts@ == table,
            table == count_table_of(component@, num_components as nat),
            is_size_order(counts@, order@),
            order@.len() == num_components,
            x_min == drawing_bounds.0,
            x_max == drawing_bounds.1,
            y_min == drawing_bounds.2,
            y_max == drawing_bounds.3,
            x_min < x_max,
            y_min < y_max,
            max_radius == max_radius_of(drawing_bounds, biggest_circle),
            max_r == largest,
            MIN_RADIUS <= largest,
            max_radius <= largest,
            largest <= COORD_LIMIT,
            grid.x_min == x_min,
            grid.y_min == y_min,
            grid.cell == cell,
            grid.wf(placed@, max_r),
            x_min <= cursor.0 <= x_max + 100,
            y_min <= cursor.1 <= y_max + 100,
            t <= order@.len(),
            placed@.len() == t,
            forall|i: int| 0 <= i < t ==> (#[trigger] placed@[i]).component == order@[i].0,
            forall|i: int|
                0 <= i < t ==> inside(#[trigger] placed@[i], drawing_bounds) && radius_fits(
                    placed@[i].radius as int,
                    count_label(component@, placed@[i].component as int) as int,
                    total as int,
                    max_radius as int,
                ),
            forall|a: int, b: int|
                0 <= a < b < t && (#[trigger] placed@[b]).accepted ==> separated(
                    #[trigger] placed@[a],
                    placed@[b],
                ),
            t > 0 ==> placed@[0].accepted,
        decreases order@.len() - t,
    {
        let (id, count) = order[t];
        proof {
            assert(order@[t as int].1 == counts@[id as int]);
            crate::component_functions::lemma_count_label_bound(component@, id as int);
            assert(counts@[id as int] == count_label(component@, id as int));
        }
        let r = circle_radius(count, total, max_radius);
        let mut center: (i64, i64) = (
            if cursor.0 + (r as i64) < x_max {
                cursor.0 + (r as i64)
            } else {
                x_max
            },
            if cursor.1 + (r as i64) < y_max {
                cursor.1 + (r as i64)
            } else {
                y_max
            },
        );
        let mut accepted = false;
        let mut attempts: u32 = 0;
        while !accepted && attempts < PLACEMENT_ATTEMPTS
            invariant
                grid.wf(placed@, max_r),
                grid.x_min == x_min,
                grid.y_min == y_min,
                x_min == drawing_bounds.0,
                x_max == drawing_bounds.1,
                y_min == drawing_bounds.2,
                y_max == drawing_bounds.3,
                x_min < x_max,
                y_min < y_max,
                r <= max_r,
                x_min <= center.0 <= x_max,
                y_min <= center.1 <= y_max,
                attempts <= PLACEMENT_ATTEMPTS,
                accepted ==> forall|i: int|
                    0 <= i < placed@.len() ==> separated(
                        #[trigger] placed@[i],
                        ClusterRegion {
                            component: id,
                            center_x: center.0,
                            center_y: center.1,
                            radius: r,
                            accepted: true,
                        },
                    ),
                placed@.len() == 0 ==> accepted || attempts == 0,
            decreases PLACEMENT_ATTEMPTS - attempts,
        {
            let cand = ClusterRegion {
                component: id,
                center_x: center.0,
                center_y: center.1,
                radius: r,
                accepted: true,
            };
            if !grid.collides(&placed, &cand, Ghost(max_r)) {
                accepted = true;
            } else {
                center = (random_between(rng, x_min, x_max), random_between(rng, y_min, y_max));
            }
            attempts = attempts + 1;
        }
        let region = ClusterRegion {
            component: id,
            center_x: center.0,
            center_y: center.1,
            radius: r,
            accepted,
        };
        proof {
            if accepted {
                assert forall|i: int| 0 <= i < placed@.len() implies separated(
                    #[trigger] placed@[i],
                    region,
                ) by {
                    let c = ClusterRegion {
                        component: id,
                        center_x: center.0,
                        center_y: center.1,
                        radius: r,
                        accepted: true,
                    };
                    assert(separated(placed@[i], c));
                }
            }
        }
        let ghost prev = placed@;
        placed.push(region);
        proof {
            assert(placed@.drop_last() == prev);
        }
        grid.register(&placed, Ghost(max_r));
        assert(count * 10000 <= total * 10000) by (nonlinear_arith)
            requires
                count <= total,
        ;
        let frac = (count as u128) * 10000 / (total as u128);
        let share = isqrt(frac);
        proof {
            assert(frac <= 100 * 100) by (nonlinear_arith)
                requires
                    frac == (count * 10000) / (total as int),
                    count <= total,
                    total > 0,
            ;
            lemma_isqrt_bound(frac as int, share as int, 100);
        }
        let jx = random_between(rng, 200, 400);
        let jy = random_between(rng, 200, 300);
        let wx = random_between(rng, 0, 100);
        let wy = random_between(rng, 0, 100);
        cursor = advance_cursor(cursor, r, share, drawing_bounds, jx, jy, wx, wy);
        t = t + 1;
    }
    proof {
        assert(placement_order(placed@, table) == order@);
        assert forall|t: int| 0 <= t < placed@.len() implies bounded(#[trigger] placed@[t]) by {
            assert(grid.covers(placed@[t]));
        }
        assert forall|a: int, b: int|
            0 <= a < placed@.len() && 0 <= b < placed@.len() && a != b && (#[trigger] placed@[a]).accepted
                && (#[trigger] placed@[b]).accepted implies separated(placed@[a], placed@[b]) by {
            if a < b {
                assert(separated(placed@[a], placed@[b]));
            } else {
                assert(separated(placed@[b], placed@[a]));
                lemma_separated_symmetric(placed@[b], placed@[a]);
            }
        }
    }
    placed
}

} // verus!
