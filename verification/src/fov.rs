use vstd::prelude::*;

use crate::grid::{lemma_cell_index, lemma_cell_index_order, lemma_dims_fit, GameMap};
use crate::path::diff;
use crate::tile::{MapError, Tile};

verus! {

/// Squared value.
pub open spec fn sq(a: int) -> int {
    a * a
}

/// The Euclidean radius test: `(x, y)` lies within `radius` tiles of the
/// observer.
pub open spec fn within_radius(ox: int, oy: int, radius: int, x: int, y: int) -> bool {
    sq(x - ox) + sq(y - oy) <= sq(radius)
}

/// Number of steps of the sight line from the observer to `(x, y)`: the
/// Chebyshev distance between the two tiles.
pub open spec fn ray_len(ox: int, oy: int, x: int, y: int) -> int {
    if diff(x, ox) >= diff(y, oy) {
        diff(x, ox)
    } else {
        diff(y, oy)
    }
}

/// Offset along one axis after `i` of `n` line steps, rounded to the
/// nearest integer.
pub open spec fn ray_off(d: int, n: int, i: int) -> int {
    (2 * i * d + n) / (2 * n)
}

/// One coordinate of the `i`-th point of the sight line from `a` towards
/// `b`, over `n` steps.
pub open spec fn ray_axis(a: int, b: int, n: int, i: int) -> int {
    if b >= a {
        a + ray_off(b - a, n, i)
    } else {
        a - ray_off(a - b, n, i)
    }
}

/// The tile the sight line from the observer to `(x, y)` crosses at step
/// `i`.
pub open spec fn ray_tile(m: GameMap, ox: int, oy: int, x: int, y: int, i: int) -> Tile {
    m.tile(
        ray_axis(ox, x, ray_len(ox, oy, x, y), i),
        ray_axis(oy, y, ray_len(ox, oy, x, y), i),
    )
}

/// No tile strictly between the observer and `(x, y)` blocks sight: an
/// opaque tile occludes everything strictly behind it.
pub open spec fn los_clear(m: GameMap, ox: int, oy: int, x: int, y: int) -> bool {
    forall|i: int|
        1 <= i < ray_len(ox, oy, x, y) ==> !(#[trigger] ray_tile(m, ox, oy, x, y, i)).block_sight
}

/// A transparent tile the observer currently sees: in bounds, within the
/// radius, with a clear sight line.
pub open spec fn floor_visible(m: GameMap, ox: int, oy: int, radius: int, x: int, y: int) -> bool {
    &&& m.in_bounds(x, y)
    &&& !m.tile(x, y).block_sight
    &&& within_radius(ox, oy, radius, x, y)
    &&& los_clear(m, ox, oy, x, y)
}

/// The 8-neighbourhood of a tile.
pub open spec fn adjacent(x: int, y: int, u: int, v: int) -> bool {
    diff(x, u) <= 1 && diff(y, v) <= 1 && !(x == u && y == v)
}

/// An opaque tile lit because it faces the light: within the radius and
/// next to a currently visible floor tile.
pub open spec fn wall_visible(m: GameMap, ox: int, oy: int, radius: int, x: int, y: int) -> bool {
    &&& m.in_bounds(x, y)
    &&& m.tile(x, y).block_sight
    &&& within_radius(ox, oy, radius, x, y)
    &&& exists|u: int, v: int|
        adjacent(x, y, u, v) && #[trigger] floor_visible(m, ox, oy, radius, u, v)
}

/// The visibility predicate of one recompute: the observer's own tile is
/// always visible; a floor tile is visible along a clear line within the
/// radius; an opaque tile is visible only when walls are lit and it faces
/// a visible floor tile.
pub open spec fn visible_at(
    m: GameMap,
    ox: int,
    oy: int,
    radius: int,
    light_walls: bool,
    x: int,
    y: int,
) -> bool {
    ||| (x == ox && y == oy && m.in_bounds(x, y))
    ||| floor_visible(m, ox, oy, radius, x, y)
    ||| (light_walls && wall_visible(m, ox, oy, radius, x, y))
}

/// The rounded line offset never leaves the segment: it starts at zero
/// and ends at the full axis difference.
proof fn lemma_ray_off_bounds(d: int, n: int, i: int)
    requires
        0 <= d <= n,
        1 <= n,
        0 <= i <= n,
    ensures
        0 <= ray_off(d, n, i) <= d,
{
    assert(0 <= 2 * i * d) by (nonlinear_arith)
        requires
            0 <= i,
            0 <= d,
    ;
    assert(2 * i * d <= 2 * n * d) by (nonlinear_arith)
        requires
            i <= n,
            0 <= d,
    ;
    vstd::arithmetic::div_mod::lemma_div_pos_is_pos(2 * i * d + n, 2 * n);
    vstd::arithmetic::div_mod::lemma_div_is_ordered(2 * i * d + n, 2 * n * d + n, 2 * n);
    assert(2 * n * d + n == d * (2 * n) + n) by (nonlinear_arith);
    vstd::arithmetic::div_mod::lemma_fundamental_div_mod_converse(2 * n * d + n, 2 * n, d, n);
}

/// One coordinate of the `i`-th sight-line point, computed exactly as the
/// specification rounds it.
fn ray_coord(a: i32, b: i32, n: u64, i: u64) -> (c: i32)
    requires
        0 <= a,
        0 <= b,
        1 <= n,
        i <= n,
        diff(a as int, b as int) <= n,
        n <= 0x1_0000_0000,
    ensures
        c == ray_axis(a as int, b as int, n as int, i as int),
        if a <= b {
            a <= c <= b
        } else {
            b <= c <= a
        },
{
    let d: u64 = if b >= a {
        (b - a) as u64
    } else {
        (a - b) as u64
    };
    proof {
        lemma_ray_off_bounds(d as int, n as int, i as int);
        assert(2 * (i as int) * (d as int) + (n as int) < 0x100_0000_0000_0000_0000) by (
        nonlinear_arith)
            requires
                0 <= i <= 0x1_0000_0000,
                0 <= d <= 0x1_0000_0000,
                0 <= n <= 0x1_0000_0000,
        ;
    }
    let num: u128 = 2 * (i as u128) * (d as u128) + (n as u128);
    let den: u128 = 2 * (n as u128);
    let off: u64 = (num / den) as u64;
    if b >= a {
        a + (off as i32)
    } else {
        a - (off as i32)
    }
}

/// Walks the sight line between two in-bounds tiles and reports whether
/// every strictly intermediate tile is transparent.
fn clear_line(m: &GameMap, ox: i32, oy: i32, tx: i32, ty: i32) -> (r: bool)
    requires
        m.wf(),
        m.in_bounds(ox as int, oy as int),
        m.in_bounds(tx as int, ty as int),
    ensures
        r == los_clear(*m, ox as int, oy as int, tx as int, ty as int),
{
    let adx: u64 = if tx >= ox {
        (tx - ox) as u64
    } else {
        (ox - tx) as u64
    };
    let ady: u64 = if ty >= oy {
        (ty - oy) as u64
    } else {
        (oy - ty) as u64
    };
    let n: u64 = if adx >= ady {
        adx
    } else {
        ady
    };
    proof {
        assert(n == ray_len(ox as int, oy as int, tx as int, ty as int));
    }
    if n <= 1 {
        return true;
    }
    let mut i: u64 = 1;
    while i < n
        invariant
            m.wf(),
            m.in_bounds(ox as int, oy as int),
            m.in_bounds(tx as int, ty as int),
            n == ray_len(ox as int, oy as int, tx as int, ty as int),
            2 <= n <= 0x1_0000_0000,
            1 <= i <= n,
            forall|j: int|
                1 <= j < i ==> !(#[trigger] ray_tile(
                    *m,
                    ox as int,
                    oy as int,
                    tx as int,
                    ty as int,
                    j,
                )).block_sight,
        decreases n - i,
    {
        let px: i32 = ray_coord(ox, tx, n, i);
        let py: i32 = ray_coord(oy, ty, n, i);
        if m.blocks_sight(px, py) {
            proof {
                assert(ray_tile(
                    *m,
                    ox as int,
                    oy as int,
                    tx as int,
                    ty as int,
                    i as int,
                ).block_sight);
            }
            return false;
        }
        proof {
            assert(m.in_bounds(px as int, py as int));
            assert(!ray_tile(*m, ox as int, oy as int, tx as int, ty as int, i as int).block_sight);
        }
        i = i + 1;
    }
    true
}

/// The Euclidean radius test, without overflow.
fn within_radius_check(ox: i32, oy: i32, radius: i32, x: i32, y: i32) -> (r: bool)
    ensures
        r == within_radius(ox as int, oy as int, radius as int, x as int, y as int),
{
    let dx: i128 = x as i128 - ox as i128;
    let dy: i128 = y as i128 - oy as i128;
    let rr: i128 = radius as i128;
    proof {
        assert(0 <= dx * dx <= 0x1_0000_0000_0000_0000) by (nonlinear_arith)
            requires
                -0x1_0000_0000 <= dx <= 0x1_0000_0000,
        ;
        assert(0 <= dy * dy <= 0x1_0000_0000_0000_0000) by (nonlinear_arith)
            requires
                -0x1_0000_0000 <= dy <= 0x1_0000_0000,
        ;
        assert(0 <= rr * rr <= 0x1_0000_0000_0000_0000) by (nonlinear_arith)
            requires
                -0x1_0000_0000 <= rr <= 0x1_0000_0000,
        ;
    }
    dx * dx + dy * dy <= rr * rr
}

/// Whether the observer currently sees the floor tile `(x, y)`; any
/// coordinates are accepted, tiles off the grid are never seen.
fn check_floor(m: &GameMap, ox: i32, oy: i32, radius: i32, x: i32, y: i32) -> (r: bool)
    requires
        m.wf(),
        m.in_bounds(ox as int, oy as int),
    ensures
        r == floor_visible(*m, ox as int, oy as int, radius as int, x as int, y as int),
{
    if x < 0 || y < 0 || x >= m.width() || y >= m.height() {
        return false;
    }
    if m.blocks_sight(x, y) {
        return false;
    }
    if !within_radius_check(ox, oy, radius, x, y) {
        return false;
    }
    clear_line(m, ox, oy, x, y)
}

/// Whether the observer currently sees the in-bounds tile `(x, y)`.
fn check_visible(
    m: &GameMap,
    ox: i32,
    oy: i32,
    radius: i32,
    light_walls: bool,
    x: i32,
    y: i32,
) -> (r: bool)
    requires
        m.wf(),
        m.in_bounds(ox as int, oy as int),
        m.in_bounds(x as int, y as int),
    ensures
        r == visible_at(
            *m,
            ox as int,
            oy as int,
            radius as int,
            light_walls,
            x as int,
            y as int,
        ),
{
    proof {
        lemma_dims_fit(*m);
    }
    if x == ox && y == oy {
        return true;
    }
    if check_floor(m, ox, oy, radius, x, y) {
        return true;
    }
    if !light_walls {
        return false;
    }
    if !m.blocks_sight(x, y) {
        return false;
    }
    if !within_radius_check(ox, oy, radius, x, y) {
        return false;
    }
    if check_floor(m, ox, oy, radius, x - 1, y - 1) {
        proof {
            assert(adjacent(x as int, y as int, x as int - 1, y as int - 1));
        }
        return true;
    }
    if check_floor(m, ox, oy, radius, x, y - 1) {
        proof {
            assert(adjacent(x as int, y as int, x as int, y as int - 1));
        }
        return true;
    }
    if check_floor(m, ox, oy, radius, x + 1, y - 1) {
        proof {
            assert(adjacent(x as int, y as int, x as int + 1, y as int - 1));
        }
        return true;
    }
    if check_floor(m, ox, oy, radius, x - 1, y) {
        proof {
            assert(adjacent(x as int, y as int, x as int - 1, y as int));
        }
        return true;
    }
    if check_floor(m, ox, oy, radius, x + 1, y) {
        proof {
            assert(adjacent(x as int, y as int, x as int + 1, y as int));
        }
        return true;
    }
    if check_floor(m, ox, oy, radius, x - 1, y + 1) {
        proof {
            assert(adjacent(x as int, y as int, x as int - 1, y as int + 1));
        }
        return true;
    }
    if check_floor(m, ox, oy, radius, x, y + 1) {
        proof {
            assert(adjacent(x as int, y as int, x as int, y as int + 1));
        }
        return true;
    }
    if check_floor(m, ox, oy, radius, x + 1, y + 1) {
        proof {
            assert(adjacent(x as int, y as int, x as int + 1, y as int + 1));
        }
        return true;
    }
    proof {
        assert forall|u: int, v: int|
            adjacent(x as int, y as int, u, v) implies !(#[trigger] floor_visible(
            *m,
            ox as int,
            oy as int,
            radius as int,
            u,
            v,
        )) by {
            assert(u == x - 1 || u == x || u == x + 1);
            assert(v == y - 1 || v == y || v == y + 1);
        }
    }
    false
}

/// The set of grid coordinates visible from the last computed observer
/// position; rebuilt whole on each true recompute.
pub struct VisibilitySet {
    width: i32,
    height: i32,
    vis: Vec<bool>,
}

impl VisibilitySet {
    pub closed spec fn spec_width(self) -> int {
        self.width as int
    }

    pub closed spec fn spec_height(self) -> int {
        self.height as int
    }

    pub closed spec fn wf(self) -> bool {
        &&& 0 < self.width
        &&& 0 < self.height
        &&& self.vis@.len() == self.spec_width() * self.spec_height()
    }

    pub open spec fn spec_in_range(self, x: int, y: int) -> bool {
        0 <= x < self.spec_width() && 0 <= y < self.spec_height()
    }

    /// Membership: whether `(x, y)` is currently visible.
    pub closed spec fn spec_contains(self, x: int, y: int) -> bool {
        self.spec_in_range(x, y) && self.vis@[x * self.spec_height() + y]
    }

    pub fn contains(&self, x: i32, y: i32) -> (r: bool)
        requires
            self.wf(),
        ensures
            r == self.spec_contains(x as int, y as int),
    {
        if x < 0 || y < 0 || x >= self.width || y >= self.height {
            return false;
        }
        proof {
            lemma_cell_index(self.spec_width(), self.spec_height(), x as int, y as int);
        }
        let buffer_len: usize = self.vis.len();
        let idx: usize = (x as usize) * (self.height as usize) + (y as usize);
        proof {
            assert(idx < buffer_len);
        }
        self.vis[idx]
    }
}

/// Computes and caches the set of tiles visible from an observer
/// position. A recompute with the position of the previous computation
/// leaves the engine, and so every `is_visible` answer, unchanged.
pub struct VisibilityEngine {
    last: Option<(i32, i32)>,
    radius: i32,
    light_walls: bool,
    seen: VisibilitySet,
}

impl VisibilityEngine {
    pub closed spec fn wf(self) -> bool {
        self.seen.wf()
    }

    pub closed spec fn spec_width(self) -> int {
        self.seen.spec_width()
    }

    pub closed spec fn spec_height(self) -> int {
        self.seen.spec_height()
    }

    /// The observer position of the last true recompute, if any.
    pub closed spec fn spec_last(self) -> Option<(i32, i32)> {
        self.last
    }

    pub closed spec fn spec_radius(self) -> int {
        self.radius as int
    }

    pub closed spec fn spec_light_walls(self) -> bool {
        self.light_walls
    }

    /// The current visibility set.
    pub closed spec fn spec_visible(self, x: int, y: int) -> bool {
        self.seen.spec_contains(x, y)
    }

    /// A fresh engine: nothing computed yet, nothing visible.
    pub fn new(width: i32, height: i32) -> (r: Result<VisibilityEngine, MapError>)
        ensures
            match r {
                Ok(e) => {
                    &&& GameMap::spec_valid_dims(width, height)
                    &&& e.wf()
                    &&& e.spec_width() == width
                    &&& e.spec_height() == height
                    &&& e.spec_last() is None
                    &&& forall|x: int, y: int| !(#[trigger] e.spec_visible(x, y))
                },
                Err(err) => {
                    &&& err == MapError::InvalidConfiguration
                    &&& !GameMap::spec_valid_dims(width, height)
                },
            },
    {
        if width <= 0 || height <= 0 {
            return Err(MapError::InvalidConfiguration);
        }
        let w64: u64 = width as u64;
        let h64: u64 = height as u64;
        proof {
            assert(w64 * h64 < 0x4000_0000_0000_0000) by (nonlinear_arith)
                requires
                    w64 < 0x8000_0000,
                    h64 < 0x8000_0000,
            ;
        }
        let count: u64 = w64 * h64;
        if count > usize::MAX as u64 {
            return Err(MapError::InvalidConfiguration);
        }
        let n: usize = count as usize;
        let mut vis: Vec<bool> = Vec::new();
        let mut i: usize = 0;
        while i < n
            invariant
                i <= n,
                vis@.len() == i,
                forall|k: int| 0 <= k < i ==> !(#[trigger] vis@[k]),
            decreases n - i,
        {
            vis.push(false);
            i = i + 1;
        }
        let e = VisibilityEngine {
            last: None,
            radius: 0,
            light_walls: false,
            seen: VisibilitySet { width, height, vis },
        };
        proof {
            assert forall|x: int, y: int| !(#[trigger] e.spec_visible(x, y)) by {
                if e.seen.spec_in_range(x, y) {
                    lemma_cell_index(e.spec_width(), e.spec_height(), x, y);
                }
            }
        }
        Ok(e)
    }

    /// Recomputes the visibility set for an observer position, unless the
    /// position is unchanged since the last computation, in which case the
    /// cached set is reused verbatim.
    pub fn recompute(&mut self, map: &GameMap, ox: i32, oy: i32, radius: i32, light_walls: bool)
        requires
            old(self).wf(),
            map.wf(),
            old(self).spec_width() == map.spec_width(),
            old(self).spec_height() == map.spec_height(),
            map.in_bounds(ox as int, oy as int),
            0 <= radius,
        ensures
            final(self).wf(),
            final(self).spec_width() == old(self).spec_width(),
            final(self).spec_height() == old(self).spec_height(),
            old(self).spec_last() == Some((ox, oy)) ==> *final(self) == *old(self),
            old(self).spec_last() != Some((ox, oy)) ==> {
                &&& final(self).spec_last() == Some((ox, oy))
                &&& final(self).spec_radius() == radius
                &&& final(self).spec_light_walls() == light_walls
                &&& forall|x: int, y: int|
                    #[trigger] final(self).spec_visible(x, y) == (map.in_bounds(x, y)
                        && visible_at(
                        *map,
                        ox as int,
                        oy as int,
                        radius as int,
                        light_walls,
                        x,
                        y,
                    ))
            },
    {
        let cached: bool = match self.last {
            Some(p) => p.0 == ox && p.1 == oy,
            None => false,
        };
        if cached {
            return ;
        }
        let width: i32 = map.width();
        let height: i32 = map.height();
        let mut vis: Vec<bool> = Vec::new();
        let mut x: i32 = 0;
        while x < width
            invariant
                map.wf(),
                map.spec_width() == width,
                map.spec_height() == height,
                map.in_bounds(ox as int, oy as int),
                0 <= radius,
                0 <= x <= width,
                vis@.len() == x * height,
                forall|xx: int, yy: int|
                    #![trigger vis@[xx * height + yy]]
                    0 <= xx < x && 0 <= yy < height ==> vis@[xx * height + yy] == visible_at(
                        *map,
                        ox as int,
                        oy as int,
                        radius as int,
                        light_walls,
                        xx,
                        yy,
                    ),
            decreases width - x,
        {
            let mut y: i32 = 0;
            while y < height
                invariant
                    map.wf(),
                    map.spec_width() == width,
                    map.spec_height() == height,
                    map.in_bounds(ox as int, oy as int),
                    0 <= radius,
                    0 <= x < width,
                    0 <= y <= height,
                    vis@.len() == x * height + y,
                    forall|xx: int, yy: int|
                        #![trigger vis@[xx * height + yy]]
                        0 <= xx < width && 0 <= yy < height && (xx < x || (xx == x && yy < y))
                            ==> vis@[xx * height + yy] == visible_at(
                            *map,
                            ox as int,
                            oy as int,
                            radius as int,
                            light_walls,
                            xx,
                            yy,
                        ),
                decreases height - y,
            {
                let v: bool = check_visible(map, ox, oy, radius, light_walls, x, y);
                let ghost vis0 = vis@;
                vis.push(v);
                proof {
                    let ghost h = height as int;
                    assert forall|xx: int, yy: int|
                        #![trigger vis@[xx * h + yy]]
                        0 <= xx < width && 0 <= yy < height && (xx < x || (xx == x && yy < y
                            + 1)) implies vis@[xx * h + yy] == visible_at(
                        *map,
                        ox as int,
                        oy as int,
                        radius as int,
                        light_walls,
                        xx,
                        yy,
                    ) by {
                        lemma_cell_index(width as int, h, xx, yy);
                        if xx == x as int && yy == y as int {
                            assert(vis@[xx * h + yy] == v);
                        } else {
                            lemma_cell_index_order(h, xx, yy, x as int, y as int);
                            assert(vis@[xx * h + yy] == vis0[xx * h + yy]);
                        }
                    }
                }
                y = y + 1;
            }
            proof {
                assert((x as int + 1) * (height as int) == x as int * (height as int) + (
                height as int)) by (nonlinear_arith);
            }
            x = x + 1;
        }
        let seen = VisibilitySet { width, height, vis };
        self.last = Some((ox, oy));
        self.radius = radius;
        self.light_walls = light_walls;
        self.seen = seen;
        proof {
            assert forall|x0: int, y0: int| #[trigger] self.spec_visible(x0, y0) == (
            map.in_bounds(x0, y0) && visible_at(
                *map,
                ox as int,
                oy as int,
                radius as int,
                light_walls,
                x0,
                y0,
            )) by {
                if self.seen.spec_in_range(x0, y0) {
                    lemma_cell_index(width as int, height as int, x0, y0);
                }
            }
        }
    }

    /// Borrows the cached visibility set, for instance to merge it into
    /// the exploration memory.
    pub fn visible_set(&self) -> (r: &VisibilitySet)
        requires
            self.wf(),
        ensures
            r.wf(),
            r.spec_width() == self.spec_width(),
            r.spec_height() == self.spec_height(),
            forall|x: int, y: int| #[trigger] r.spec_contains(x, y) == self.spec_visible(x, y),
    {
        &self.seen
    }

    /// Queries the cached visibility set.
    pub fn is_visible(&self, x: i32, y: i32) -> (r: bool)
        requires
            self.wf(),
        ensures
            r == self.spec_visible(x as int, y as int),
    {
        self.seen.contains(x, y)
    }
}

/// A sum of two squares is only nonpositive when both terms vanish.
proof fn lemma_sq_sum_zero(a: int, b: int)
    requires
        sq(a) + sq(b) <= 0,
    ensures
        a == 0 && b == 0,
{
    assert(a == 0 && b == 0) by (nonlinear_arith)
        requires
            a * a + b * b <= 0,
    ;
}

/// Squaring preserves the order of nonnegative integers.
proof fn lemma_sq_monotone(a: int, b: int)
    requires
        0 <= a <= b,
    ensures
        sq(a) <= sq(b),
{
    assert(a * a <= b * b) by (nonlinear_arith)
        requires
            0 <= a <= b,
    ;
}

/// With radius zero, exactly the observer's own tile is visible,
/// whatever the occluders and the wall-lighting flag.
pub proof fn lemma_radius_zero(
    m: GameMap,
    ox: int,
    oy: int,
    light_walls: bool,
    x: int,
    y: int,
)
    requires
        m.in_bounds(ox, oy),
    ensures
        visible_at(m, ox, oy, 0, light_walls, x, y) <==> (x == ox && y == oy),
{
    if visible_at(m, ox, oy, 0, light_walls, x, y) {
        if floor_visible(m, ox, oy, 0, x, y) {
            lemma_sq_sum_zero(x - ox, y - oy);
        } else if light_walls && wall_visible(m, ox, oy, 0, x, y) {
            lemma_sq_sum_zero(x - ox, y - oy);
            let (u, v) = choose|u: int, v: int|
                adjacent(x, y, u, v) && #[trigger] floor_visible(m, ox, oy, 0, u, v);
            lemma_sq_sum_zero(u - ox, v - oy);
            assert(false);
        }
    }
}

/// Every pair of in-bounds tiles lies within a radius whose square
/// covers the squared grid diagonal.
proof fn lemma_radius_covers_pair(m: GameMap, ox: int, oy: int, radius: int, x: int, y: int)
    requires
        m.in_bounds(ox, oy),
        m.in_bounds(x, y),
        sq(m.spec_width() - 1) + sq(m.spec_height() - 1) <= sq(radius),
    ensures
        within_radius(ox, oy, radius, x, y),
{
    lemma_sq_monotone(diff(x, ox), m.spec_width() - 1);
    lemma_sq_monotone(diff(y, oy), m.spec_height() - 1);
    assert((x - ox) * (x - ox) == (ox - x) * (ox - x)) by (nonlinear_arith);
    assert((y - oy) * (y - oy) == (oy - y) * (oy - y)) by (nonlinear_arith);
    assert(sq(x - ox) == sq(diff(x, ox)));
    assert(sq(y - oy) == sq(diff(y, oy)));
}

/// A radius whose square covers the squared grid diagonal no longer
/// constrains visibility: any two such radii yield the same visibility,
/// which is then limited purely by the sight-blocking tiles.
pub proof fn lemma_radius_beyond_diagonal(
    m: GameMap,
    ox: int,
    oy: int,
    r1: int,
    r2: int,
    light_walls: bool,
    x: int,
    y: int,
)
    requires
        m.in_bounds(ox, oy),
        sq(m.spec_width() - 1) + sq(m.spec_height() - 1) <= sq(r1),
        sq(m.spec_width() - 1) + sq(m.spec_height() - 1) <= sq(r2),
    ensures
        visible_at(m, ox, oy, r1, light_walls, x, y) == visible_at(
            m,
            ox,
            oy,
            r2,
            light_walls,
            x,
            y,
        ),
{
    assert forall|u: int, v: int| #[trigger]
        floor_visible(m, ox, oy, r1, u, v) <==> floor_visible(m, ox, oy, r2, u, v) by {
        if m.in_bounds(u, v) {
            lemma_radius_covers_pair(m, ox, oy, r1, u, v);
            lemma_radius_covers_pair(m, ox, oy, r2, u, v);
        }
    }
    if wall_visible(m, ox, oy, r1, x, y) {
        lemma_radius_covers_pair(m, ox, oy, r2, x, y);
        let (u, v) = choose|u: int, v: int|
            adjacent(x, y, u, v) && #[trigger] floor_visible(m, ox, oy, r1, u, v);
        lemma_radius_covers_pair(m, ox, oy, r2, u, v);
        assert(floor_visible(m, ox, oy, r2, u, v));
        assert(wall_visible(m, ox, oy, r2, x, y));
    }
    if wall_visible(m, ox, oy, r2, x, y) {
        lemma_radius_covers_pair(m, ox, oy, r1, x, y);
        let (u, v) = choose|u: int, v: int|
            adjacent(x, y, u, v) && #[trigger] floor_visible(m, ox, oy, r2, u, v);
        lemma_radius_covers_pair(m, ox, oy, r1, u, v);
        assert(floor_visible(m, ox, oy, r1, u, v));
        assert(wall_visible(m, ox, oy, r1, x, y));
    }
}

} // verus!
