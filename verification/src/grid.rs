use vstd::prelude::*;

use crate::rect::Rect;
use crate::tile::{MapError, Tile};

verus! {

/// Flattened index of a grid cell stays inside the buffer.
pub(crate) proof fn lemma_cell_index(w: int, h: int, x: int, y: int)
    requires
        0 <= x < w,
        0 <= y < h,
    ensures
        0 <= x * h + y < w * h,
{
    assert(0 <= x * h + y < w * h) by (nonlinear_arith)
        requires
            0 <= x < w,
            0 <= y < h,
    ;
}

/// Two distinct cells never share a flattened index.
pub(crate) proof fn lemma_cell_index_injective(h: int, x1: int, y1: int, x2: int, y2: int)
    requires
        0 <= y1 < h,
        0 <= y2 < h,
        x1 * h + y1 == x2 * h + y2,
    ensures
        x1 == x2 && y1 == y2,
{
    assert(x1 == x2 && y1 == y2) by (nonlinear_arith)
        requires
            0 <= y1 < h,
            0 <= y2 < h,
            x1 * h + y1 == x2 * h + y2,
    ;
}

/// Flattened indices respect the column-major cell order.
pub(crate) proof fn lemma_cell_index_order(h: int, x1: int, y1: int, x2: int, y2: int)
    requires
        0 <= y1 < h,
        0 <= y2 < h,
        x1 < x2 || (x1 == x2 && y1 < y2),
    ensures
        x1 * h + y1 < x2 * h + y2,
{
    assert(x1 * h + y1 < x2 * h + y2) by (nonlinear_arith)
        requires
            0 <= y1 < h,
            0 <= y2 < h,
            x1 < x2 || (x1 == x2 && y1 < y2),
    ;
}

/// The dimensions of a well-formed grid are positive and fit in `i32`.
pub proof fn lemma_dims_fit(m: GameMap)
    requires
        m.wf(),
    ensures
        0 < m.spec_width() < 0x8000_0000,
        0 < m.spec_height() < 0x8000_0000,
{
}

/// The dungeon grid: a fixed `width x height` buffer of tiles with
/// bounds-checked access. The shape never changes after construction.
pub struct GameMap {
    width: i32,
    height: i32,
    tiles: Vec<Tile>,
}

impl GameMap {
    pub closed spec fn spec_width(self) -> int {
        self.width as int
    }

    pub closed spec fn spec_height(self) -> int {
        self.height as int
    }

    /// Well-formedness: positive dimensions and a buffer of exactly
    /// `width * height` tiles.
    pub closed spec fn wf(self) -> bool {
        &&& 0 < self.width
        &&& 0 < self.height
        &&& self.tiles@.len() == self.spec_width() * self.spec_height()
    }

    pub open spec fn in_bounds(self, x: int, y: int) -> bool {
        0 <= x < self.spec_width() && 0 <= y < self.spec_height()
    }

    /// The tile stored at `(x, y)`.
    pub closed spec fn tile(self, x: int, y: int) -> Tile {
        self.tiles@[x * self.spec_height() + y]
    }

    /// Dimension and size bounds under which a grid can be allocated.
    pub open spec fn spec_valid_dims(width: i32, height: i32) -> bool {
        0 < width && 0 < height && width * height <= usize::MAX
    }

    /// Allocates a grid completely filled with wall tiles.
    pub fn new(width: i32, height: i32) -> (r: Result<GameMap, MapError>)
        ensures
            match r {
                Ok(m) => {
                    &&& GameMap::spec_valid_dims(width, height)
                    &&& m.wf()
                    &&& m.spec_width() == width
                    &&& m.spec_height() == height
                    &&& forall|x: int, y: int|
                        m.in_bounds(x, y) ==> #[trigger] m.tile(x, y) == Tile::spec_wall()
                },
                Err(e) => {
                    &&& e == MapError::InvalidConfiguration
                    &&& !GameMap::spec_valid_dims(width, height)
                },
            },
    {
        if width <= 0 || height <= 0 {
            return Err(MapError::InvalidConfiguration);
        }
        let w64: u64 = width as u64;
        let h64: u64 = height as u64;
        proof {
            assert(w64 * h64 < 0x4000_0000_0000_0000) by (nonlinear_arith)
                requires
                    w64 < 0x8000_0000,
                    h64 < 0x8000_0000,
            ;
        }
        let count: u64 = w64 * h64;
        if count > usize::MAX as u64 {
            return Err(MapError::InvalidConfiguration);
        }
        let n: usize = count as usize;
        let mut tiles: Vec<Tile> = Vec::new();
        let mut i: usize = 0;
        while i < n
            invariant
                i <= n,
                n == width * height,
                tiles@.len() == i,
                forall|k: int| 0 <= k < i ==> tiles@[k] == Tile::spec_wall(),
            decreases n - i,
        {
            tiles.push(Tile::wall());
            i = i + 1;
        }
        let m = GameMap { width, height, tiles };
        proof {
            assert forall|x: int, y: int| m.in_bounds(x, y) implies #[trigger] m.tile(x, y)
                == Tile::spec_wall() by {
                lemma_cell_index(m.spec_width(), m.spec_height(), x, y);
            }
        }
        Ok(m)
    }

    pub fn width(&self) -> (w: i32)
        ensures
            w == self.spec_width(),
    {
        self.width
    }

    pub fn height(&self) -> (h: i32)
        ensures
            h == self.spec_height(),
    {
        self.height
    }

    /// Flattened index of an in-bounds cell.
    fn cell(&self, x: i32, y: i32) -> (idx: usize)
        requires
            self.wf(),
            self.in_bounds(x as int, y as int),
        ensures
            idx == x as int * self.spec_height() + y as int,
            idx < self.tiles@.len(),
    {
        proof {
            lemma_cell_index(self.spec_width(), self.spec_height(), x as int, y as int);
        }
        let buffer_len: usize = self.tiles.len();
        let idx: usize = (x as usize) * (self.height as usize) + (y as usize);
        proof {
            assert(idx < buffer_len);
        }
        idx
    }

    /// Bounds-checked read of one tile.
    pub fn tile_at(&self, x: i32, y: i32) -> (r: Result<Tile, MapError>)
        requires
            self.wf(),
        ensures
            self.in_bounds(x as int, y as int) ==> r == Ok::<Tile, MapError>(
                self.tile(x as int, y as int),
            ),
            !self.in_bounds(x as int, y as int) ==> r == Err::<Tile, MapError>(
                MapError::OutOfBounds,
            ),
    {
        if x < 0 || y < 0 || x >= self.width || y >= self.height {
            return Err(MapError::OutOfBounds);
        }
        let idx: usize = self.cell(x, y);
        Ok(self.tiles[idx])
    }

    /// Whether `(x, y)` is impassable; coordinates off the grid count as
    /// blocked.
    pub fn is_blocked(&self, x: i32, y: i32) -> (r: bool)
        requires
            self.wf(),
        ensures
            r == !(self.in_bounds(x as int, y as int) && !self.tile(
                x as int,
                y as int,
            ).blocked),
    {
        match self.tile_at(x, y) {
            Ok(t) => t.blocked,
            Err(_) => true,
        }
    }

    /// Whether `(x, y)` is opaque; coordinates off the grid are not.
    pub fn blocks_sight(&self, x: i32, y: i32) -> (r: bool)
        requires
            self.wf(),
        ensures
            r == (self.in_bounds(x as int, y as int) && self.tile(
                x as int,
                y as int,
            ).block_sight),
    {
        match self.tile_at(x, y) {
            Ok(t) => t.block_sight,
            Err(_) => false,
        }
    }

    /// Whether `(x, y)` has ever been seen; coordinates off the grid have
    /// not.
    pub fn is_explored(&self, x: i32, y: i32) -> (r: bool)
        requires
            self.wf(),
        ensures
            r == (self.in_bounds(x as int, y as int) && self.tile(
                x as int,
                y as int,
            ).explored),
    {
        match self.tile_at(x, y) {
            Ok(t) => t.explored,
            Err(_) => false,
        }
    }

    /// Overwrites one tile; every other tile and the shape stay as they
    /// were.
    pub(crate) fn set_tile(&mut self, x: i32, y: i32, t: Tile)
        requires
            old(self).wf(),
            old(self).in_bounds(x as int, y as int),
        ensures
            final(self).wf(),
            final(self).spec_width() == old(self).spec_width(),
            final(self).spec_height() == old(self).spec_height(),
            final(self).tile(x as int, y as int) == t,
            forall|xx: int, yy: int|
                old(self).in_bounds(xx, yy) && !(xx == x as int && yy == y as int)
                    ==> #[trigger] final(self).tile(xx, yy) == old(self).tile(xx, yy),
    {
        let idx: usize = self.cell(x, y);
        self.tiles.set(idx, t);
        proof {
            let w = self.spec_width();
            let h = self.spec_height();
            assert forall|xx: int, yy: int|
                old(self).in_bounds(xx, yy) && !(xx == x as int && yy == y as int)
                    implies #[trigger] self.tile(xx, yy) == old(self).tile(xx, yy) by {
                lemma_cell_index(w, h, xx, yy);
                if xx * h + yy == x as int * h + y as int {
                    lemma_cell_index_injective(h, xx, yy, x as int, y as int);
                }
            }
        }
    }

    /// Sets the explored flag of one tile; nothing else changes. Used by
    /// the exploration tracker, which may touch only this flag.
    pub(crate) fn mark_explored(&mut self, x: i32, y: i32)
        requires
            old(self).wf(),
            old(self).in_bounds(x as int, y as int),
        ensures
            final(self).wf(),
            final(self).spec_width() == old(self).spec_width(),
            final(self).spec_height() == old(self).spec_height(),
            final(self).tile(x as int, y as int) == (Tile {
                explored: true,
                ..old(self).tile(x as int, y as int)
            }),
            forall|xx: int, yy: int|
                old(self).in_bounds(xx, yy) && !(xx == x as int && yy == y as int)
                    ==> #[trigger] final(self).tile(xx, yy) == old(self).tile(xx, yy),
    {
        let idx: usize = self.cell(x, y);
        let t = self.tiles[idx];
        self.set_tile(x, y, Tile { blocked: t.blocked, block_sight: t.block_sight, explored: true });
    }

    /// Carves the interior of a room to open floor, leaving its one-tile
    /// border and everything else untouched. Generation-phase only: the
    /// carved tiles start over as unexplored floor.
    pub fn carve_room(&mut self, room: Rect)
        requires
            old(self).wf(),
            0 <= room.x1,
            0 <= room.y1,
            room.x1 < room.x2,
            room.y1 < room.y2,
            room.x2 <= old(self).spec_width(),
            room.y2 <= old(self).spec_height(),
        ensures
            final(self).wf(),
            final(self).spec_width() == old(self).spec_width(),
            final(self).spec_height() == old(self).spec_height(),
            forall|x: int, y: int|
                old(self).in_bounds(x, y) ==> #[trigger] final(self).tile(x, y) == (
                if room.spec_interior(x, y) {
                    Tile::spec_empty()
                } else {
                    old(self).tile(x, y)
                }),
    {
        let ghost m0 = *self;
        let mut x: i32 = room.x1 + 1;
        while x < room.x2
            invariant
                self.wf(),
                self.spec_width() == m0.spec_width(),
                self.spec_height() == m0.spec_height(),
                m0.wf(),
                0 <= room.x1,
                0 <= room.y1,
                room.x1 < room.x2,
                room.y1 < room.y2,
                room.x2 <= m0.spec_width(),
                room.y2 <= m0.spec_height(),
                room.x1 + 1 <= x <= room.x2,
                forall|xx: int, yy: int|
                    m0.in_bounds(xx, yy) ==> #[trigger] self.tile(xx, yy) == (
                    if room.y1 < yy < room.y2 && room.x1 < xx < x {
                        Tile::spec_empty()
                    } else {
                        m0.tile(xx, yy)
                    }),
            decreases room.x2 - x,
        {
            let mut y: i32 = room.y1 + 1;
            while y < room.y2
                invariant
                    self.wf(),
                    self.spec_width() == m0.spec_width(),
                    self.spec_height() == m0.spec_height(),
                    m0.wf(),
                    0 <= room.x1,
                    0 <= room.y1,
                    room.x1 < room.x2,
                    room.y1 < room.y2,
                    room.x2 <= m0.spec_width(),
                    room.y2 <= m0.spec_height(),
                    room.x1 + 1 <= x < room.x2,
                    room.y1 + 1 <= y <= room.y2,
                    forall|xx: int, yy: int|
                        m0.in_bounds(xx, yy) ==> #[trigger] self.tile(xx, yy) == (
                        if (room.y1 < yy < room.y2 && room.x1 < xx < x) || (xx == x && room.y1
                            < yy < y) {
                            Tile::spec_empty()
                        } else {
                            m0.tile(xx, yy)
                        }),
                decreases room.y2 - y,
            {
                self.set_tile(x, y, Tile::empty());
                y = y + 1;
            }
            x = x + 1;
        }
    }

    /// Carves a one-tile-wide horizontal corridor covering the inclusive
    /// range between `xa` and `xb` (in either order) at row `y`.
    pub fn carve_h_tunnel(&mut self, xa: i32, xb: i32, y: i32)
        requires
            old(self).wf(),
            0 <= xa < old(self).spec_width(),
            0 <= xb < old(self).spec_width(),
            0 <= y < old(self).spec_height(),
        ensures
            final(self).wf(),
            final(self).spec_width() == old(self).spec_width(),
            final(self).spec_height() == old(self).spec_height(),
            forall|xx: int, yy: int|
                old(self).in_bounds(xx, yy) ==> #[trigger] final(self).tile(xx, yy) == (
                if yy == y && (if xa <= xb {
                    xa <= xx <= xb
                } else {
                    xb <= xx <= xa
                }) {
                    Tile::spec_empty()
                } else {
                    old(self).tile(xx, yy)
                }),
    {
        let ghost m0 = *self;
        let lo: i32 = if xa <= xb { xa } else { xb };
        let hi: i32 = if xa <= xb { xb } else { xa };
        let mut x: i32 = lo;
        while x <= hi
            invariant
                self.wf(),
                self.spec_width() == m0.spec_width(),
                self.spec_height() == m0.spec_height(),
                m0.wf(),
                0 <= lo <= hi < m0.spec_width(),
                0 <= y < m0.spec_height(),
                lo <= x <= hi + 1,
                forall|xx: int, yy: int|
                    m0.in_bounds(xx, yy) ==> #[trigger] self.tile(xx, yy) == (
                    if yy == y && lo <= xx < x {
                        Tile::spec_empty()
                    } else {
                        m0.tile(xx, yy)
                    }),
            decreases hi + 1 - x,
        {
            self.set_tile(x, y, Tile::empty());
            x = x + 1;
        }
    }

    /// Carves a one-tile-wide vertical corridor covering the inclusive
    /// range between `ya` and `yb` (in either order) at column `x`.
    pub fn carve_v_tunnel(&mut self, ya: i32, yb: i32, x: i32)
        requires
            old(self).wf(),
            0 <= ya < old(self).spec_height(),
            0 <= yb < old(self).spec_height(),
            0 <= x < old(self).spec_width(),
        ensures
            final(self).wf(),
            final(self).spec_width() == old(self).spec_width(),
            final(self).spec_height() == old(self).spec_height(),
            forall|xx: int, yy: int|
                old(self).in_bounds(xx, yy) ==> #[trigger] final(self).tile(xx, yy) == (
                if xx == x && (if ya <= yb {
                    ya <= yy <= yb
                } else {
                    yb <= yy <= ya
                }) {
                    Tile::spec_empty()
                } else {
                    old(self).tile(xx, yy)
                }),
    {
        let ghost m0 = *self;
        let lo: i32 = if ya <= yb { ya } else { yb };
        let hi: i32 = if ya <= yb { yb } else { ya };
        let mut y: i32 = lo;
        while y <= hi
            invariant
                self.wf(),
                self.spec_width() == m0.spec_width(),
                self.spec_height() == m0.spec_height(),
                m0.wf(),
                0 <= lo <= hi < m0.spec_height(),
                0 <= x < m0.spec_width(),
                lo <= y <= hi + 1,
                forall|xx: int, yy: int|
                    m0.in_bounds(xx, yy) ==> #[trigger] self.tile(xx, yy) == (
                    if xx == x && lo <= yy < y {
                        Tile::spec_empty()
                    } else {
                        m0.tile(xx, yy)
                    }),
            decreases hi + 1 - y,
        {
            self.set_tile(x, y, Tile::empty());
            y = y + 1;
        }
    }
}

} // verus!
