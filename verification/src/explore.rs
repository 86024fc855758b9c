use vstd::prelude::*;

use crate::fov::VisibilitySet;
use crate::grid::{lemma_dims_fit, GameMap};
use crate::tile::Tile;

verus! {

/// The three-tier rendering decision for one tile: seen right now,
/// remembered from an earlier look, or never seen at all.
#[derive(Clone, Copy, Debug, PartialEq, Eq, Structural)]
pub enum Tier {
    Lit,
    Remembered,
    Unknown,
}

pub open spec fn spec_tier(visible: bool, explored: bool) -> Tier {
    if visible {
        Tier::Lit
    } else if explored {
        Tier::Remembered
    } else {
        Tier::Unknown
    }
}

/// A tile visible now renders lit; one explored but currently dark
/// renders remembered; one never explored renders unknown.
pub fn tier(visible: bool, explored: bool) -> (t: Tier)
    ensures
        t == spec_tier(visible, explored),
{
    if visible {
        Tier::Lit
    } else if explored {
        Tier::Remembered
    } else {
        Tier::Unknown
    }
}

/// Merges the current visibility set into the grid's persistent
/// exploration memory: every visible tile becomes explored, no flag is
/// ever cleared, and no other tile attribute changes.
pub fn merge_visible(map: &mut GameMap, vis: &VisibilitySet)
    requires
        old(map).wf(),
        vis.wf(),
        vis.spec_width() == old(map).spec_width(),
        vis.spec_height() == old(map).spec_height(),
    ensures
        final(map).wf(),
        final(map).spec_width() == old(map).spec_width(),
        final(map).spec_height() == old(map).spec_height(),
        forall|x: int, y: int|
            old(map).in_bounds(x, y) ==> #[trigger] final(map).tile(x, y) == (Tile {
                explored: old(map).tile(x, y).explored || vis.spec_contains(x, y),
                ..old(map).tile(x, y)
            }),
{
    let ghost m0 = *map;
    let width: i32 = map.width();
    let height: i32 = map.height();
    proof {
        lemma_dims_fit(*map);
    }
    let mut x: i32 = 0;
    while x < width
        invariant
            map.wf(),
            m0.wf(),
            vis.wf(),
            width == m0.spec_width(),
            height == m0.spec_height(),
            map.spec_width() == width,
            map.spec_height() == height,
            vis.spec_width() == width,
            vis.spec_height() == height,
            0 < width,
            0 < height,
            0 <= x <= width,
            forall|xx: int, yy: int|
                m0.in_bounds(xx, yy) ==> #[trigger] map.tile(xx, yy) == (Tile {
                    explored: m0.tile(xx, yy).explored || (xx < x && vis.spec_contains(xx, yy)),
                    ..m0.tile(xx, yy)
                }),
        decreases width - x,
    {
        let mut y: i32 = 0;
        while y < height
            invariant
                map.wf(),
                m0.wf(),
                vis.wf(),
                width == m0.spec_width(),
                height == m0.spec_height(),
                map.spec_width() == width,
                map.spec_height() == height,
                vis.spec_width() == width,
                vis.spec_height() == height,
                0 < width,
                0 < height,
                0 <= x < width,
                0 <= y <= height,
                forall|xx: int, yy: int|
                    m0.in_bounds(xx, yy) ==> #[trigger] map.tile(xx, yy) == (Tile {
                        explored: m0.tile(xx, yy).explored || ((xx < x || (xx == x && yy < y))
                            && vis.spec_contains(xx, yy)),
                        ..m0.tile(xx, yy)
                    }),
            decreases height - y,
        {
            if vis.contains(x, y) {
                map.mark_explored(x, y);
            }
            y = y + 1;
        }
        x = x + 1;
    }
}

/// Exploration memory is monotone: merging a visibility set never clears
/// a tile's explored flag, so the explored set after a merge is a
/// superset of the explored set before it.
pub proof fn lemma_exploration_monotone(m0: GameMap, m1: GameMap, vis: VisibilitySet)
    requires
        m0.spec_width() == m1.spec_width(),
        m0.spec_height() == m1.spec_height(),
        forall|x: int, y: int|
            m0.in_bounds(x, y) ==> #[trigger] m1.tile(x, y) == (Tile {
                explored: m0.tile(x, y).explored || vis.spec_contains(x, y),
                ..m0.tile(x, y)
            }),
    ensures
        forall|x: int, y: int|
            m0.in_bounds(x, y) && m0.tile(x, y).explored ==> (#[trigger] m1.tile(x, y)).explored,
{
}

/// A merge adds exactly the visible tiles to the exploration memory: a
/// tile is explored afterwards if and only if it was explored before or
/// is currently visible.
pub proof fn lemma_exploration_union(m0: GameMap, m1: GameMap, vis: VisibilitySet)
    requires
        m0.spec_width() == m1.spec_width(),
        m0.spec_height() == m1.spec_height(),
        forall|x: int, y: int|
            m0.in_bounds(x, y) ==> #[trigger] m1.tile(x, y) == (Tile {
                explored: m0.tile(x, y).explored || vis.spec_contains(x, y),
                ..m0.tile(x, y)
            }),
    ensures
        forall|x: int, y: int|
            m0.in_bounds(x, y) ==> ((#[trigger] m1.tile(x, y)).explored == (m0.tile(
                x,
                y,
            ).explored || vis.spec_contains(x, y))),
{
}

} // verus!
