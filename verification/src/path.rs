use vstd::prelude::*;

use crate::grid::GameMap;

verus! {

/// Absolute difference of two integers.
pub open spec fn diff(a: int, b: int) -> int {
    if a >= b {
        a - b
    } else {
        b - a
    }
}

/// One flood-fill step: stay in place or move to an orthogonal neighbour.
pub open spec fn can_step(a: (int, int), b: (int, int)) -> bool {
    diff(a.0, b.0) + diff(a.1, b.1) <= 1
}

/// An in-bounds, passable tile.
pub open spec fn is_open(m: GameMap, p: (int, int)) -> bool {
    m.in_bounds(p.0, p.1) && !m.tile(p.0, p.1).blocked
}

/// A walk from `a` to `b` that only ever stands on open tiles and moves at
/// most one tile orthogonally per step.
pub open spec fn is_walk(m: GameMap, path: Seq<(int, int)>, a: (int, int), b: (int, int)) -> bool {
    &&& path.len() >= 1
    &&& path[0] == a
    &&& path[path.len() - 1] == b
    &&& forall|k: int| 0 <= k < path.len() ==> #[trigger] is_open(m, path[k])
    &&& forall|k: int| 0 <= k < path.len() - 1 ==> #[trigger] can_step(path[k], path[k + 1])
}

/// `b` can be reached from `a` by a flood fill over non-blocked tiles.
pub open spec fn reachable(m: GameMap, a: (int, int), b: (int, int)) -> bool {
    exists|path: Seq<(int, int)>| #[trigger] is_walk(m, path, a, b)
}

/// An open tile is reachable from itself.
pub proof fn lemma_reachable_refl(m: GameMap, a: (int, int))
    requires
        is_open(m, a),
    ensures
        reachable(m, a, a),
{
    let path: Seq<(int, int)> = seq![a];
    assert(path[0] == a);
    assert(is_walk(m, path, a, a));
}

/// Reachability composes across a shared waypoint.
pub proof fn lemma_reachable_trans(m: GameMap, a: (int, int), b: (int, int), c: (int, int))
    requires
        reachable(m, a, b),
        reachable(m, b, c),
    ensures
        reachable(m, a, c),
{
    let p1 = choose|p: Seq<(int, int)>| #[trigger] is_walk(m, p, a, b);
    let p2 = choose|p: Seq<(int, int)>| #[trigger] is_walk(m, p, b, c);
    let p = p1 + p2;
    assert forall|k: int| 0 <= k < p.len() implies #[trigger] is_open(m, p[k]) by {
        if k < p1.len() {
            assert(p[k] == p1[k]);
        } else {
            assert(p[k] == p2[k - p1.len()]);
        }
    }
    assert forall|k: int| 0 <= k < p.len() - 1 implies #[trigger] can_step(p[k], p[k + 1]) by {
        if k + 1 < p1.len() {
            assert(can_step(p1[k], p1[k + 1]));
            assert(p[k] == p1[k]);
            assert(p[k + 1] == p1[k + 1]);
        } else if k + 1 == p1.len() {
            assert(p[k] == p1[k]);
            assert(p[k] == b);
            assert(p[k + 1] == p2[0]);
        } else {
            assert(can_step(p2[k - p1.len()], p2[k - p1.len() + 1]));
            assert(p[k] == p2[k - p1.len()]);
            assert(p[k + 1] == p2[k + 1 - p1.len()]);
        }
    }
    assert(p[0] == p1[0]);
    assert(p[p.len() - 1] == p2[p2.len() - 1]);
    assert(is_walk(m, p, a, c));
}

/// Opening more tiles never severs reachability: any walk that existed
/// before still exists afterwards.
pub proof fn lemma_reachable_preserved(m1: GameMap, m2: GameMap, a: (int, int), b: (int, int))
    requires
        m1.spec_width() == m2.spec_width(),
        m1.spec_height() == m2.spec_height(),
        forall|x: int, y: int|
            m1.in_bounds(x, y) && !m1.tile(x, y).blocked ==> !(#[trigger] m2.tile(x, y)).blocked,
        reachable(m1, a, b),
    ensures
        reachable(m2, a, b),
{
    let p = choose|q: Seq<(int, int)>| #[trigger] is_walk(m1, q, a, b);
    assert forall|k: int| 0 <= k < p.len() implies #[trigger] is_open(m2, p[k]) by {
        assert(is_open(m1, p[k]));
    }
    assert(is_walk(m2, p, a, b));
}

/// A row of open tiles carries a walk between its two ends.
pub proof fn lemma_row_walk(m: GameMap, xa: int, xb: int, y: int)
    requires
        forall|x: int|
            (if xa <= xb {
                xa <= x <= xb
            } else {
                xb <= x <= xa
            }) ==> #[trigger] is_open(m, (x, y)),
    ensures
        reachable(m, (xa, y), (xb, y)),
    decreases diff(xa, xb),
{
    if xa == xb {
        lemma_reachable_refl(m, (xa, y));
    } else {
        let step: int = if xb > xa {
            1
        } else {
            -1
        };
        lemma_row_walk(m, xa + step, xb, y);
        let p = choose|q: Seq<(int, int)>| #[trigger] is_walk(m, q, (xa + step, y), (xb, y));
        let q = seq![(xa, y)] + p;
        assert forall|k: int| 0 <= k < q.len() implies #[trigger] is_open(m, q[k]) by {
            if k == 0 {
                assert(q[k] == (xa, y));
            } else {
                assert(q[k] == p[k - 1]);
            }
        }
        assert forall|k: int| 0 <= k < q.len() - 1 implies #[trigger] can_step(q[k], q[k + 1]) by {
            if k == 0 {
                assert(q[0] == (xa, y));
                assert(q[1] == p[0]);
            } else {
                let j = k - 1;
                assert(can_step(p[j], p[j + 1]));
                assert(q[k] == p[j]);
                assert(q[k + 1] == p[j + 1]);
            }
        }
        assert(q[0] == (xa, y));
        assert(q[q.len() - 1] == p[p.len() - 1]);
        assert(is_walk(m, q, (xa, y), (xb, y)));
    }
}

/// A column of open tiles carries a walk between its two ends.
pub proof fn lemma_column_walk(m: GameMap, ya: int, yb: int, x: int)
    requires
        forall|y: int|
            (if ya <= yb {
                ya <= y <= yb
            } else {
                yb <= y <= ya
            }) ==> #[trigger] is_open(m, (x, y)),
    ensures
        reachable(m, (x, ya), (x, yb)),
    decreases diff(ya, yb),
{
    if ya == yb {
        lemma_reachable_refl(m, (x, ya));
    } else {
        let step: int = if yb > ya {
            1
        } else {
            -1
        };
        lemma_column_walk(m, ya + step, yb, x);
        let p = choose|q: Seq<(int, int)>| #[trigger] is_walk(m, q, (x, ya + step), (x, yb));
        let q = seq![(x, ya)] + p;
        assert forall|k: int| 0 <= k < q.len() implies #[trigger] is_open(m, q[k]) by {
            if k == 0 {
                assert(q[k] == (x, ya));
            } else {
                assert(q[k] == p[k - 1]);
            }
        }
        assert forall|k: int| 0 <= k < q.len() - 1 implies #[trigger] can_step(q[k], q[k + 1]) by {
            if k == 0 {
                assert(q[0] == (x, ya));
                assert(q[1] == p[0]);
            } else {
                let j = k - 1;
                assert(can_step(p[j], p[j + 1]));
                assert(q[k] == p[j]);
                assert(q[k + 1] == p[j + 1]);
            }
        }
        assert(q[0] == (x, ya));
        assert(q[q.len() - 1] == p[p.len() - 1]);
        assert(is_walk(m, q, (x, ya), (x, yb)));
    }
}

} // verus!
