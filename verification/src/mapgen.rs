use vstd::prelude::*;

use crate::grid::GameMap;
use crate::path::{lemma_column_walk, lemma_reachable_preserved, lemma_reachable_refl,
    lemma_reachable_trans, lemma_row_walk, is_open, reachable};
use crate::rect::Rect;
use crate::rng::{rng_stream, RandomSource};
use crate::tile::{MapError, Tile};

verus! {

/// Configuration under which generation is attempted at all: a grid that
/// can be allocated, rooms of at least two tiles a side (so that every
/// room has a carved interior and an open center), and rooms that leave at
/// least one free column and row for placement.
pub open spec fn spec_valid_config(width: i32, height: i32, min_size: i32, max_size: i32) -> bool {
    &&& GameMap::spec_valid_dims(width, height)
    &&& 2 <= min_size
    &&& min_size <= max_size
    &&& max_size < width
    &&& max_size < height
}

/// An accepted room fits strictly inside the grid and respects the size
/// bounds.
pub open spec fn room_fits(r: Rect, width: int, height: int, min_size: int, max_size: int) -> bool {
    &&& 0 <= r.x1
    &&& 0 <= r.y1
    &&& r.x2 < width
    &&& r.y2 < height
    &&& min_size <= r.x2 - r.x1 <= max_size
    &&& min_size <= r.y2 - r.y1 <= max_size
}

/// Every accepted room's interior is fully carved to open floor.
pub open spec fn rooms_carved(m: GameMap, rooms: Seq<Rect>) -> bool {
    forall|i: int, x: int, y: int|
        #![trigger rooms[i].spec_interior(x, y), m.tile(x, y)]
        0 <= i < rooms.len() && rooms[i].spec_interior(x, y) ==> m.tile(x, y)
            == Tile::spec_empty()
}

/// No later room overlaps an earlier one under the placement engine's
/// overlap test.
pub open spec fn rooms_disjoint(rooms: Seq<Rect>) -> bool {
    forall|i: int, j: int|
        #![trigger rooms[i].spec_overlaps(rooms[j])]
        0 <= j < i < rooms.len() ==> !rooms[i].spec_overlaps(rooms[j])
}

/// The center of every accepted room is reachable from the first room's
/// center over non-blocked tiles.
pub open spec fn rooms_connected(m: GameMap, rooms: Seq<Rect>) -> bool {
    forall|i: int|
        0 <= i < rooms.len() ==> reachable(
            m,
            rooms[0].spec_center(),
            (#[trigger] rooms[i]).spec_center(),
        )
}

/// `m2` is `m1` with some tiles (possibly none) carved to open floor, and
/// nothing else changed.
pub open spec fn only_carved(m1: GameMap, m2: GameMap) -> bool {
    &&& m1.spec_width() == m2.spec_width()
    &&& m1.spec_height() == m2.spec_height()
    &&& forall|x: int, y: int|
        m1.in_bounds(x, y) ==> (#[trigger] m2.tile(x, y) == m1.tile(x, y) || m2.tile(x, y)
            == Tile::spec_empty())
}

proof fn lemma_only_carved_trans(a: GameMap, b: GameMap, c: GameMap)
    requires
        only_carved(a, b),
        only_carved(b, c),
    ensures
        only_carved(a, c),
{
    assert forall|x: int, y: int| a.in_bounds(x, y) implies (#[trigger] c.tile(x, y) == a.tile(
        x,
        y,
    ) || c.tile(x, y) == Tile::spec_empty()) by {
        assert(b.tile(x, y) == a.tile(x, y) || b.tile(x, y) == Tile::spec_empty());
        assert(c.tile(x, y) == b.tile(x, y) || c.tile(x, y) == Tile::spec_empty());
    }
}

/// Carving more tiles keeps every already carved room interior open.
proof fn lemma_carved_stay(m1: GameMap, m2: GameMap, rooms: Seq<Rect>, width: int, height: int, min_size: int, max_size: int)
    requires
        rooms_carved(m1, rooms),
        only_carved(m1, m2),
        m1.spec_width() == width,
        m1.spec_height() == height,
        forall|i: int| 0 <= i < rooms.len() ==> room_fits(#[trigger] rooms[i], width, height, min_size, max_size),
    ensures
        rooms_carved(m2, rooms),
{
    assert forall|i: int, x: int, y: int|
        #![trigger rooms[i].spec_interior(x, y), m2.tile(x, y)]
        0 <= i < rooms.len() && rooms[i].spec_interior(x, y) implies m2.tile(x, y)
        == Tile::spec_empty() by {
        assert(room_fits(rooms[i], width, height, min_size, max_size));
        assert(m1.in_bounds(x, y));
        assert(m1.tile(x, y) == Tile::spec_empty());
    }
}

/// Carving more tiles keeps every room center connected.
proof fn lemma_connected_stay(m1: GameMap, m2: GameMap, rooms: Seq<Rect>)
    requires
        rooms_connected(m1, rooms),
        only_carved(m1, m2),
    ensures
        rooms_connected(m2, rooms),
{
    assert forall|i: int| 0 <= i < rooms.len() implies reachable(
        m2,
        rooms[0].spec_center(),
        (#[trigger] rooms[i]).spec_center(),
    ) by {
        assert(reachable(m1, rooms[0].spec_center(), rooms[i].spec_center()));
        assert forall|x: int, y: int|
            m1.in_bounds(x, y) && !m1.tile(x, y).blocked implies !(#[trigger] m2.tile(
            x,
            y,
        )).blocked by {
            assert(m2.tile(x, y) == m1.tile(x, y) || m2.tile(x, y) == Tile::spec_empty());
        }
        lemma_reachable_preserved(m1, m2, rooms[0].spec_center(), rooms[i].spec_center());
    }
}

/// The center of a room at least two tiles wide and high lies strictly in
/// its interior.
proof fn lemma_center_interior(r: Rect)
    requires
        0 <= r.x1,
        0 <= r.y1,
        r.x2 - r.x1 >= 2,
        r.y2 - r.y1 >= 2,
    ensures
        r.spec_interior(r.spec_center().0, r.spec_center().1),
{
    let cx = (r.x1 + r.x2) / 2;
    let cy = (r.y1 + r.y2) / 2;
    vstd::arithmetic::div_mod::lemma_fundamental_div_mod(r.x1 + r.x2, 2);
    vstd::arithmetic::div_mod::lemma_fundamental_div_mod(r.y1 + r.y2, 2);
    assert(r.x1 < cx < r.x2);
    assert(r.y1 < cy < r.y2);
}

/// The dungeon that a configuration and a seed fully determine: the
/// abstract loop run for `max_rooms` attempts on an all-wall grid with a
/// fresh random source. Generation is deterministic: its result equals
/// this model, whatever run produced it.
pub open spec fn dungeon_model(
    width: i32,
    height: i32,
    max_rooms: u32,
    min_size: i32,
    max_size: i32,
    seed: u64,
) -> GenModel {
    gen_model(
        GenModel {
            drawn: 0,
            rooms: Seq::empty(),
            tiles: Map::new(
                |p: (int, int)| 0 <= p.0 < width && 0 <= p.1 < height,
                |p: (int, int)| Tile::spec_wall(),
            ),
        },
        seed,
        width as int,
        height as int,
        min_size as int,
        max_size as int,
        max_rooms as int,
    )
}

/// The abstract loop state that a starting grid, a random source
/// position and a configuration determine after `k` attempts.
pub open spec fn place_model(m: GameMap, drawn: nat, seed: u64, min_size: int, max_size: int, k: int) -> GenModel {
    gen_model(gen_init(m, drawn), seed, m.spec_width(), m.spec_height(), min_size, max_size, k)
}

/// The result of generation: the carved grid, the accepted rooms in
/// placement order, and the spawn point (the first room's center).
pub struct Dungeon {
    pub map: GameMap,
    pub rooms: Vec<Rect>,
    pub spawn: Option<(i32, i32)>,
}

/// Rejection-sampling room placement. Attempts exactly `max_rooms`
/// candidates; a candidate overlapping an accepted room is discarded, an
/// accepted one is carved and connected to the previously accepted room by
/// an L-shaped corridor.
#[verifier::rlimit(100)]
pub fn place(
    map: &mut GameMap,
    rng: &mut RandomSource,
    max_rooms: u32,
    min_size: i32,
    max_size: i32,
) -> (r: (Vec<Rect>, Option<(i32, i32)>))
    requires
        old(map).wf(),
        2 <= min_size,
        min_size <= max_size,
        max_size < old(map).spec_width(),
        max_size < old(map).spec_height(),
    ensures
        final(map).wf(),
        only_carved(*old(map), *final(map)),
        r.0@.len() <= max_rooms,
        max_rooms > 0 ==> r.0@.len() >= 1,
        forall|i: int|
            0 <= i < r.0@.len() ==> room_fits(
                #[trigger] r.0@[i],
                old(map).spec_width(),
                old(map).spec_height(),
                min_size as int,
                max_size as int,
            ),
        rooms_carved(*final(map), r.0@),
        rooms_disjoint(r.0@),
        rooms_connected(*final(map), r.0@),
        final(rng).spec_seed() == old(rng).spec_seed(),
        final(rng).spec_drawn() == place_model(
            *old(map),
            old(rng).spec_drawn(),
            old(rng).spec_seed(),
            min_size as int,
            max_size as int,
            max_rooms as int,
        ).drawn,
        r.0@ == place_model(
            *old(map),
            old(rng).spec_drawn(),
            old(rng).spec_seed(),
            min_size as int,
            max_size as int,
            max_rooms as int,
        ).rooms,
        forall|x: int, y: int|
            old(map).in_bounds(x, y) ==> #[trigger] final(map).tile(x, y) == place_model(
                *old(map),
                old(rng).spec_drawn(),
                old(rng).spec_seed(),
                min_size as int,
                max_size as int,
                max_rooms as int,
            ).tiles[(x, y)],
        match r.1 {
            Some(c) => r.0@.len() > 0 && c.0 == r.0@[0].spec_center().0 && c.1
                == r.0@[0].spec_center().1,
            None => r.0@.len() == 0,
        },
{
    let ghost m0 = *map;
    let ghost seed0: u64 = rng.spec_seed();
    let ghost drawn0: nat = rng.spec_drawn();
    let ghost g0 = gen_init(m0, drawn0);
    let width: i32 = map.width();
    let height: i32 = map.height();
    let mut rooms: Vec<Rect> = Vec::new();
    proof {
        assert(rooms@ =~= Seq::<Rect>::empty());
    }
    let mut spawn: Option<(i32, i32)> = None;
    let mut attempt: u32 = 0;
    while attempt < max_rooms
        invariant
            map.wf(),
            m0.wf(),
            only_carved(m0, *map),
            width == m0.spec_width(),
            height == m0.spec_height(),
            2 <= min_size,
            min_size <= max_size,
            max_size < width,
            max_size < height,
            attempt <= max_rooms,
            g0 == gen_init(m0, drawn0),
            rng.spec_seed() == seed0,
            rng.spec_drawn() == gen_model(
                g0,
                seed0,
                width as int,
                height as int,
                min_size as int,
                max_size as int,
                attempt as int,
            ).drawn,
            rooms@ == gen_model(
                g0,
                seed0,
                width as int,
                height as int,
                min_size as int,
                max_size as int,
                attempt as int,
            ).rooms,
            forall|xx: int, yy: int|
                m0.in_bounds(xx, yy) ==> #[trigger] map.tile(xx, yy) == gen_model(
                    g0,
                    seed0,
                    width as int,
                    height as int,
                    min_size as int,
                    max_size as int,
                    attempt as int,
                ).tiles[(xx, yy)],
            rooms@.len() <= attempt,
            attempt > 0 ==> rooms@.len() >= 1,
            forall|i: int|
                0 <= i < rooms@.len() ==> room_fits(
                    #[trigger] rooms@[i],
                    width as int,
                    height as int,
                    min_size as int,
                    max_size as int,
                ),
            rooms_carved(*map, rooms@),
            rooms_disjoint(rooms@),
            rooms_connected(*map, rooms@),
            match spawn {
                Some(c) => rooms@.len() > 0 && c.0 == rooms@[0].spec_center().0 && c.1
                    == rooms@[0].spec_center().1,
                None => rooms@.len() == 0,
            },
        decreases max_rooms - attempt,
    {
        let ghost g = gen_model(
            g0,
            seed0,
            width as int,
            height as int,
            min_size as int,
            max_size as int,
            attempt as int,
        );
        let ghost gnext = gen_model(
            g0,
            seed0,
            width as int,
            height as int,
            min_size as int,
            max_size as int,
            attempt as int + 1,
        );
        proof {
            lemma_gen_model_dom(
                g0,
                seed0,
                width as int,
                height as int,
                min_size as int,
                max_size as int,
                attempt as int,
            );
        }
        let ghost span: int = max_size as int + 1 - min_size as int;
        let ghost mw: int = min_size as int + rng_stream(seed0, g.drawn) as int % span;
        let ghost mh: int = min_size as int + rng_stream(seed0, (g.drawn + 1) as nat) as int
            % span;
        let ghost mx: int = rng_stream(seed0, (g.drawn + 2) as nat) as int % (width as int - mw);
        let ghost my: int = rng_stream(seed0, (g.drawn + 3) as nat) as int % (height as int - mh);
        let ghost mrect: Rect = (Rect {
            x1: mx as i32,
            y1: my as i32,
            x2: (mx + mw) as i32,
            y2: (my + mh) as i32,
        });
        let w: i32 = rng.range(min_size, max_size + 1);
        let h: i32 = rng.range(min_size, max_size + 1);
        let x: i32 = rng.range(0, width - w);
        let y: i32 = rng.range(0, height - h);
        let new_room = Rect::new(x, y, w, h);
        proof {
            assert(w == mw);
            assert(h == mh);
            assert(x == mx);
            assert(y == my);
            assert(new_room == mrect);
            assert(gnext == gen_step(
                g,
                seed0,
                width as int,
                height as int,
                min_size as int,
                max_size as int,
            ));
        }

        let mut failed = false;
        let mut i: usize = 0;
        while i < rooms.len()
            invariant
                i <= rooms@.len(),
                failed ==> rooms@.len() > 0,
                failed == any_overlap(new_room, rooms@, i as int),
                !failed ==> forall|j: int|
                    0 <= j < i ==> !new_room.spec_overlaps(#[trigger] rooms@[j]),
            decreases rooms@.len() - i,
        {
            if new_room.intersects_with(&rooms[i]) {
                failed = true;
                proof {
                    assert(new_room.spec_overlaps(rooms@[i as int]));
                }
            }
            proof {
                if any_overlap(new_room, rooms@, i as int) {
                    let j = choose|j: int|
                        0 <= j < i as int && new_room.spec_overlaps(#[trigger] rooms@[j]);
                    assert(0 <= j < i as int + 1 && new_room.spec_overlaps(rooms@[j]));
                } else if any_overlap(new_room, rooms@, i as int + 1) {
                    let j = choose|j: int|
                        0 <= j < i as int + 1 && new_room.spec_overlaps(#[trigger] rooms@[j]);
                    assert(j == i as int);
                }
            }
            i = i + 1;
        }

        if !failed {
            let ghost m_before = *map;
            map.carve_room(new_room);
            let ghost m_room = *map;
            proof {
                assert(only_carved(m_before, m_room));
                lemma_only_carved_trans(m0, m_before, m_room);
                lemma_carved_stay(
                    m_before,
                    m_room,
                    rooms@,
                    width as int,
                    height as int,
                    min_size as int,
                    max_size as int,
                );
                lemma_connected_stay(m_before, m_room, rooms@);
                lemma_center_interior(new_room);
            }
            let center = new_room.center();
            let new_cx = center.0;
            let new_cy = center.1;

            if rooms.len() == 0 {
                spawn = Some((new_cx, new_cy));
                proof {
                    assert(map.tile(new_cx as int, new_cy as int) == Tile::spec_empty());
                    lemma_reachable_refl(*map, (new_cx as int, new_cy as int));
                    assert(rng.spec_drawn() == gnext.drawn);
                    assert forall|xx: int, yy: int| m0.in_bounds(xx, yy) implies #[trigger]
                        map.tile(xx, yy) == gnext.tiles[(xx, yy)] by {
                        assert(g.tiles.dom().contains((xx, yy)));
                        assert(m_before.tile(xx, yy) == g.tiles[(xx, yy)]);
                        assert(m_room.tile(xx, yy) == carve_room_tiles(g.tiles, new_room)[
                            (xx, yy)
                        ]);
                    }
                }
            } else {
                let prev = rooms[rooms.len() - 1];
                let prev_center = prev.center();
                let prev_cx = prev_center.0;
                let prev_cy = prev_center.1;
                proof {
                    lemma_center_interior(prev);
                }
                if rng.flip() {
                    // first horizontally at the previous center's row,
                    // then vertically at the new center's column
                    let ghost m_a = *map;
                    map.carve_h_tunnel(prev_cx, new_cx, prev_cy);
                    let ghost m_b = *map;
                    map.carve_v_tunnel(prev_cy, new_cy, new_cx);
                    let ghost m_c = *map;
                    proof {
                        assert(only_carved(m_a, m_b));
                        assert(only_carved(m_b, m_c));
                        lemma_only_carved_trans(m_a, m_b, m_c);
                        lemma_only_carved_trans(m0, m_a, m_c);
                        lemma_carved_stay(
                            m_a,
                            m_c,
                            rooms@,
                            width as int,
                            height as int,
                            min_size as int,
                            max_size as int,
                        );
                        lemma_connected_stay(m_a, m_c, rooms@);
                        // the horizontal leg is open in the final state
                        assert forall|xx: int|
                            (if prev_cx as int <= new_cx as int {
                                prev_cx as int <= xx <= new_cx as int
                            } else {
                                new_cx as int <= xx <= prev_cx as int
                            }) implies #[trigger] is_open(m_c, (xx, prev_cy as int)) by {
                            assert(m_b.tile(xx, prev_cy as int) == Tile::spec_empty());
                            assert(m_c.tile(xx, prev_cy as int) == m_b.tile(xx, prev_cy as int)
                                || m_c.tile(xx, prev_cy as int) == Tile::spec_empty());
                        }
                        lemma_row_walk(m_c, prev_cx as int, new_cx as int, prev_cy as int);
                        // the vertical leg is open in the final state
                        assert forall|yy: int|
                            (if prev_cy as int <= new_cy as int {
                                prev_cy as int <= yy <= new_cy as int
                            } else {
                                new_cy as int <= yy <= prev_cy as int
                            }) implies #[trigger] is_open(m_c, (new_cx as int, yy)) by {
                            assert(m_c.tile(new_cx as int, yy) == Tile::spec_empty());
                        }
                        lemma_column_walk(m_c, prev_cy as int, new_cy as int, new_cx as int);
                        lemma_reachable_trans(
                            m_c,
                            (prev_cx as int, prev_cy as int),
                            (new_cx as int, prev_cy as int),
                            (new_cx as int, new_cy as int),
                        );
                        assert(g.rooms.last() == g.rooms[g.rooms.len() - 1]);
                        assert(prev == g.rooms.last());
                        assert(prev_cx as int == g.rooms.last().spec_center().0);
                        assert(prev_cy as int == g.rooms.last().spec_center().1);
                        assert(new_cx as int == mrect.spec_center().0);
                        assert(new_cy as int == mrect.spec_center().1);
                        assert(rng.spec_drawn() == gnext.drawn);
                        assert forall|xx: int, yy: int| m0.in_bounds(xx, yy) implies #[trigger]
                            map.tile(xx, yy) == gnext.tiles[(xx, yy)] by {
                            let carved = carve_room_tiles(g.tiles, new_room);
                            let legged = carve_h_tiles(
                                carved,
                                prev_cx as int,
                                new_cx as int,
                                prev_cy as int,
                            );
                            let full = carve_v_tiles(
                                legged,
                                prev_cy as int,
                                new_cy as int,
                                new_cx as int,
                            );
                            assert(g.tiles.dom().contains((xx, yy)));
                            assert(carved.dom().contains((xx, yy)));
                            assert(legged.dom().contains((xx, yy)));
                            assert(full.dom().contains((xx, yy)));
                            assert(m_before.tile(xx, yy) == g.tiles[(xx, yy)]);
                            assert(m_a.tile(xx, yy) == carved[(xx, yy)]);
                            assert(m_b.tile(xx, yy) == legged[(xx, yy)]);
                            assert(m_c.tile(xx, yy) == full[(xx, yy)]);
                            assert(gnext.tiles[(xx, yy)] == full[(xx, yy)]);
                        }
                    }
                } else {
                    // first vertically at the previous center's column,
                    // then horizontally at the new center's row
                    let ghost m_a = *map;
                    map.carve_v_tunnel(prev_cy, new_cy, prev_cx);
                    let ghost m_b = *map;
                    map.carve_h_tunnel(prev_cx, new_cx, new_cy);
                    let ghost m_c = *map;
                    proof {
                        assert(only_carved(m_a, m_b));
                        assert(only_carved(m_b, m_c));
                        lemma_only_carved_trans(m_a, m_b, m_c);
                        lemma_only_carved_trans(m0, m_a, m_c);
                        lemma_carved_stay(
                            m_a,
                            m_c,
                            rooms@,
                            width as int,
                            height as int,
                            min_size as int,
                            max_size as int,
                        );
                        lemma_connected_stay(m_a, m_c, rooms@);
                        // the vertical leg is open in the final state
                        assert forall|yy: int|
                            (if prev_cy as int <= new_cy as int {
                                prev_cy as int <= yy <= new_cy as int
                            } else {
                                new_cy as int <= yy <= prev_cy as int
                            }) implies #[trigger] is_open(m_c, (prev_cx as int, yy)) by {
                            assert(m_b.tile(prev_cx as int, yy) == Tile::spec_empty());
                            assert(m_c.tile(prev_cx as int, yy) == m_b.tile(prev_cx as int, yy)
                                || m_c.tile(prev_cx as int, yy) == Tile::spec_empty());
                        }
                        lemma_column_walk(m_c, prev_cy as int, new_cy as int, prev_cx as int);
                        // the horizontal leg is open in the final state
                        assert forall|xx: int|
                            (if prev_cx as int <= new_cx as int {
                                prev_cx as int <= xx <= new_cx as int
                            } else {
                                new_cx as int <= xx <= prev_cx as int
                            }) implies #[trigger] is_open(m_c, (xx, new_cy as int)) by {
                            assert(m_c.tile(xx, new_cy as int) == Tile::spec_empty());
                        }
                        lemma_row_walk(m_c, prev_cx as int, new_cx as int, new_cy as int);
                        lemma_reachable_trans(
                            m_c,
                            (prev_cx as int, prev_cy as int),
                            (prev_cx as int, new_cy as int),
                            (new_cx as int, new_cy as int),
                        );
                        assert(g.rooms.last() == g.rooms[g.rooms.len() - 1]);
                        assert(prev == g.rooms.last());
                        assert(prev_cx as int == g.rooms.last().spec_center().0);
                        assert(prev_cy as int == g.rooms.last().spec_center().1);
                        assert(new_cx as int == mrect.spec_center().0);
                        assert(new_cy as int == mrect.spec_center().1);
                        assert(rng.spec_drawn() == gnext.drawn);
                        assert forall|xx: int, yy: int| m0.in_bounds(xx, yy) implies #[trigger]
                            map.tile(xx, yy) == gnext.tiles[(xx, yy)] by {
                            let carved = carve_room_tiles(g.tiles, new_room);
                            let legged = carve_v_tiles(
                                carved,
                                prev_cy as int,
                                new_cy as int,
                                prev_cx as int,
                            );
                            let full = carve_h_tiles(
                                legged,
                                prev_cx as int,
                                new_cx as int,
                                new_cy as int,
                            );
                            assert(g.tiles.dom().contains((xx, yy)));
                            assert(carved.dom().contains((xx, yy)));
                            assert(legged.dom().contains((xx, yy)));
                            assert(full.dom().contains((xx, yy)));
                            assert(m_before.tile(xx, yy) == g.tiles[(xx, yy)]);
                            assert(m_a.tile(xx, yy) == carved[(xx, yy)]);
                            assert(m_b.tile(xx, yy) == legged[(xx, yy)]);
                            assert(m_c.tile(xx, yy) == full[(xx, yy)]);
                            assert(gnext.tiles[(xx, yy)] == full[(xx, yy)]);
                        }
                    }
                }
                proof {
                    // the previously accepted room's center is still
                    // connected to the first, and now to the new center
                    let ghost last = rooms@.len() - 1;
                    assert(reachable(
                        *map,
                        rooms@[0].spec_center(),
                        rooms@[last].spec_center(),
                    ));
                    lemma_reachable_trans(
                        *map,
                        rooms@[0].spec_center(),
                        rooms@[last].spec_center(),
                        (new_cx as int, new_cy as int),
                    );
                }
            }
            let ghost rooms_before = rooms@;
            rooms.push(new_room);
            proof {
                assert(rooms@ == rooms_before.push(new_room));
                assert forall|i: int, xq: int, yq: int|
                    #![trigger rooms@[i].spec_interior(xq, yq), map.tile(xq, yq)]
                    0 <= i < rooms@.len() && rooms@[i].spec_interior(xq, yq) implies map.tile(
                    xq,
                    yq,
                ) == Tile::spec_empty() by {
                    if i < rooms_before.len() {
                        assert(rooms@[i] == rooms_before[i]);
                        assert(rooms_before[i].spec_interior(xq, yq));
                    } else {
                        assert(rooms@[i] == new_room);
                    }
                }
                assert forall|i: int, j: int|
                    #![trigger rooms@[i].spec_overlaps(rooms@[j])]
                    0 <= j < i < rooms@.len() implies !rooms@[i].spec_overlaps(rooms@[j]) by {
                    if i < rooms_before.len() {
                        assert(rooms@[i] == rooms_before[i]);
                        assert(rooms@[j] == rooms_before[j]);
                        assert(!rooms_before[i].spec_overlaps(rooms_before[j]));
                    } else {
                        assert(rooms@[i] == new_room);
                        assert(rooms@[j] == rooms_before[j]);
                    }
                }
                assert forall|i: int| 0 <= i < rooms@.len() implies reachable(
                    *map,
                    rooms@[0].spec_center(),
                    (#[trigger] rooms@[i]).spec_center(),
                ) by {
                    if rooms_before.len() == 0 {
                        assert(rooms@[i] == new_room);
                    } else {
                        assert(rooms@[0] == rooms_before[0]);
                        if i < rooms_before.len() {
                            assert(rooms@[i] == rooms_before[i]);
                            assert(reachable(
                                *map,
                                rooms_before[0].spec_center(),
                                rooms_before[i].spec_center(),
                            ));
                        } else {
                            assert(rooms@[i] == new_room);
                        }
                    }
                }
            }
            proof {
                assert(rooms@ == gnext.rooms);
            }
        } else {
            proof {
                assert(rng.spec_drawn() == gnext.drawn);
                assert(rooms@ == gnext.rooms);
                assert forall|xx: int, yy: int| m0.in_bounds(xx, yy) implies #[trigger] map.tile(
                    xx,
                    yy,
                ) == gnext.tiles[(xx, yy)] by {
                    assert(map.tile(xx, yy) == g.tiles[(xx, yy)]);
                }
            }
        }
        attempt = attempt + 1;
    }
    (rooms, spawn)
}

/// Builds a wall-filled grid, places and connects rooms from a seeded
/// random source, and returns the grid, the accepted rooms and the spawn
/// point. Two calls with the same arguments draw the same stream and
/// build the same dungeon.
pub fn generate_map(
    width: i32,
    height: i32,
    max_rooms: u32,
    min_size: i32,
    max_size: i32,
    seed: u64,
) -> (r: Result<Dungeon, MapError>)
    ensures
        match r {
            Ok(d) => {
                &&& spec_valid_config(width, height, min_size, max_size)
                &&& d.map.wf()
                &&& d.map.spec_width() == width
                &&& d.map.spec_height() == height
                &&& d.rooms@.len() <= max_rooms
                &&& max_rooms > 0 ==> d.rooms@.len() >= 1
                &&& forall|i: int|
                    0 <= i < d.rooms@.len() ==> room_fits(
                        #[trigger] d.rooms@[i],
                        width as int,
                        height as int,
                        min_size as int,
                        max_size as int,
                    )
                &&& rooms_carved(d.map, d.rooms@)
                &&& rooms_disjoint(d.rooms@)
                &&& rooms_connected(d.map, d.rooms@)
                &&& d.rooms@ == dungeon_model(
                    width,
                    height,
                    max_rooms,
                    min_size,
                    max_size,
                    seed,
                ).rooms
                &&& forall|x: int, y: int|
                    d.map.in_bounds(x, y) ==> #[trigger] d.map.tile(x, y) == dungeon_model(
                        width,
                        height,
                        max_rooms,
                        min_size,
                        max_size,
                        seed,
                    ).tiles[(x, y)]
                &&& forall|x: int, y: int|
                    d.map.in_bounds(x, y) ==> (#[trigger] d.map.tile(x, y) == Tile::spec_wall()
                        || d.map.tile(x, y) == Tile::spec_empty())
                &&& match d.spawn {
                    Some(c) => d.rooms@.len() > 0 && c.0 == d.rooms@[0].spec_center().0 && c.1
                        == d.rooms@[0].spec_center().1,
                    None => d.rooms@.len() == 0,
                }
            },
            Err(e) => {
                &&& e == MapError::InvalidConfiguration
                &&& !spec_valid_config(width, height, min_size, max_size)
            },
        },
{
    if min_size < 2 || max_size < min_size || max_size >= width || max_size >= height {
        return Err(MapError::InvalidConfiguration);
    }
    let mut map = match GameMap::new(width, height) {
        Ok(m) => m,
        Err(e) => {
            return Err(e);
        },
    };
    let ghost m_fresh = map;
    let mut rng = RandomSource::new(seed);
    proof {
        let walls = Map::new(
            |p: (int, int)| 0 <= p.0 < width && 0 <= p.1 < height,
            |p: (int, int)| Tile::spec_wall(),
        );
        assert(gen_init(m_fresh, 0).tiles =~= walls);
        assert(gen_init(m_fresh, 0).rooms =~= Seq::<Rect>::empty());
        assert(gen_init(m_fresh, 0) == (GenModel { drawn: 0 as nat, rooms: Seq::empty(), tiles: walls }));
    }
    let result = place(&mut map, &mut rng, max_rooms, min_size, max_size);
    let (rooms, spawn) = result;
    proof {
        assert forall|x: int, y: int| map.in_bounds(x, y) implies (#[trigger] map.tile(x, y)
            == Tile::spec_wall() || map.tile(x, y) == Tile::spec_empty()) by {
            assert(m_fresh.tile(x, y) == Tile::spec_wall());
            assert(map.tile(x, y) == m_fresh.tile(x, y) || map.tile(x, y)
                == Tile::spec_empty());
        }
    }
    Ok(Dungeon { map, rooms, spawn })
}

/// The abstract state of the placement loop: how many raw words the
/// random source has handed out, the accepted rooms, and the tiles.
pub struct GenModel {
    pub drawn: nat,
    pub rooms: Seq<Rect>,
    pub tiles: Map<(int, int), Tile>,
}

/// Room carving on the abstract tile map.
pub open spec fn carve_room_tiles(t: Map<(int, int), Tile>, r: Rect) -> Map<(int, int), Tile> {
    Map::new(
        |p: (int, int)| t.dom().contains(p),
        |p: (int, int)|
            if r.spec_interior(p.0, p.1) {
                Tile::spec_empty()
            } else {
                t[p]
            },
    )
}

/// Horizontal corridor carving on the abstract tile map.
pub open spec fn carve_h_tiles(t: Map<(int, int), Tile>, xa: int, xb: int, y: int) -> Map<
    (int, int),
    Tile,
> {
    Map::new(
        |p: (int, int)| t.dom().contains(p),
        |p: (int, int)|
            if p.1 == y && (if xa <= xb {
                xa <= p.0 <= xb
            } else {
                xb <= p.0 <= xa
            }) {
                Tile::spec_empty()
            } else {
                t[p]
            },
    )
}

/// Vertical corridor carving on the abstract tile map.
pub open spec fn carve_v_tiles(t: Map<(int, int), Tile>, ya: int, yb: int, x: int) -> Map<
    (int, int),
    Tile,
> {
    Map::new(
        |p: (int, int)| t.dom().contains(p),
        |p: (int, int)|
            if p.0 == x && (if ya <= yb {
                ya <= p.1 <= yb
            } else {
                yb <= p.1 <= ya
            }) {
                Tile::spec_empty()
            } else {
                t[p]
            },
    )
}

/// Whether a candidate overlaps one of the first `upto` accepted rooms.
pub open spec fn any_overlap(r: Rect, rooms: Seq<Rect>, upto: int) -> bool {
    exists|j: int| 0 <= j < upto && r.spec_overlaps(#[trigger] rooms[j])
}

/// One placement attempt of the abstract loop: four draws shape and
/// position a candidate; an overlapping candidate is discarded; an
/// accepted one is carved, and any room after the first costs a fifth
/// draw, the coin that orders the two corridor legs.
pub open spec fn gen_step(
    g: GenModel,
    seed: u64,
    width: int,
    height: int,
    min_size: int,
    max_size: int,
) -> GenModel {
    let span = max_size + 1 - min_size;
    let w = min_size + rng_stream(seed, g.drawn) as int % span;
    let h = min_size + rng_stream(seed, (g.drawn + 1) as nat) as int % span;
    let x = rng_stream(seed, (g.drawn + 2) as nat) as int % (width - w);
    let y = rng_stream(seed, (g.drawn + 3) as nat) as int % (height - h);
    let rect = Rect { x1: x as i32, y1: y as i32, x2: (x + w) as i32, y2: (y + h) as i32 };
    if any_overlap(rect, g.rooms, g.rooms.len() as int) {
        GenModel { drawn: (g.drawn + 4) as nat, ..g }
    } else if g.rooms.len() == 0 {
        GenModel {
            drawn: (g.drawn + 4) as nat,
            rooms: g.rooms.push(rect),
            tiles: carve_room_tiles(g.tiles, rect),
        }
    } else {
        let coin = rng_stream(seed, (g.drawn + 4) as nat) % 2 == 0;
        let pc = g.rooms.last().spec_center();
        let nc = rect.spec_center();
        let carved = carve_room_tiles(g.tiles, rect);
        let tunnelled = if coin {
            carve_v_tiles(carve_h_tiles(carved, pc.0, nc.0, pc.1), pc.1, nc.1, nc.0)
        } else {
            carve_h_tiles(carve_v_tiles(carved, pc.1, nc.1, pc.0), pc.0, nc.0, nc.1)
        };
        GenModel { drawn: (g.drawn + 5) as nat, rooms: g.rooms.push(rect), tiles: tunnelled }
    }
}

/// The abstract loop state after `k` attempts.
pub open spec fn gen_model(
    g0: GenModel,
    seed: u64,
    width: int,
    height: int,
    min_size: int,
    max_size: int,
    k: int,
) -> GenModel
    decreases k,
{
    if k <= 0 {
        g0
    } else {
        gen_step(gen_model(g0, seed, width, height, min_size, max_size, k - 1), seed, width, height, min_size, max_size)
    }
}

/// The abstract state the placement loop starts from.
pub open spec fn gen_init(m: GameMap, drawn: nat) -> GenModel {
    GenModel {
        drawn,
        rooms: Seq::empty(),
        tiles: Map::new(
            |p: (int, int)| m.in_bounds(p.0, p.1),
            |p: (int, int)| m.tile(p.0, p.1),
        ),
    }
}

proof fn lemma_carve_room_dom(t: Map<(int, int), Tile>, r: Rect)
    ensures
        carve_room_tiles(t, r).dom() == t.dom(),
{
    assert(carve_room_tiles(t, r).dom() =~= t.dom());
}

proof fn lemma_carve_h_dom(t: Map<(int, int), Tile>, xa: int, xb: int, y: int)
    ensures
        carve_h_tiles(t, xa, xb, y).dom() == t.dom(),
{
    assert(carve_h_tiles(t, xa, xb, y).dom() =~= t.dom());
}

proof fn lemma_carve_v_dom(t: Map<(int, int), Tile>, ya: int, yb: int, x: int)
    ensures
        carve_v_tiles(t, ya, yb, x).dom() == t.dom(),
{
    assert(carve_v_tiles(t, ya, yb, x).dom() =~= t.dom());
}

/// The abstract loop never adds or removes tiles: its domain is the one
/// it started from.
proof fn lemma_gen_model_dom(
    g0: GenModel,
    seed: u64,
    width: int,
    height: int,
    min_size: int,
    max_size: int,
    k: int,
)
    ensures
        gen_model(g0, seed, width, height, min_size, max_size, k).tiles.dom() == g0.tiles.dom(),
    decreases k,
{
    if k > 0 {
        lemma_gen_model_dom(g0, seed, width, height, min_size, max_size, k - 1);
        let g = gen_model(g0, seed, width, height, min_size, max_size, k - 1);
        let span: int = max_size + 1 - min_size;
        let w: int = min_size + rng_stream(seed, g.drawn) as int % span;
        let h: int = min_size + rng_stream(seed, (g.drawn + 1) as nat) as int % span;
        let x: int = rng_stream(seed, (g.drawn + 2) as nat) as int % (width - w);
        let y: int = rng_stream(seed, (g.drawn + 3) as nat) as int % (height - h);
        let rect = (Rect { x1: x as i32, y1: y as i32, x2: (x + w) as i32, y2: (y + h) as i32 });
        if !any_overlap(rect, g.rooms, g.rooms.len() as int) {
            lemma_carve_room_dom(g.tiles, rect);
            if g.rooms.len() > 0 {
                let coin = rng_stream(seed, (g.drawn + 4) as nat) % 2 == 0;
                let pc = g.rooms.last().spec_center();
                let nc = rect.spec_center();
                let carved = carve_room_tiles(g.tiles, rect);
                if coin {
                    lemma_carve_h_dom(carved, pc.0, nc.0, pc.1);
                    lemma_carve_v_dom(carve_h_tiles(carved, pc.0, nc.0, pc.1), pc.1, nc.1, nc.0);
                } else {
                    lemma_carve_v_dom(carved, pc.1, nc.1, pc.0);
                    lemma_carve_h_dom(carve_v_tiles(carved, pc.1, nc.1, pc.0), pc.0, nc.0, nc.1);
                }
            }
        }
    }
}

} // verus!
