use dungeon_fov::fov::VisibilityEngine;
use dungeon_fov::grid::GameMap;
use dungeon_fov::rect::Rect;
use dungeon_fov::tile::MapError;

/// The fixed two-room map: rooms at (20,15) and (50,15), both 10 x 15,
/// joined by a horizontal tunnel at row 23.
fn two_room_map() -> GameMap {
    let mut m = GameMap::new(80, 45).unwrap();
    m.carve_room(Rect::new(20, 15, 10, 15));
    m.carve_room(Rect::new(50, 15, 10, 15));
    m.carve_h_tunnel(25, 55, 23);
    m
}

fn visible_tiles(e: &VisibilityEngine, w: i32, h: i32) -> Vec<(i32, i32)> {
    let mut out = Vec::new();
    for x in 0..w {
        for y in 0..h {
            if e.is_visible(x, y) {
                out.push((x, y));
            }
        }
    }
    out
}

#[test]
fn engine_rejects_bad_dimensions() {
    assert_eq!(VisibilityEngine::new(0, 5).err(), Some(MapError::InvalidConfiguration));
    assert!(VisibilityEngine::new(80, 45).is_ok());
}

#[test]
fn nothing_visible_before_first_recompute() {
    let e = VisibilityEngine::new(80, 45).unwrap();
    assert!(visible_tiles(&e, 80, 45).is_empty());
}

#[test]
fn radius_zero_sees_only_the_observer() {
    let m = two_room_map();
    let mut e = VisibilityEngine::new(80, 45).unwrap();
    e.recompute(&m, 25, 23, 0, false);
    assert_eq!(visible_tiles(&e, 80, 45), vec![(25, 23)]);
}

#[test]
fn unchanged_position_reuses_the_cached_set() {
    let m = two_room_map();
    let mut e = VisibilityEngine::new(80, 45).unwrap();
    e.recompute(&m, 25, 23, 10, true);
    let first = visible_tiles(&e, 80, 45);
    // same position: the cached set is reused verbatim, even though the
    // radius and the wall flag differ
    e.recompute(&m, 25, 23, 3, false);
    assert_eq!(visible_tiles(&e, 80, 45), first);
    e.recompute(&m, 25, 23, 10, true);
    assert_eq!(visible_tiles(&e, 80, 45), first);
}

#[test]
fn moving_the_observer_recomputes() {
    let m = two_room_map();
    let mut e = VisibilityEngine::new(80, 45).unwrap();
    e.recompute(&m, 25, 23, 6, false);
    let near_first_room = visible_tiles(&e, 80, 45);
    assert!(near_first_room.contains(&(25, 23)));
    e.recompute(&m, 55, 23, 6, false);
    let near_second_room = visible_tiles(&e, 80, 45);
    assert!(near_second_room.contains(&(55, 23)));
    assert_ne!(near_first_room, near_second_room);
}

#[test]
fn radius_limits_visibility() {
    let m = two_room_map();
    let mut e = VisibilityEngine::new(80, 45).unwrap();
    e.recompute(&m, 25, 23, 4, false);
    assert!(e.is_visible(29, 23));
    // on the open tunnel row, but beyond the radius
    assert!(!e.is_visible(30, 23));
}

#[test]
fn beyond_the_diagonal_only_occluders_matter() {
    let m = two_room_map();
    let mut a = VisibilityEngine::new(80, 45).unwrap();
    let mut b = VisibilityEngine::new(80, 45).unwrap();
    a.recompute(&m, 25, 23, 100, true);
    b.recompute(&m, 25, 23, 10_000, true);
    assert_eq!(visible_tiles(&a, 80, 45), visible_tiles(&b, 80, 45));
}

#[test]
fn opaque_tiles_stay_dark_without_wall_lighting() {
    let m = two_room_map();
    let mut e = VisibilityEngine::new(80, 45).unwrap();
    e.recompute(&m, 25, 23, 10, false);
    for x in 0..80 {
        for y in 0..45 {
            if m.tile_at(x, y).unwrap().block_sight {
                assert!(!e.is_visible(x, y));
            }
        }
    }
}

#[test]
fn lit_walls_face_visible_floor() {
    let m = two_room_map();
    let mut e = VisibilityEngine::new(80, 45).unwrap();
    e.recompute(&m, 25, 23, 10, true);
    // the first room's left border wall faces its lit floor
    assert!(m.tile_at(20, 23).unwrap().block_sight);
    assert!(e.is_visible(20, 23));
    // a far-away wall stays dark
    assert!(!e.is_visible(0, 0));
}

#[test]
fn an_opaque_gap_occludes_what_lies_behind_it() {
    let mut m = GameMap::new(11, 5).unwrap();
    m.carve_h_tunnel(1, 4, 2);
    m.carve_h_tunnel(6, 9, 2);
    // (5, 2) stays a wall between the two open runs
    let mut e = VisibilityEngine::new(11, 5).unwrap();
    e.recompute(&m, 1, 2, 100, false);
    assert!(e.is_visible(4, 2));
    assert!(!e.is_visible(6, 2));
    assert!(!e.is_visible(7, 2));
}
