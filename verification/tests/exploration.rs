use dungeon_fov::explore::{merge_visible, tier, Tier};
use dungeon_fov::fov::VisibilityEngine;
use dungeon_fov::grid::GameMap;
use dungeon_fov::mapgen::generate_map;
use dungeon_fov::rect::Rect;

fn two_room_map() -> GameMap {
    let mut m = GameMap::new(80, 45).unwrap();
    m.carve_room(Rect::new(20, 15, 10, 15));
    m.carve_room(Rect::new(50, 15, 10, 15));
    m.carve_h_tunnel(25, 55, 23);
    m
}

fn explored_tiles(m: &GameMap) -> Vec<(i32, i32)> {
    let mut out = Vec::new();
    for x in 0..m.width() {
        for y in 0..m.height() {
            if m.is_explored(x, y) {
                out.push((x, y));
            }
        }
    }
    out
}

#[test]
fn merge_marks_exactly_the_visible_tiles() {
    let mut m = two_room_map();
    let mut e = VisibilityEngine::new(80, 45).unwrap();
    e.recompute(&m, 25, 23, 8, true);
    merge_visible(&mut m, e.visible_set());
    for x in 0..80 {
        for y in 0..45 {
            assert_eq!(m.is_explored(x, y), e.is_visible(x, y));
        }
    }
}

#[test]
fn exploration_only_grows() {
    let mut m = two_room_map();
    let mut e = VisibilityEngine::new(80, 45).unwrap();

    e.recompute(&m, 25, 23, 8, true);
    merge_visible(&mut m, e.visible_set());
    let after_first = explored_tiles(&m);

    e.recompute(&m, 40, 23, 8, true);
    merge_visible(&mut m, e.visible_set());
    let after_second = explored_tiles(&m);

    e.recompute(&m, 55, 23, 8, true);
    merge_visible(&mut m, e.visible_set());
    let after_third = explored_tiles(&m);

    for p in &after_first {
        assert!(after_second.contains(p));
    }
    for p in &after_second {
        assert!(after_third.contains(p));
    }
    // the observer moved into new territory, so the memory truly grew
    assert!(after_second.len() > after_first.len());
}

#[test]
fn recompute_in_place_changes_nothing_explored() {
    let mut m = two_room_map();
    let mut e = VisibilityEngine::new(80, 45).unwrap();
    e.recompute(&m, 25, 23, 8, true);
    merge_visible(&mut m, e.visible_set());
    let before = explored_tiles(&m);
    let visible_before: Vec<(i32, i32)> = before
        .iter()
        .copied()
        .filter(|&(x, y)| e.is_visible(x, y))
        .collect();

    e.recompute(&m, 25, 23, 8, true);
    let visible_after: Vec<(i32, i32)> = before
        .iter()
        .copied()
        .filter(|&(x, y)| e.is_visible(x, y))
        .collect();

    assert_eq!(visible_before, visible_after);
    assert_eq!(explored_tiles(&m), before);
}

#[test]
fn merging_generated_visibility_respects_walls() {
    let d = generate_map(80, 45, 30, 6, 10, 11).unwrap();
    let mut m = d.map;
    let (sx, sy) = d.spawn.unwrap();
    let mut e = VisibilityEngine::new(80, 45).unwrap();
    e.recompute(&m, sx, sy, 10, false);
    merge_visible(&mut m, e.visible_set());
    // without wall lighting, nothing explored is opaque
    for x in 0..80 {
        for y in 0..45 {
            if m.is_explored(x, y) {
                let t = m.tile_at(x, y).unwrap();
                assert!(!t.block_sight);
            }
        }
    }
    assert!(m.is_explored(sx, sy));
}

#[test]
fn tier_keeps_three_levels_apart() {
    assert_eq!(tier(true, false), Tier::Lit);
    assert_eq!(tier(true, true), Tier::Lit);
    assert_eq!(tier(false, true), Tier::Remembered);
    assert_eq!(tier(false, false), Tier::Unknown);
}
