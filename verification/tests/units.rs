use dungeon_fov::grid::GameMap;
use dungeon_fov::rect::Rect;
use dungeon_fov::rng::RandomSource;
use dungeon_fov::tile::{MapError, Tile};

#[test]
fn tile_constructors() {
    let e = Tile::empty();
    assert!(!e.blocked);
    assert!(!e.block_sight);
    assert!(!e.explored);
    let w = Tile::wall();
    assert!(w.blocked);
    assert!(w.block_sight);
    assert!(!w.explored);
}

#[test]
fn rect_corners_and_center() {
    let r = Rect::new(2, 3, 4, 6);
    assert_eq!(r.x1, 2);
    assert_eq!(r.y1, 3);
    assert_eq!(r.x2, 6);
    assert_eq!(r.y2, 9);
    assert_eq!(r.center(), (4, 6));
}

#[test]
fn rect_overlap_cases() {
    let a = Rect::new(0, 0, 4, 4);
    let b = Rect::new(2, 2, 4, 4);
    assert!(a.intersects_with(&b));
    assert!(b.intersects_with(&a));

    let far = Rect::new(10, 10, 3, 3);
    assert!(!a.intersects_with(&far));
    assert!(!far.intersects_with(&a));
}

#[test]
fn rect_overlap_is_asymmetric_on_shared_edge() {
    // the placement engine's test is deliberately asymmetric: two rooms
    // sharing the vertical edge x = 4 overlap in one order only
    let a = Rect::new(0, 0, 4, 4);
    let b = Rect::new(4, 0, 4, 4);
    assert!(!a.intersects_with(&b));
    assert!(b.intersects_with(&a));
}

#[test]
fn grid_rejects_bad_dimensions() {
    assert_eq!(GameMap::new(0, 5).err(), Some(MapError::InvalidConfiguration));
    assert_eq!(GameMap::new(5, -1).err(), Some(MapError::InvalidConfiguration));
    assert!(GameMap::new(5, 5).is_ok());
}

#[test]
fn grid_tile_at_out_of_bounds() {
    let m = GameMap::new(80, 45).unwrap();
    assert_eq!(m.tile_at(-1, 0).err(), Some(MapError::OutOfBounds));
    assert_eq!(m.tile_at(0, -1).err(), Some(MapError::OutOfBounds));
    assert_eq!(m.tile_at(80, 0).err(), Some(MapError::OutOfBounds));
    assert_eq!(m.tile_at(0, 45).err(), Some(MapError::OutOfBounds));
    let t = m.tile_at(79, 44).unwrap();
    assert!(t.blocked && t.block_sight && !t.explored);
}

#[test]
fn rng_same_seed_same_draws() {
    let mut a = RandomSource::new(99);
    let mut b = RandomSource::new(99);
    for _ in 0..64 {
        assert_eq!(a.range(0, 1000), b.range(0, 1000));
        assert_eq!(a.flip(), b.flip());
    }
}

#[test]
fn rng_range_stays_in_bounds_and_varies() {
    let mut src = RandomSource::new(7);
    let mut seen_distinct = false;
    let mut prev: i32 = -1;
    for _ in 0..256 {
        let v = src.range(3, 11);
        assert!((3..11).contains(&v));
        if prev >= 0 && v != prev {
            seen_distinct = true;
        }
        prev = v;
    }
    assert!(seen_distinct);
}

#[test]
fn rng_flip_takes_both_values() {
    let mut src = RandomSource::new(12345);
    let mut heads = false;
    let mut tails = false;
    for _ in 0..128 {
        if src.flip() {
            heads = true;
        } else {
            tails = true;
        }
    }
    assert!(heads && tails);
}
