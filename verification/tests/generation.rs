use dungeon_fov::grid::GameMap;
use dungeon_fov::mapgen::{generate_map, Dungeon};
use dungeon_fov::rect::Rect;
use dungeon_fov::tile::MapError;

fn sample_dungeon(seed: u64) -> Dungeon {
    generate_map(80, 45, 30, 6, 10, seed).unwrap()
}

#[test]
fn fixed_rooms_and_tunnel() {
    let mut m = GameMap::new(80, 45).unwrap();
    m.carve_room(Rect::new(20, 15, 10, 15));
    m.carve_room(Rect::new(50, 15, 10, 15));
    m.carve_h_tunnel(25, 55, 23);

    assert!(m.tile_at(30, 22).unwrap().blocked);
    assert!(!m.tile_at(30, 23).unwrap().blocked);
    assert!(!m.tile_at(40, 23).unwrap().blocked);
    assert!(m.tile_at(0, 0).unwrap().blocked);
}

#[test]
fn carve_room_opens_interior_only() {
    let mut m = GameMap::new(30, 30).unwrap();
    let room = Rect::new(5, 5, 6, 4);
    m.carve_room(room);
    for x in 0..30 {
        for y in 0..30 {
            let t = m.tile_at(x, y).unwrap();
            let interior = room.x1 < x && x < room.x2 && room.y1 < y && y < room.y2;
            assert_eq!(!t.blocked, interior);
            assert_eq!(!t.block_sight, interior);
            assert!(!t.explored);
        }
    }
}

#[test]
fn tunnels_carve_inclusive_ranges_either_order() {
    let mut m = GameMap::new(20, 20).unwrap();
    m.carve_h_tunnel(12, 4, 9);
    for x in 4..=12 {
        assert!(!m.tile_at(x, 9).unwrap().blocked);
    }
    assert!(m.tile_at(3, 9).unwrap().blocked);
    assert!(m.tile_at(13, 9).unwrap().blocked);

    m.carve_v_tunnel(15, 2, 17);
    for y in 2..=15 {
        assert!(!m.tile_at(17, y).unwrap().blocked);
    }
    assert!(m.tile_at(17, 1).unwrap().blocked);
    assert!(m.tile_at(17, 16).unwrap().blocked);
}

#[test]
fn generated_room_interiors_are_open() {
    let d = sample_dungeon(42);
    assert!(!d.rooms.is_empty());
    assert!(d.rooms.len() <= 30);
    for room in &d.rooms {
        for x in (room.x1 + 1)..room.x2 {
            for y in (room.y1 + 1)..room.y2 {
                assert!(!d.map.tile_at(x, y).unwrap().blocked);
            }
        }
    }
}

#[test]
fn generated_rooms_do_not_overlap() {
    let d = sample_dungeon(42);
    for i in 0..d.rooms.len() {
        for j in 0..i {
            assert!(!d.rooms[i].intersects_with(&d.rooms[j]));
        }
    }
}

#[test]
fn generated_rooms_are_connected() {
    let d = sample_dungeon(2024);
    let (sx, sy) = d.spawn.unwrap();

    // flood fill over non-blocked tiles from the spawn point
    let w = d.map.width() as usize;
    let h = d.map.height() as usize;
    let mut seen = vec![false; w * h];
    let mut queue: Vec<(i32, i32)> = vec![(sx, sy)];
    seen[sx as usize * h + sy as usize] = true;
    while let Some((x, y)) = queue.pop() {
        for (dx, dy) in [(1, 0), (-1, 0), (0, 1), (0, -1)] {
            let (nx, ny) = (x + dx, y + dy);
            if nx < 0 || ny < 0 || nx >= w as i32 || ny >= h as i32 {
                continue;
            }
            let idx = nx as usize * h + ny as usize;
            if !seen[idx] && !d.map.tile_at(nx, ny).unwrap().blocked {
                seen[idx] = true;
                queue.push((nx, ny));
            }
        }
    }

    for room in &d.rooms {
        let (cx, cy) = room.center();
        assert!(seen[cx as usize * h + cy as usize]);
    }
}

#[test]
fn generation_is_deterministic_per_seed() {
    let a = sample_dungeon(7);
    let b = sample_dungeon(7);
    assert_eq!(a.spawn, b.spawn);
    assert_eq!(a.rooms, b.rooms);
    for x in 0..80 {
        for y in 0..45 {
            assert_eq!(a.map.tile_at(x, y).unwrap(), b.map.tile_at(x, y).unwrap());
        }
    }

    let c = sample_dungeon(8);
    let mut all_same = true;
    for x in 0..80 {
        for y in 0..45 {
            if a.map.tile_at(x, y).unwrap() != c.map.tile_at(x, y).unwrap() {
                all_same = false;
            }
        }
    }
    assert!(!all_same);
}

#[test]
fn zero_attempts_yield_empty_dungeon() {
    let d = generate_map(80, 45, 0, 6, 10, 1).unwrap();
    assert!(d.rooms.is_empty());
    assert_eq!(d.spawn, None);
    for x in 0..80 {
        for y in 0..45 {
            assert!(d.map.tile_at(x, y).unwrap().blocked);
        }
    }
}

#[test]
fn invalid_configurations_are_rejected_up_front() {
    // size bounds inverted
    assert_eq!(generate_map(80, 45, 10, 12, 10, 1).err(), Some(MapError::InvalidConfiguration));
    // rooms too small to have an interior
    assert_eq!(generate_map(80, 45, 10, 1, 10, 1).err(), Some(MapError::InvalidConfiguration));
    // rooms as wide as the map
    assert_eq!(generate_map(80, 45, 10, 6, 80, 1).err(), Some(MapError::InvalidConfiguration));
    // rooms as tall as the map
    assert_eq!(generate_map(80, 45, 10, 6, 45, 1).err(), Some(MapError::InvalidConfiguration));
    // non-positive dimensions
    assert_eq!(generate_map(0, 45, 10, 6, 10, 1).err(), Some(MapError::InvalidConfiguration));
    assert_eq!(generate_map(80, 0, 10, 6, 10, 1).err(), Some(MapError::InvalidConfiguration));
}
