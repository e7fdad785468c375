use the_game::player::cast_ray;
use the_game::{Player, TileMap};

/// A 16 x 16 map with walled boundary, floor inside, and the given extra
/// wall tiles.
fn walled_map(extra: &[(usize, usize, u8)]) -> TileMap {
    let mut tiles = vec![0u8; 256];
    for i in 0..16 {
        tiles[i] = 1;
        tiles[240 + i] = 1;
        tiles[16 * i] = 1;
        tiles[16 * i + 15] = 1;
    }
    for &(x, y, t) in extra {
        tiles[16 * y + x] = t;
    }
    TileMap::new(tiles).unwrap()
}

#[test]
fn tile_map_rejects_wrong_size() {
    assert!(TileMap::new(vec![0u8; 255]).is_none());
    assert!(TileMap::new(vec![0u8; 257]).is_none());
    assert!(TileMap::new(vec![0u8; 256]).is_some());
}

#[test]
fn canonical_map_layout() {
    let map = TileMap::canonical();
    assert_eq!(map.tile_at(0, 0), 1);
    assert_eq!(map.tile_at(10, 0), 2);
    assert_eq!(map.tile_at(11, 0), 2);
    assert_eq!(map.tile_at(12, 0), 1);
    assert_eq!(map.tile_at(1, 1), 0);
    assert_eq!(map.tile_at(7, 3), 0);
    assert_eq!(map.tile_at(12, 9), 1);
    assert_eq!(map.tile_at(12, 10), 1);
    assert_eq!(map.tile_at(8, 11), 1);
    assert_eq!(map.tile_at(9, 11), 0);
    assert_eq!(map.tile_at(13, 11), 1);
    assert_eq!(map.tile_at(15, 15), 1);
}

#[test]
fn single_wall_scenario_reports_type_and_distance() {
    // one interior wall tile at grid (3, 1); player at (1, 1) facing +x
    let map = walled_map(&[(3, 1, 5)]);
    let hit = cast_ray(&map, 10000, 10000, 0).expect("ray should hit");
    assert_eq!(hit.wall_type, 5);
    // distance 2.0 exactly at the tenth-unit marching step
    assert_eq!(hit.distance, 20000);
    assert_eq!(hit.x, 30000);
    assert_eq!(hit.y, 10000);
}

#[test]
fn ray_east_hits_boundary() {
    let map = walled_map(&[]);
    let hit = cast_ray(&map, 10000, 10000, 0).expect("ray should hit");
    assert_eq!(hit.wall_type, 1);
    // from x = 1.0 the first marched point inside column 15 is at 14.0
    assert_eq!(hit.distance, 140000);
    assert_eq!(hit.x, 150000);
}

#[test]
fn ray_south_hits_boundary() {
    // 90 degrees points along +y
    let map = walled_map(&[]);
    let hit = cast_ray(&map, 10000, 10000, 900000).expect("ray should hit");
    assert_eq!(hit.wall_type, 1);
    assert_eq!(hit.distance, 140000);
    assert_eq!(hit.x, 10000);
    assert_eq!(hit.y, 150000);
}

#[test]
fn ray_from_inside_wall_hits_at_distance_zero() {
    let map = walled_map(&[]);
    let hit = cast_ray(&map, 5000, 5000, 1234567).expect("origin tile is a wall");
    assert_eq!(hit.distance, 0);
    assert_eq!(hit.x, 5000);
    assert_eq!(hit.y, 5000);
    assert_eq!(hit.wall_type, 1);
}

#[test]
fn ray_from_outside_grid_misses() {
    let map = walled_map(&[]);
    assert!(cast_ray(&map, -50000, 10000, 0).is_none());
    assert!(cast_ray(&map, 10000, 170000, 0).is_none());
}

#[test]
fn ray_in_open_map_runs_out_of_grid() {
    // with no walls at all the march leaves the grid and reports no hit
    let map = TileMap::new(vec![0u8; 256]).unwrap();
    assert!(cast_ray(&map, 80000, 80000, 0).is_none());
}

#[test]
fn look_at_applies_offset_to_heading() {
    let map = walled_map(&[(3, 1, 5)]);
    let p = Player { x: 10000, y: 10000, angle: 2700000 };
    // heading 270 plus offset 90 points along +x again
    let hit = p.look_at(&map, Some(900000)).expect("ray should hit");
    assert_eq!(hit.wall_type, 5);
    assert_eq!(hit.distance, 20000);
    let hit2 = p.look_at(&map, None).expect("boundary above");
    assert_eq!(hit2.wall_type, 1);
}

#[test]
fn enclosed_map_always_reports_a_hit() {
    // from strictly inside an enclosed map, every heading strikes a wall
    // within the marching range
    let map = walled_map(&[(3, 1, 5), (12, 9, 1)]);
    let origins = [(10000i64, 10000i64), (80000, 80000), (145000, 145000)];
    for &(ox, oy) in origins.iter() {
        for deg in 0..360i64 {
            let hit = cast_ray(&map, ox, oy, deg * 10000)
                .expect("enclosed map must yield a hit");
            assert!(hit.wall_type != 0);
            assert!(hit.distance <= 200000);
        }
    }
}
