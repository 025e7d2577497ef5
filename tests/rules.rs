use layered::color::{accent_1, accent_2, accent_3, Color};
use layered::tile::{Tile, TileMap, TileTexture};

fn wall() -> TileTexture {
    TileTexture::new(1)
}

fn floor() -> TileTexture {
    TileTexture::new(2)
}

fn white() -> Color {
    Color::new(255, 255, 255, 255)
}

fn tile(texture: TileTexture, blend: Color) -> Tile {
    Tile::Filled { texture, height_offset: None, blend_color: Some(blend) }
}

fn open_map(width: usize, height: usize) -> TileMap {
    let mut map = TileMap::new(width, height);
    map.fill_layer(0, tile(floor(), white()));
    map
}

#[test]
fn collision_checks_the_four_covered_cells() {
    let mut map = open_map(5, 5);
    map.set_tile(3, 3, 0, tile(wall(), white()));
    assert!(map.wall_collision(2, 2, 0, wall()));
    assert!(map.wall_collision(3, 3, 0, wall()));
    assert!(map.wall_collision(2, 3, 0, wall()));
    assert!(!map.wall_collision(1, 1, 0, wall()));
    assert!(!map.wall_collision(4, 4, 0, wall()));
    assert!(!map.wall_collision(3, 3, 1, wall()));
}

#[test]
fn objective_scan_finds_tinted_cells() {
    let mut map = open_map(4, 3);
    assert!(!map.layer_has_color(0, accent_1()));
    map.set_tile(3, 2, 0, tile(floor(), accent_1()));
    assert!(map.layer_has_color(0, accent_1()));
    assert!(!map.layer_has_color(1, accent_1()));
    assert_eq!(map.cells_with_color(0, accent_1()), vec![(3, 2)]);
    assert_eq!(map.cells_with_color(0, white()).len(), 11);
}

#[test]
fn path_trace_highlights_until_wall() {
    let mut map = open_map(8, 3);
    let line = map.tiles_on_line_between(0, 1, 7, 1);
    assert!(map.trace_path(&line, 0, wall(), accent_3()));
    for x in 1..7 {
        assert!(map.tile_has_color(x, 1, 0, accent_3()));
    }
    assert!(map.tile_has_color(0, 1, 0, white()));
    assert!(map.tile_has_color(7, 1, 0, white()));

    let mut map = open_map(8, 3);
    map.set_tile(4, 1, 0, tile(wall(), white()));
    assert!(!map.trace_path(&line, 0, wall(), accent_3()));
    for x in 1..4 {
        assert!(map.tile_has_color(x, 1, 0, accent_3()));
    }
    for x in 4..8 {
        assert!(map.tile_has_color(x, 1, 0, white()));
    }
    assert!(map.trace_path(&vec![(0, 0), (5, 5)], 0, wall(), accent_3()));
}

#[test]
fn sight_ignores_the_two_ends() {
    let mut map = open_map(6, 6);
    map.set_tile(0, 0, 0, tile(wall(), white()));
    map.set_tile(5, 0, 0, tile(wall(), white()));
    assert!(map.sight_is_clear(0, 0, 5, 0, 0, wall()));
    map.set_tile(2, 0, 0, tile(wall(), white()));
    assert!(!map.sight_is_clear(0, 0, 5, 0, 0, wall()));
    assert!(map.sight_is_clear(0, 1, 5, 1, 0, wall()));
}

#[test]
fn threats_spread_over_visible_floor() {
    let mut map = open_map(7, 7);
    map.set_tile(3, 3, 0, tile(wall(), accent_2()));
    map.set_tile(3, 1, 0, tile(wall(), white()));
    map.spread_threats(0, 2, floor(), wall(), accent_2());
    assert!(map.tile_has_color(1, 3, 0, accent_2()));
    assert!(map.tile_has_color(5, 3, 0, accent_2()));
    assert!(map.tile_has_color(3, 2, 0, accent_2()));
    assert!(map.tile_has_color(4, 4, 0, accent_2()));
    // Beyond the radius.
    assert!(map.tile_has_color(0, 3, 0, white()));
    assert!(map.tile_has_color(1, 1, 0, white()));
    // A wall is never tinted by the front.
    assert!(map.tile_has_color(3, 1, 0, white()));
    // Behind the wall at (3, 1), out of sight.
    let mut far = open_map(7, 7);
    far.set_tile(3, 4, 0, tile(wall(), accent_2()));
    far.set_tile(3, 2, 0, tile(wall(), white()));
    far.spread_threats(0, 3, floor(), wall(), accent_2());
    assert!(far.tile_has_color(3, 1, 0, white()));
    assert!(far.tile_has_color(2, 2, 0, accent_2()));
    assert!(far.tile_has_color(2, 1, 0, white()));
    assert!(far.tile_has_color(3, 3, 0, accent_2()));
}

#[test]
fn threat_radius_cycles() {
    assert_eq!(layered::tile::rules::max_threat_radius(48, 48), 60);
    assert_eq!(layered::tile::rules::max_threat_radius(10, 31), 38);
    assert_eq!(layered::tile::rules::next_threat_radius(3, 60), 4);
    assert_eq!(layered::tile::rules::next_threat_radius(59, 60), 0);
}

#[test]
fn completed_paths_mark_their_objective_regions() {
    let mut map = open_map(6, 3);
    for x in 3..6 {
        map.set_tile(x, 0, 0, tile(floor(), accent_1()));
    }
    map.set_tile(0, 2, 0, tile(floor(), accent_1()));
    let lines = vec![map.tiles_on_line_between(0, 1, 3, 0)];
    map.mark_completed(&lines, 0, accent_1(), accent_3());
    for x in 3..6 {
        assert!(map.tile_has_color(x, 0, 0, accent_3()));
    }
    for (x, y) in &lines[0] {
        assert!(map.tile_has_color(*x, *y, 0, accent_3()));
    }
    assert!(map.tile_has_color(0, 2, 0, accent_1()));
    assert!(map.tile_has_color(5, 2, 0, white()));
    assert!(map.layer_has_color(0, accent_1()));
}

#[test]
fn texture_probe_reads_only_filled_cells() {
    let mut map = open_map(2, 2);
    map.set_tile(1, 1, 0, Tile::Empty);
    assert!(map.has_texture_at(0, 0, 0, floor()));
    assert!(!map.has_texture_at(0, 0, 0, wall()));
    assert!(!map.has_texture_at(1, 1, 0, floor()));
    assert!(!map.has_texture_at(2, 0, 0, floor()));
}

#[test]
fn completion_fills_regions_touched_by_lines_only() {
    // Two objective patches split by a wall column at x = 2.
    let mut map = open_map(5, 4);
    for y in 0..4 {
        for x in [0, 1, 3, 4] {
            map.set_tile(x, y, 0, tile(floor(), accent_1()));
        }
        map.set_tile(2, y, 0, tile(wall(), Color::new(0, 0, 0, 255)));
    }
    let lines = vec![vec![(1, 3)]];
    map.mark_completed(&lines, 0, accent_1(), accent_3());
    for y in 0..4 {
        for x in [0, 1] {
            assert!(map.tile_has_color(x, y, 0, accent_3()));
        }
        for x in [3, 4] {
            assert!(map.tile_has_color(x, y, 0, accent_1()));
        }
        assert!(map.has_texture_at(2, y, 0, wall()));
    }
    assert!(map.layer_has_color(0, accent_1()));

    let lines = vec![vec![(1, 3)], vec![(4, 0), (4, 1)]];
    map.mark_completed(&lines, 0, accent_1(), accent_3());
    assert!(!map.layer_has_color(0, accent_1()));
}

#[test]
fn completion_with_equal_tints_only_tints_line_cells() {
    let mut map = open_map(3, 1);
    map.set_tile(1, 0, 0, tile(floor(), accent_1()));
    map.mark_completed(&vec![vec![(0, 0)]], 0, accent_1(), accent_1());
    assert!(map.tile_has_color(0, 0, 0, accent_1()));
    assert!(map.tile_has_color(2, 0, 0, white()));
}

#[test]
fn color_scan_is_row_major() {
    let mut map = open_map(3, 3);
    for (x, y) in [(2, 2), (0, 1), (2, 0), (1, 1)] {
        map.set_tile(x, y, 0, tile(floor(), accent_1()));
    }
    assert_eq!(map.cells_with_color(0, accent_1()), vec![(2, 0), (0, 1), (1, 1), (2, 2)]);
}
