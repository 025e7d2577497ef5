use layered::color::{accent_1, accent_3, Color};
use layered::tile::{Tile, TileMap, TileTexture};

fn tinted(texture: u32, blend: Color) -> Tile {
    Tile::Filled {
        texture: TileTexture::new(texture),
        height_offset: None,
        blend_color: Some(blend),
    }
}

#[test]
fn line_to_itself_is_one_cell() {
    let map = TileMap::new(10, 10);
    assert_eq!(map.tiles_on_line_between(4, 7, 4, 7), vec![(4, 7)]);
    assert_eq!(map.tiles_on_line_between(0, 0, 0, 0), vec![(0, 0)]);
}

#[test]
fn line_lengths_match_both_ways() {
    let map = TileMap::new(10, 10);
    let pairs = [((0, 0), (7, 3)), ((2, 9), (5, 1)), ((6, 6), (0, 6)), ((1, 8), (8, 1))];
    for ((x0, y0), (x1, y1)) in pairs {
        let a = map.tiles_on_line_between(x0, y0, x1, y1);
        let b = map.tiles_on_line_between(x1, y1, x0, y0);
        assert_eq!(a.len(), b.len());
        assert_eq!(a[0], (x0, y0));
        assert_eq!(*a.last().unwrap(), (x1, y1));
    }
}

#[test]
fn horizontal_line_visits_each_cell_in_order() {
    let map = TileMap::new(10, 10);
    let line = map.tiles_on_line_between(0, 5, 9, 5);
    let expected: Vec<(usize, usize)> = (0..10).map(|x| (x, 5)).collect();
    assert_eq!(line, expected);
}

#[test]
fn sloped_line_rounds_to_nearest_cells() {
    let map = TileMap::new(10, 10);
    assert_eq!(
        map.tiles_on_line_between(0, 0, 4, 2),
        vec![(0, 0), (1, 1), (2, 1), (3, 2), (4, 2)]
    );
    assert_eq!(
        map.tiles_on_line_between(4, 2, 0, 0),
        vec![(4, 2), (3, 1), (2, 1), (1, 0), (0, 0)]
    );
    assert_eq!(map.tiles_on_line_between(1, 0, 1, 3), vec![(1, 0), (1, 1), (1, 2), (1, 3)]);
    assert_eq!(map.tiles_on_line_between(0, 0, 3, 3), vec![(0, 0), (1, 1), (2, 2), (3, 3)]);
}

#[test]
fn radius_zero_is_the_origin_when_on_grid() {
    let map = TileMap::new(6, 6);
    assert_eq!(map.tiles_on_radius(2, 3, 0), vec![(2, 3)]);
    assert_eq!(map.tiles_on_radius(6, 3, 0), Vec::<(usize, usize)>::new());
    assert_eq!(map.tiles_on_radius(-1, 0, 0), Vec::<(usize, usize)>::new());
}

#[test]
fn radius_enumerates_disc_in_row_major_order() {
    let map = TileMap::new(6, 6);
    assert_eq!(
        map.tiles_on_radius(2, 2, 1),
        vec![(2, 1), (1, 2), (2, 2), (3, 2), (2, 3)]
    );
    assert_eq!(map.tiles_on_radius(0, 0, 1), vec![(0, 0), (1, 0), (0, 1)]);
    assert_eq!(map.tiles_on_radius(2, 2, 2).len(), 13);
    assert_eq!(map.tiles_on_radius(2, 2, -1), Vec::<(usize, usize)>::new());
    assert_eq!(map.tiles_on_radius(-3, -3, 4), Vec::<(usize, usize)>::new());
    assert_eq!(map.tiles_on_radius(-3, -3, 5), vec![(0, 0), (1, 0), (0, 1)]);
    assert_eq!(map.tiles_on_radius(3, 3, 100).len(), 36);
}

fn floor_grid(width: usize, height: usize, blend: Color) -> TileMap {
    let mut map = TileMap::new(width, height);
    map.fill_layer(0, tinted(1, blend));
    map
}

#[test]
fn flood_fill_recolors_whole_open_grid() {
    let white = Color::new(255, 255, 255, 255);
    for (sx, sy) in [(0, 0), (3, 3), (1, 2)] {
        let mut map = floor_grid(4, 4, white);
        map.flood_fill_tiles(sx, sy, 0, white, accent_3());
        let mut count = 0;
        for y in 0..4 {
            for x in 0..4 {
                if map.tile_has_color(x, y, 0, accent_3()) {
                    count += 1;
                }
            }
        }
        assert_eq!(count, 16);
    }
}

#[test]
fn flood_fill_stops_at_walls() {
    let white = Color::new(255, 255, 255, 255);
    let black = Color::new(0, 0, 0, 255);
    let mut map = floor_grid(4, 4, white);
    map.set_tile(1, 1, 0, tinted(2, black));
    map.flood_fill_tiles(0, 0, 0, white, accent_3());
    let mut count = 0;
    for y in 0..4 {
        for x in 0..4 {
            if map.tile_has_color(x, y, 0, accent_3()) {
                count += 1;
            }
        }
    }
    assert_eq!(count, 15);
    assert!(map.tile_has_color(1, 1, 0, black));

    let mut map = floor_grid(4, 4, white);
    for y in 0..4 {
        map.set_tile(1, y, 0, tinted(2, black));
    }
    map.flood_fill_tiles(0, 2, 0, white, accent_3());
    for y in 0..4 {
        assert!(map.tile_has_color(0, y, 0, accent_3()));
        for x in 2..4 {
            assert!(map.tile_has_color(x, y, 0, white));
        }
    }
}

#[test]
fn flood_fill_ignores_unmatched_start_and_other_layers() {
    let white = Color::new(255, 255, 255, 255);
    let mut map = floor_grid(3, 3, white);
    map.fill_layer(1, tinted(1, white));
    map.flood_fill_tiles(1, 1, 0, accent_1(), accent_3());
    assert!(map.tile_has_color(1, 1, 0, white));
    map.flood_fill_tiles(5, 5, 0, white, accent_3());
    assert!(map.tile_has_color(0, 0, 0, white));
    map.flood_fill_tiles(0, 0, 0, white, white);
    assert!(map.tile_has_color(2, 2, 0, white));
    map.flood_fill_tiles(0, 0, 0, white, accent_3());
    assert!(map.tile_has_color(2, 2, 0, accent_3()));
    assert!(map.tile_has_color(2, 2, 1, white));
}
