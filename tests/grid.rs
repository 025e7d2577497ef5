use layered::color::{accent_1, accent_3, Color};
use layered::tile::region::{select_step, RegionEdit};
use layered::tile::{Tile, TileMap, TileTexture};

fn floor(blend: Option<Color>) -> Tile {
    Tile::Filled {
        texture: TileTexture::new(1),
        height_offset: None,
        blend_color: blend,
    }
}

#[test]
fn set_then_get_returns_latest_tile() {
    let mut map = TileMap::new(10, 8);
    assert_eq!(map.get_tile(3, 4, 0), Some(Tile::Empty));
    map.set_tile(3, 4, 0, floor(None));
    assert_eq!(map.get_tile(3, 4, 0), Some(floor(None)));
    map.set_tile(3, 4, 0, floor(Some(accent_1())));
    assert_eq!(map.get_tile(3, 4, 0), Some(floor(Some(accent_1()))));
    assert_eq!(map.get_tile(3, 4, 1), Some(Tile::Empty));
    assert_eq!(map.get_tile(4, 3, 0), Some(Tile::Empty));
    map.set_tile(9, 7, -128, floor(None));
    assert_eq!(map.get_tile(9, 7, -128), Some(floor(None)));
    map.set_tile(0, 0, 127, floor(None));
    assert_eq!(map.get_tile(0, 0, 127), Some(floor(None)));
}

#[test]
fn out_of_bounds_is_absent_and_unchanged() {
    let mut map = TileMap::new(4, 4);
    map.set_tile(1, 1, 0, floor(None));
    assert_eq!(map.get_tile(4, 0, 0), None);
    assert_eq!(map.get_tile(0, 4, 0), None);
    assert_eq!(map.get_tile(usize::MAX, usize::MAX, 0), None);
    map.set_tile(4, 0, 0, floor(None));
    map.set_tile(0, 100, 0, floor(None));
    assert_eq!(map.get_tile(4, 0, 0), None);
    assert_eq!(map.get_tile(1, 1, 0), Some(floor(None)));
    let filled = map.draw_list();
    assert_eq!(filled.len(), 1);
    assert!(!map.tile_has_color(4, 4, 0, accent_1()));
}

#[test]
fn tile_has_color_checks_blend() {
    let mut map = TileMap::new(3, 3);
    map.set_tile(0, 0, 0, floor(Some(accent_1())));
    map.set_tile(1, 0, 0, floor(None));
    assert!(map.tile_has_color(0, 0, 0, accent_1()));
    assert!(!map.tile_has_color(0, 0, 0, accent_3()));
    assert!(!map.tile_has_color(1, 0, 0, accent_1()));
    assert!(!map.tile_has_color(2, 0, 0, accent_1()));
    assert!(!map.tile_has_color(0, 0, 1, accent_1()));
}

#[test]
fn clear_empties_every_layer() {
    let mut map = TileMap::new(3, 2);
    map.set_tile(0, 0, 0, floor(None));
    map.set_tile(2, 1, -1, floor(None));
    map.clear();
    assert_eq!(map.get_tile(0, 0, 0), Some(Tile::Empty));
    assert_eq!(map.get_tile(2, 1, -1), Some(Tile::Empty));
    assert!(map.draw_list().is_empty());
}

#[test]
fn blend_and_height_updates_keep_texture() {
    let mut map = TileMap::new(3, 3);
    map.set_tile(1, 1, 0, floor(None));
    map.set_blend_color(1, 1, 0, Some(accent_3()));
    map.set_height_offset(1, 1, 0, Some(20));
    assert_eq!(
        map.get_tile(1, 1, 0),
        Some(Tile::Filled {
            texture: TileTexture::new(1),
            height_offset: Some(20),
            blend_color: Some(accent_3()),
        })
    );
    map.set_blend_color(0, 0, 0, Some(accent_3()));
    assert_eq!(map.get_tile(0, 0, 0), Some(Tile::Empty));
}

#[test]
fn fill_layer_and_fade_light_blends() {
    let mut map = TileMap::new(2, 2);
    let white = Color::new(240, 235, 250, 255);
    map.fill_layer(-1, floor(Some(white)));
    map.set_tile(1, 1, -1, floor(Some(accent_1())));
    map.fade_light_blends(-1, 26);
    assert_eq!(
        map.get_tile(0, 0, -1),
        Some(floor(Some(Color::new(240, 235, 250, 26))))
    );
    assert_eq!(map.get_tile(1, 1, -1), Some(floor(Some(accent_1()))));
    assert_eq!(map.get_tile(0, 0, 0), Some(Tile::Empty));
}

#[test]
fn draw_list_orders_layers_then_rows() {
    let mut map = TileMap::new(3, 2);
    map.set_tile(2, 0, 0, floor(None));
    map.set_tile(0, 1, 0, floor(None));
    map.set_tile(1, 1, -1, floor(None));
    map.set_tile(0, 0, 5, floor(None));
    let items = map.draw_list();
    let cells: Vec<(usize, usize, i8)> = items.iter().map(|i| (i.x, i.y, i.layer)).collect();
    assert_eq!(cells, vec![(1, 1, -1), (2, 0, 0), (0, 1, 0), (0, 0, 5)]);
}

#[test]
fn region_edits_cover_the_rectangle() {
    let mut map = TileMap::new(5, 5);
    map.fill_layer(0, floor(None));
    map.edit_region(3, 1, 1, 2, 0, RegionEdit::Highlight { height: 10, color: accent_1() });
    let mut count = 0;
    for y in 0..5 {
        for x in 0..5 {
            let lit = map.tile_has_color(x, y, 0, accent_1());
            assert_eq!(lit, (1..=3).contains(&x) && (1..=2).contains(&y));
            if lit {
                count += 1;
            }
        }
    }
    assert_eq!(count, 6);
    map.edit_region(4, 4, 9, 9, 0, RegionEdit::Clear);
    assert_eq!(map.get_tile(4, 4, 0), Some(Tile::Empty));
    assert_eq!(map.get_tile(3, 4, 0), Some(floor(None)));
}

#[test]
fn filled_accessor_skips_empty_tiles() {
    let mut map = TileMap::new(3, 3);
    map.set_tile(2, 2, 0, floor(None));
    assert_eq!(map.get_filled_tile(2, 2, 0), Some(floor(None)));
    assert_eq!(map.get_filled_tile(1, 2, 0), None);
    assert_eq!(map.get_filled_tile(3, 2, 0), None);
}

#[test]
fn clicks_set_selection_corners() {
    assert_eq!(select_step(true, None, None, (3, 4)), (Some((3, 4)), None));
    assert_eq!(select_step(true, Some((3, 4)), None, (1, 6)), (Some((1, 4)), Some((3, 6))));
    assert_eq!(select_step(true, Some((1, 4)), Some((3, 6)), (0, 0)), (Some((0, 0)), None));
    assert_eq!(select_step(false, Some((1, 4)), None, (0, 0)), (None, None));
}
