use layered::bitmap::{color_dark, color_light, distort_dimetric, is_light_pixel, is_wall_pixel, quantize_binary, Bitmap};
use layered::color::{accent_1, Color};
use layered::tile::import::GridError;
use layered::tile::{Tile, TileMap, TileTexture};

const WALL: u32 = 7;
const FLOOR: u32 = 8;

fn white() -> Color {
    Color::new(255, 255, 255, 255)
}

fn black() -> Color {
    Color::new(0, 0, 0, 255)
}

#[test]
fn light_classification_uses_channel_sum() {
    assert!(is_light_pixel(color_light()));
    assert!(!is_light_pixel(color_dark()));
    assert!(is_light_pixel(Color::new(150, 150, 146, 255)));
    assert!(!is_light_pixel(Color::new(150, 150, 145, 255)));
    assert!(!is_light_pixel(accent_1()));
    assert!(is_light_pixel(white()));
}

#[test]
fn quantize_maps_every_pixel_to_light_or_dark() {
    let image = Bitmap::from_pixels(2, 2, vec![white(), black(), Color::new(200, 200, 100, 9), accent_1()]).unwrap();
    let q = quantize_binary(&image);
    assert_eq!(q.width, 2);
    assert_eq!(q.height, 2);
    assert_eq!(q.pixels, vec![color_light(), color_dark(), color_light(), color_dark()]);
}

#[test]
fn from_pixels_checks_the_buffer_size() {
    assert!(Bitmap::from_pixels(2, 3, vec![white(); 5]).is_none());
    assert!(Bitmap::from_pixels(2, 3, vec![white(); 6]).is_some());
    let b = Bitmap::filled(3, 1, black());
    assert_eq!(b.get_pixel(2, 0), Some(black()));
    assert_eq!(b.get_pixel(3, 0), None);
}

#[test]
fn distort_dimetric_moves_pixels_onto_the_dimetric_plane() {
    let red = Color::new(255, 0, 0, 255);
    let green = Color::new(0, 255, 0, 255);
    let blue = Color::new(0, 0, 255, 255);
    let gray = Color::new(9, 9, 9, 255);
    let image = Bitmap::from_pixels(2, 2, vec![red, green, blue, gray]).unwrap();
    let out = distort_dimetric(&image);
    assert_eq!(out.width, 4);
    assert_eq!(out.height, 2);
    let clear = Color::new(0, 0, 0, 0);
    // (0,0) -> (2,0); (1,0) -> (3,0); (0,1) -> (1,0); (1,1) -> (2,1).
    assert_eq!(out.pixels, vec![clear, blue, red, green, clear, clear, gray, clear]);
}

#[test]
fn distort_dimetric_wraps_destinations_off_the_bitmap() {
    let a = Color::new(1, 2, 3, 4);
    let b = Color::new(5, 6, 7, 8);
    let image = Bitmap::from_pixels(1, 3, vec![a, a, b]).unwrap();
    let out = distort_dimetric(&image);
    // (0,2): column 0 - 2 + 1 = -1 wraps to 4294967295 % 2 = 1, row 1.
    assert_eq!(out.get_pixel(1, 1), Some(b));
    assert_eq!(out.get_pixel(0, 0), Some(a));
}

#[test]
fn bitmap_of_wrong_size_is_refused_and_grid_unchanged() {
    let mut map = TileMap::new(4, 4);
    map.set_tile(1, 2, 0, Tile::Filled { texture: TileTexture::new(3), height_offset: Some(5), blend_color: None });
    let before = map.draw_list();
    let image = Bitmap::filled(4, 3, white());
    let r = map.set_tiles_from_bitmap(&image, 0, TileTexture::new(WALL), TileTexture::new(FLOOR), 75);
    assert_eq!(
        r,
        Err(GridError::DimensionMismatch { grid_width: 4, grid_height: 4, image_width: 4, image_height: 3 })
    );
    assert_eq!(map.draw_list(), before);
}

#[test]
fn bitmap_import_sets_textures_and_returns_first_floor() {
    let mut map = TileMap::new(3, 2);
    let image = Bitmap::from_pixels(3, 2, vec![black(), black(), black(), black(), white(), accent_1()]).unwrap();
    let spawn = map.set_tiles_from_bitmap(&image, 0, TileTexture::new(WALL), TileTexture::new(FLOOR), 75);
    assert_eq!(spawn, Ok(Some((1, 1))));
    assert_eq!(
        map.get_tile(1, 1, 0),
        Some(Tile::Filled { texture: TileTexture::new(FLOOR), height_offset: None, blend_color: Some(white()) })
    );
    assert_eq!(
        map.get_tile(2, 1, 0),
        Some(Tile::Filled { texture: TileTexture::new(FLOOR), height_offset: None, blend_color: Some(accent_1()) })
    );
    assert_eq!(map.get_tile(0, 0, 1), Some(Tile::Empty));
    let same = map.set_tiles_from_bitmap(&image, 0, TileTexture::new(WALL), TileTexture::new(FLOOR), 0);
    assert_eq!(same, Ok(Some((1, 1))));
}

#[test]
fn bitmap_import_without_floor_has_no_spawn() {
    let mut map = TileMap::new(2, 2);
    let image = Bitmap::filled(2, 2, black());
    assert_eq!(map.set_tiles_from_bitmap(&image, 3, TileTexture::new(WALL), TileTexture::new(FLOOR), 75), Ok(None));
    assert_eq!(
        map.get_tile(1, 1, 3),
        Some(Tile::Filled { texture: TileTexture::new(WALL), height_offset: None, blend_color: Some(black()) })
    );
}

#[test]
fn walls_are_dark_grey_pixels() {
    assert!(is_wall_pixel(black()));
    assert!(is_wall_pixel(color_dark()));
    assert!(is_wall_pixel(Color::new(100, 100, 100, 255)));
    assert!(!is_wall_pixel(white()));
    assert!(!is_wall_pixel(accent_1()));
    assert!(!is_wall_pixel(layered::color::accent_2()));
    assert!(!is_wall_pixel(Color::new(200, 200, 200, 255)));
}

#[test]
fn bitmap_import_spawns_on_colored_floor() {
    let mut map = TileMap::new(2, 1);
    let image = Bitmap::from_pixels(2, 1, vec![black(), accent_1()]).unwrap();
    assert_eq!(
        map.set_tiles_from_bitmap(&image, 0, TileTexture::new(WALL), TileTexture::new(FLOOR), 75),
        Ok(Some((1, 0)))
    );
}

#[test]
fn entering_a_layer_fades_resets_and_imports() {
    let mut map = TileMap::new(2, 2);
    let near_white = Color::new(250, 250, 250, 255);
    let tinted = Tile::Filled { texture: TileTexture::new(FLOOR), height_offset: None, blend_color: Some(near_white) };
    map.fill_layer(0, tinted);
    let image = Bitmap::from_pixels(2, 2, vec![black(), white(), white(), black()]).unwrap();
    let background = Tile::Filled { texture: TileTexture::new(9), height_offset: None, blend_color: None };

    let r = map.enter_layer(&image, 0, 1, false, -1, background, TileTexture::new(WALL), TileTexture::new(FLOOR), 26);
    assert_eq!(r, Ok(Some((1, 0))));
    assert_eq!(
        map.get_tile(0, 0, 0),
        Some(Tile::Filled { texture: TileTexture::new(FLOOR), height_offset: None, blend_color: Some(Color::new(250, 250, 250, 26)) })
    );
    assert_eq!(
        map.get_tile(0, 0, 1),
        Some(Tile::Filled { texture: TileTexture::new(WALL), height_offset: None, blend_color: Some(black()) })
    );
    assert_eq!(map.get_tile(0, 0, -1), Some(Tile::Empty));

    let r = map.enter_layer(&image, 1, 0, true, -1, background, TileTexture::new(WALL), TileTexture::new(FLOOR), 26);
    assert_eq!(r, Ok(Some((1, 0))));
    assert_eq!(map.get_tile(1, 1, 1), Some(Tile::Empty));
    assert_eq!(map.get_tile(1, 1, -1), Some(background));
    assert_eq!(
        map.get_tile(1, 0, 0),
        Some(Tile::Filled { texture: TileTexture::new(FLOOR), height_offset: None, blend_color: Some(white()) })
    );
}

#[test]
fn entering_a_layer_with_wrong_size_changes_nothing() {
    let mut map = TileMap::new(2, 2);
    map.set_tile(0, 0, 0, Tile::Filled { texture: TileTexture::new(FLOOR), height_offset: None, blend_color: Some(white()) });
    let before = map.draw_list();
    let image = Bitmap::filled(3, 2, white());
    let r = map.enter_layer(&image, 0, 1, true, -1, Tile::Empty, TileTexture::new(WALL), TileTexture::new(FLOOR), 26);
    assert_eq!(
        r,
        Err(GridError::DimensionMismatch { grid_width: 2, grid_height: 2, image_width: 3, image_height: 2 })
    );
    assert_eq!(map.draw_list(), before);
}
