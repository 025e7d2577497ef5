use layered::viewport::{Viewport, SCALE_MAX, SCALE_MIN, TILE_SIZE};

#[test]
fn round_trip_at_identity_view() {
    let v = Viewport::new();
    assert_eq!(v.offset_x, 0);
    assert_eq!(v.scale, 100);
    let (sx, sy) = v.grid_to_view(5, 5);
    assert_eq!((sx, sy), (5 * TILE_SIZE, 5 * TILE_SIZE));
    assert_eq!(v.view_to_grid(sx, sy, 0), (5, 5));
}

#[test]
fn round_trip_under_pan_and_zoom() {
    let mut v = Viewport::new();
    v.pan_by(-37, 120);
    v.zoom_by(73);
    assert_eq!(v.scale, 173);
    for (gx, gy) in [(0, 0), (5, 5), (-3, 47), (1000, -999)] {
        let (sx, sy) = v.grid_to_view(gx, gy);
        assert_eq!(v.view_to_grid(sx, sy, -1), (gx as i64, gy as i64));
    }
}

#[test]
fn view_to_grid_rounds_to_nearest_point() {
    let v = Viewport::new();
    assert_eq!(v.view_to_grid(15, 16, 0), (0, 1));
    assert_eq!(v.view_to_grid(-17, -16, 0), (-1, 0));
}

#[test]
fn zoom_is_clamped() {
    let mut v = Viewport::new();
    v.zoom_by(-5);
    assert_eq!(v.scale, SCALE_MIN);
    v.zoom_by(10_000);
    assert_eq!(v.scale, SCALE_MAX);
    v.zoom_by(-150);
    assert_eq!(v.scale, 350);
}

#[test]
fn pan_saturates() {
    let mut v = Viewport::new();
    v.pan_by(i32::MAX, i32::MIN);
    v.pan_by(5, -5);
    assert_eq!((v.offset_x, v.offset_y), (i32::MAX, i32::MIN));
    let (sx, _) = v.grid_to_view(1, 0);
    assert_eq!(sx, i32::MAX as i64 + TILE_SIZE);
}
