//! Populating a layer of the grid from a bitmap.
use vstd::prelude::*;

use crate::bitmap::{is_wall_color, is_wall_pixel, Bitmap};
use crate::cell::{lemma_cell_index, lemma_cell_of_index};
use crate::color::Color;
use crate::tile::{faded, slot, valid_layer, Tile, TileMap, TileTexture};

verus! {

/// Why a grid operation was refused.
#[derive(Clone, Copy, Debug, PartialEq, Eq, Structural)]
pub enum GridError {
    /// A source bitmap's size differs from the grid's.
    DimensionMismatch {
        grid_width: usize,
        grid_height: usize,
        image_width: usize,
        image_height: usize,
    },
}

/// The tile that a pixel of color `c` imports as: a wall tile for a dark
/// grey pixel and a floor tile otherwise (see [`is_wall_color`]), tinted
/// with `c`.
pub open spec fn imported_tile(c: Color, wall: TileTexture, floor: TileTexture) -> Tile {
    Tile::Filled {
        texture: if is_wall_color(c) {
            wall
        } else {
            floor
        },
        height_offset: None,
        blend_color: Some(c),
    }
}

/// Whether `spawn` is the first floor cell of `image` in row-major order,
/// or `None` when `image` holds only walls.
pub open spec fn is_spawn(image: &Bitmap, spawn: Option<(usize, usize)>) -> bool {
    match spawn {
        None => forall|x: int, y: int|
            0 <= x < image.width && 0 <= y < image.height ==> is_wall_color(
                #[trigger] image.pixel_at(x, y),
            ),
        Some((sx, sy)) => {
            &&& sx < image.width && sy < image.height
            &&& !is_wall_color(image.pixel_at(sx as int, sy as int))
            &&& forall|x: int, y: int|
                0 <= x < image.width && 0 <= y < image.height && y * image.width + x < sy * image.width
                    + sx ==> is_wall_color(#[trigger] image.pixel_at(x, y))
        },
    }
}

impl TileMap {
    /// Fills every cell of `layer` from the pixel at the same position of
    /// `image` (see [`imported_tile`]), and returns the first floor cell in
    /// row-major order, or `None` when every cell is a wall.
    ///
    /// When `image` is not exactly as large as the grid, nothing changes and
    /// `DimensionMismatch` is returned. `threshold_percent` is accepted for
    /// finer classification to come and does not change the result.
    pub fn set_tiles_from_bitmap(
        &mut self,
        image: &Bitmap,
        layer: i8,
        wall_texture: TileTexture,
        floor_texture: TileTexture,
        threshold_percent: u8,
    ) -> (r: Result<Option<(usize, usize)>, GridError>)
        requires
            old(self).wf(),
            image.wf(),
        ensures
            final(self).wf(),
            old(self).same_frame(*final(self)),
            r is Err <==> (image.width != old(self).width || image.height != old(self).height),
            r is Err ==> *final(self) == *old(self) && r == Err::<Option<(usize, usize)>, GridError>(
                GridError::DimensionMismatch {
                    grid_width: old(self).width,
                    grid_height: old(self).height,
                    image_width: image.width,
                    image_height: image.height,
                },
            ),
            r is Ok ==> forall|x: int, y: int, l: int|
                final(self).in_bounds(x, y) && valid_layer(l) ==> #[trigger] final(self).tile_at(
                    x,
                    y,
                    l,
                ) == if l == layer {
                    imported_tile(image.pixel_at(x, y), wall_texture, floor_texture)
                } else {
                    old(self).tile_at(x, y, l)
                },
            r matches Ok(spawn) ==> is_spawn(image, spawn),
    {
        if image.width != self.width || image.height != self.height {
            return Err(
                GridError::DimensionMismatch {
                    grid_width: self.width,
                    grid_height: self.height,
                    image_width: image.width,
                    image_height: image.height,
                },
            );
        }
        let ghost before = *self;
        let n = self.width * self.height;
        let mut cells: Vec<Tile> = Vec::new();
        let mut first: Option<usize> = None;
        let mut i: usize = 0;
        while i < n
            invariant
                i <= n,
                n == image.pixels@.len(),
                cells@.len() == i,
                forall|j: int|
                    0 <= j < i ==> cells@[j] == imported_tile(
                        #[trigger] image.pixels@[j],
                        wall_texture,
                        floor_texture,
                    ),
                first matches Some(f) ==> f < i && !is_wall_color(image.pixels@[f as int]) && forall|
                    j: int,
                | 0 <= j < f ==> is_wall_color(#[trigger] image.pixels@[j]),
                first is None ==> forall|j: int| 0 <= j < i ==> is_wall_color(#[trigger] image.pixels@[j]),
            decreases n - i,
        {
            let c = image.pixels[i];
            let light = !is_wall_pixel(c);
            if light && first.is_none() {
                first = Some(i);
            }
            let texture = if light {
                floor_texture
            } else {
                wall_texture
            };
            cells.push(Tile::Filled { texture, height_offset: None, blend_color: Some(c) });
            i += 1;
        }
        let s = slot(layer);
        self.layers.set(s, cells);
        assert forall|x: int, y: int, l: int|
            self.in_bounds(x, y) && valid_layer(l) implies #[trigger] self.tile_at(x, y, l) == if l
            == layer {
            imported_tile(image.pixel_at(x, y), wall_texture, floor_texture)
        } else {
            before.tile_at(x, y, l)
        } by {
            lemma_cell_index(self.width as int, self.height as int, x, y);
        }
        assert forall|x: int, y: int| #[trigger]
            self.in_bounds(x, y) implies 0 <= y * image.width + x < n by {
            lemma_cell_index(self.width as int, self.height as int, x, y);
        }
        match first {
            None => {
                proof {
                    assert forall|x: int, y: int|
                        0 <= x < image.width && 0 <= y < image.height implies is_wall_color(
                            #[trigger] image.pixel_at(x, y),
                        ) by {
                        lemma_cell_index(image.width as int, image.height as int, x, y);
                        assert(is_wall_color(image.pixels@[y * image.width + x]));
                    }
                }
                Ok(None)
            },
            Some(f) => {
                proof {
                    lemma_cell_of_index(self.width as int, self.height as int, f as int);
                }
                Ok(Some((f % self.width, f / self.width)))
            },
        }
    }

    /// Switches play from layer `current` to layer `next`, filled from
    /// `image` as by [`TileMap::set_tiles_from_bitmap`], whose result it
    /// returns. Before the import, when the layer changes, the near-white
    /// tints of `current` fade to `fade_alpha`; when `reset` is set, every
    /// layer is emptied instead and `background_layer` is filled with
    /// `background`.
    ///
    /// When `image` is not exactly as large as the grid, nothing changes and
    /// `DimensionMismatch` is returned.
    pub fn enter_layer(
        &mut self,
        image: &Bitmap,
        current: i8,
        next: i8,
        reset: bool,
        background_layer: i8,
        background: Tile,
        wall_texture: TileTexture,
        floor_texture: TileTexture,
        fade_alpha: u8,
    ) -> (r: Result<Option<(usize, usize)>, GridError>)
        requires
            old(self).wf(),
            image.wf(),
        ensures
            final(self).wf(),
            old(self).same_frame(*final(self)),
            r is Err <==> (image.width != old(self).width || image.height != old(self).height),
            r is Err ==> *final(self) == *old(self) && r == Err::<Option<(usize, usize)>, GridError>(
                GridError::DimensionMismatch {
                    grid_width: old(self).width,
                    grid_height: old(self).height,
                    image_width: image.width,
                    image_height: image.height,
                },
            ),
            r is Ok ==> forall|x: int, y: int, l: int|
                final(self).in_bounds(x, y) && valid_layer(l) ==> #[trigger] final(self).tile_at(
                    x,
                    y,
                    l,
                ) == if l == next {
                    imported_tile(image.pixel_at(x, y), wall_texture, floor_texture)
                } else if reset {
                    if l == background_layer {
                        background
                    } else {
                        Tile::Empty
                    }
                } else if l == current && current != next {
                    faded(old(self).tile_at(x, y, l), fade_alpha)
                } else {
                    old(self).tile_at(x, y, l)
                },
            r matches Ok(spawn) ==> is_spawn(image, spawn),
    {
        if image.width != self.width || image.height != self.height {
            return Err(
                GridError::DimensionMismatch {
                    grid_width: self.width,
                    grid_height: self.height,
                    image_width: image.width,
                    image_height: image.height,
                },
            );
        }
        let ghost orig = *self;
        if current != next {
            self.fade_light_blends(current, fade_alpha);
        }
        let ghost faded_map = *self;
        if reset {
            self.clear();
            self.fill_layer(background_layer, background);
        }
        let ghost prepared = *self;
        assert forall|x: int, y: int, l: int|
            orig.in_bounds(x, y) && valid_layer(l) && l != next implies #[trigger] prepared.tile_at(x, y, l)
            == if reset {
                if l == background_layer {
                    background
                } else {
                    Tile::Empty
                }
            } else if l == current && current != next {
                faded(orig.tile_at(x, y, l), fade_alpha)
            } else {
                orig.tile_at(x, y, l)
            } by {
            assert(faded_map.tile_at(x, y, l) == faded_map.tile_at(x, y, l));
        }
        self.set_tiles_from_bitmap(image, next, wall_texture, floor_texture, 0)
    }
}

} // verus!
