//! The layered tile grid: per-cell tile state for every layer.
use vstd::prelude::*;

use crate::cell::{lemma_cell_index, lemma_cell_unique};
use crate::color::Color;
use crate::viewport::{Viewport, SCALE_MIN};

pub mod flood;
pub mod geometry;
pub mod import;
pub mod region;
pub mod render;
pub mod rules;

verus! {

/// Number of layers a grid holds: one for each value of `i8`.
pub const LAYER_SLOTS: usize = 256;

/// Identity of a renderable texture. Textures compare by identity only.
#[derive(Clone, Copy, Debug, PartialEq, Eq, Structural)]
pub struct TileTexture {
    pub id: u32,
}

impl TileTexture {
    /// The texture handle with identity `id`.
    pub fn new(id: u32) -> (r: TileTexture)
        ensures
            r.id == id,
    {
        TileTexture { id }
    }
}

/// The state of one grid cell on one layer.
#[derive(Clone, Copy, Debug, PartialEq, Eq, Structural)]
pub enum Tile {
    Empty,
    Filled {
        /// Texture drawn for the cell.
        texture: TileTexture,
        /// Vertical render nudge, in hundredths of a grid unit.
        height_offset: Option<i32>,
        /// Tint drawn over the texture.
        blend_color: Option<Color>,
    },
}

/// Whether `t` is filled and tinted with `color`.
pub open spec fn has_color(t: Tile, color: Color) -> bool {
    match t {
        Tile::Filled { blend_color: Some(c), .. } => c == color,
        _ => false,
    }
}

/// `t` with its blend color replaced by `blend`; an empty tile stays empty.
pub open spec fn with_blend(t: Tile, blend: Option<Color>) -> Tile {
    match t {
        Tile::Empty => Tile::Empty,
        Tile::Filled { texture, height_offset, .. } => Tile::Filled {
            texture,
            height_offset,
            blend_color: blend,
        },
    }
}

/// `t` with its height offset replaced by `height`; an empty tile stays
/// empty.
pub open spec fn with_height(t: Tile, height: Option<i32>) -> Tile {
    match t {
        Tile::Empty => Tile::Empty,
        Tile::Filled { texture, blend_color, .. } => Tile::Filled {
            texture,
            height_offset: height,
            blend_color,
        },
    }
}

/// Whether `t` is filled with `texture`.
pub open spec fn has_texture(t: Tile, texture: TileTexture) -> bool {
    match t {
        Tile::Filled { texture: tx, .. } => tx == texture,
        Tile::Empty => false,
    }
}

/// Whether `c` is near white: red, green and blue all at least `230`.
pub open spec fn is_near_white(c: Color) -> bool {
    c.red >= 230 && c.green >= 230 && c.blue >= 230
}

/// `t` with a near-white blend color faded to `alpha`; other tiles as they
/// are.
pub open spec fn faded(t: Tile, alpha: u8) -> Tile {
    match t {
        Tile::Filled { texture, height_offset, blend_color: Some(c) } => if is_near_white(c) {
            Tile::Filled {
                texture,
                height_offset,
                blend_color: Some(Color { alpha, ..c }),
            }
        } else {
            t
        },
        _ => t,
    }
}

/// Slot of `layer` in [`TileMap::layers`].
pub open spec fn layer_slot(layer: int) -> int {
    layer + 128
}

/// Whether `layer` is a layer index a grid holds.
pub open spec fn valid_layer(layer: int) -> bool {
    i8::MIN <= layer <= i8::MAX
}

/// A fixed-size grid of tiles over every layer, with the viewport through
/// which it is drawn.
///
/// `layers[layer + 128]` holds the row-major tiles of `layer`, or nothing
/// while every tile of that layer is empty.
pub struct TileMap {
    pub width: usize,
    pub height: usize,
    pub layers: Vec<Vec<Tile>>,
    pub draw_debug_info: bool,
    pub viewport: Viewport,
}

/// Slot of `layer` in [`TileMap::layers`].
pub(crate) fn slot(layer: i8) -> (r: usize)
    ensures
        r == layer_slot(layer as int),
        r < LAYER_SLOTS,
{
    (layer as i16 + 128) as usize
}

/// `t` with a near-white blend color faded to `alpha`.
fn fade_tile(t: Tile, alpha: u8) -> (r: Tile)
    ensures
        r == faded(t, alpha),
{
    match t {
        Tile::Filled { texture, height_offset, blend_color: Some(c) } => {
            if c.red >= 230 && c.green >= 230 && c.blue >= 230 {
                Tile::Filled {
                    texture,
                    height_offset,
                    blend_color: Some(Color { alpha, ..c }),
                }
            } else {
                t
            }
        },
        _ => t,
    }
}

/// `n` empty tiles.
fn empty_cells(n: usize) -> (r: Vec<Tile>)
    ensures
        r@.len() == n,
        forall|i: int| 0 <= i < n ==> r@[i] == Tile::Empty,
{
    let mut v: Vec<Tile> = Vec::new();
    let mut i: usize = 0;
    while i < n
        invariant
            i <= n,
            v@.len() == i,
            forall|j: int| 0 <= j < i ==> v@[j] == Tile::Empty,
        decreases n - i,
    {
        v.push(Tile::Empty);
        i += 1;
    }
    v
}

/// One unpopulated slot for every layer.
fn empty_layers() -> (r: Vec<Vec<Tile>>)
    ensures
        r@.len() == LAYER_SLOTS,
        forall|s: int| 0 <= s < LAYER_SLOTS ==> (#[trigger] r@[s])@.len() == 0,
{
    let mut v: Vec<Vec<Tile>> = Vec::new();
    let mut i: usize = 0;
    while i < LAYER_SLOTS
        invariant
            i <= LAYER_SLOTS,
            v@.len() == i,
            forall|j: int| 0 <= j < i ==> (#[trigger] v@[j])@.len() == 0,
        decreases LAYER_SLOTS - i,
    {
        v.push(Vec::new());
        i += 1;
    }
    v
}

impl TileMap {
    /// The cells of a layer fit in one allocation, every layer slot is
    /// unpopulated or holds exactly one tile per cell, and the viewport's
    /// scale is in range.
    pub open spec fn wf(&self) -> bool {
        &&& self.width * self.height <= isize::MAX
        &&& self.layers@.len() == LAYER_SLOTS
        &&& forall|s: int|
            0 <= s < LAYER_SLOTS ==> (#[trigger] self.layers@[s])@.len() == 0
                || self.layers@[s]@.len() == self.width * self.height
        &&& self.viewport.wf()
    }

    /// Whether `(x, y)` lies on the grid.
    pub open spec fn in_bounds(&self, x: int, y: int) -> bool {
        0 <= x < self.width && 0 <= y < self.height
    }

    /// The tile at the on-grid cell `(x, y)` of `layer`.
    pub open spec fn tile_at(&self, x: int, y: int, layer: int) -> Tile {
        let cells = self.layers@[layer_slot(layer)]@;
        if cells.len() == 0 {
            Tile::Empty
        } else {
            cells[y * self.width + x]
        }
    }

    /// The tile at `(x, y)` of `layer`, absent off the grid.
    pub open spec fn lookup(&self, x: int, y: int, layer: int) -> Option<Tile> {
        if self.in_bounds(x, y) {
            Some(self.tile_at(x, y, layer))
        } else {
            None
        }
    }

    /// `other` has this grid's dimensions, debug flag and viewport.
    pub open spec fn same_frame(&self, other: TileMap) -> bool {
        &&& other.width == self.width
        &&& other.height == self.height
        &&& other.draw_debug_info == self.draw_debug_info
        &&& other.viewport == self.viewport
    }

    /// `after` is this grid with the tile at `(x, y)` of `layer` replaced by
    /// `tile` when that cell is on the grid, and unchanged otherwise.
    pub open spec fn tile_set(&self, after: TileMap, x: int, y: int, layer: int, tile: Tile) -> bool {
        &&& self.same_frame(after)
        &&& forall|i: int, j: int, l: int|
            valid_layer(l) ==> #[trigger] after.lookup(i, j, l) == if i == x && j == y && l == layer
                && self.in_bounds(x, y) {
                Some(tile)
            } else {
                self.lookup(i, j, l)
            }
    }

    /// Returns an empty grid of `width` by `height` cells with an unpanned
    /// viewport at the smallest zoom scale. The cells of a layer must fit in
    /// one allocation.
    pub fn new(width: usize, height: usize) -> (r: TileMap)
        requires
            width * height <= isize::MAX,
        ensures
            r.wf(),
            r.width == width,
            r.height == height,
            !r.draw_debug_info,
            r.viewport.offset_x == 0,
            r.viewport.offset_y == 0,
            r.viewport.scale == SCALE_MIN,
            forall|x: int, y: int, l: int|
                r.in_bounds(x, y) && valid_layer(l) ==> #[trigger] r.tile_at(x, y, l) == Tile::Empty,
    {
        TileMap {
            width,
            height,
            layers: empty_layers(),
            draw_debug_info: false,
            viewport: Viewport::new(),
        }
    }

    /// The tile at `(x, y)` of `layer`, or `None` off the grid.
    pub fn get_tile(&self, x: usize, y: usize, layer: i8) -> (r: Option<Tile>)
        requires
            self.wf(),
        ensures
            r == self.lookup(x as int, y as int, layer as int),
    {
        if x >= self.width || y >= self.height {
            return None;
        }
        let s = slot(layer);
        if self.layers[s].len() == 0 {
            Some(Tile::Empty)
        } else {
            proof {
                lemma_cell_index(self.width as int, self.height as int, x as int, y as int);
            }
            Some(self.layers[s][y * self.width + x])
        }
    }

    /// The tile at `(x, y)` of `layer` when it is filled, or `None` when it
    /// is empty or off the grid.
    pub fn get_filled_tile(&self, x: usize, y: usize, layer: i8) -> (r: Option<Tile>)
        requires
            self.wf(),
        ensures
            r == (if self.in_bounds(x as int, y as int) && self.tile_at(
                x as int,
                y as int,
                layer as int,
            ) is Filled {
                Some(self.tile_at(x as int, y as int, layer as int))
            } else {
                None
            }),
    {
        match self.get_tile(x, y, layer) {
            Some(Tile::Empty) => None,
            other => other,
        }
    }

    /// Replaces the tile at `(x, y)` of `layer`; off the grid this does
    /// nothing.
    pub fn set_tile(&mut self, x: usize, y: usize, layer: i8, tile: Tile)
        requires
            old(self).wf(),
        ensures
            final(self).wf(),
            old(self).tile_set(*final(self), x as int, y as int, layer as int, tile),
            !old(self).in_bounds(x as int, y as int) ==> *final(self) == *old(self),
    {
        if x >= self.width || y >= self.height {
            return;
        }
        let ghost before = *self;
        let s = slot(layer);
        let n = self.width * self.height;
        if self.layers[s].len() == 0 {
            self.layers.set(s, empty_cells(n));
        }
        let ghost mid = *self;
        assert forall|i: int, j: int, l: int| valid_layer(l) && before.in_bounds(i, j)
            implies mid.tile_at(i, j, l) == before.tile_at(i, j, l) by {
            lemma_cell_index(before.width as int, before.height as int, i, j);
        }
        proof {
            lemma_cell_index(self.width as int, self.height as int, x as int, y as int);
        }
        let idx = y * self.width + x;
        let mut cells = Vec::new();
        std::mem::swap(&mut cells, &mut self.layers[s]);
        cells.set(idx, tile);
        self.layers.set(s, cells);
        assert forall|i: int, j: int, l: int| valid_layer(l) implies #[trigger] self.lookup(i, j, l)
            == if i == x && j == y && l == layer && before.in_bounds(x as int, y as int) {
            Some(tile)
        } else {
            before.lookup(i, j, l)
        } by {
            if before.in_bounds(i, j) {
                lemma_cell_index(before.width as int, before.height as int, i, j);
                if l == layer && (i != x || j != y) {
                    if j * before.width + i == y * before.width + x {
                        lemma_cell_unique(before.width as int, i, j, x as int, y as int);
                    }
                }
            }
        }
    }

    /// Whether the tile at `(x, y)` of `layer` is filled and tinted with
    /// `color`; false off the grid.
    pub fn tile_has_color(&self, x: usize, y: usize, layer: i8, color: Color) -> (r: bool)
        requires
            self.wf(),
        ensures
            r == (self.in_bounds(x as int, y as int) && has_color(
                self.tile_at(x as int, y as int, layer as int),
                color,
            )),
    {
        match self.get_tile(x, y, layer) {
            Some(Tile::Filled { blend_color: Some(c), .. }) => c == color,
            _ => false,
        }
    }

    /// Resets every cell of every layer to empty.
    pub fn clear(&mut self)
        requires
            old(self).wf(),
        ensures
            final(self).wf(),
            old(self).same_frame(*final(self)),
            forall|x: int, y: int, l: int|
                final(self).in_bounds(x, y) && valid_layer(l) ==> #[trigger] final(self).tile_at(
                    x,
                    y,
                    l,
                ) == Tile::Empty,
    {
        self.layers = empty_layers();
    }

    /// Replaces the blend color of the tile at `(x, y)` of `layer`; empty
    /// tiles and cells off the grid are left as they are.
    pub fn set_blend_color(&mut self, x: usize, y: usize, layer: i8, blend: Option<Color>)
        requires
            old(self).wf(),
        ensures
            final(self).wf(),
            old(self).tile_set(
                *final(self),
                x as int,
                y as int,
                layer as int,
                with_blend(old(self).tile_at(x as int, y as int, layer as int), blend),
            ),
    {
        if let Some(Tile::Filled { texture, height_offset, .. }) = self.get_tile(x, y, layer) {
            self.set_tile(x, y, layer, Tile::Filled { texture, height_offset, blend_color: blend });
        } else {
            proof {
                assert forall|i: int, j: int, l: int| valid_layer(l) implies #[trigger] self.lookup(
                    i,
                    j,
                    l,
                ) == if i == x && j == y && l == layer && self.in_bounds(x as int, y as int) {
                    Some(with_blend(self.tile_at(x as int, y as int, layer as int), blend))
                } else {
                    self.lookup(i, j, l)
                } by {}
            }
        }
    }

    /// Replaces the height offset of the tile at `(x, y)` of `layer`; empty
    /// tiles and cells off the grid are left as they are.
    pub fn set_height_offset(&mut self, x: usize, y: usize, layer: i8, height: Option<i32>)
        requires
            old(self).wf(),
        ensures
            final(self).wf(),
            old(self).tile_set(
                *final(self),
                x as int,
                y as int,
                layer as int,
                with_height(old(self).tile_at(x as int, y as int, layer as int), height),
            ),
    {
        if let Some(Tile::Filled { texture, blend_color, .. }) = self.get_tile(x, y, layer) {
            self.set_tile(x, y, layer, Tile::Filled { texture, height_offset: height, blend_color });
        } else {
            proof {
                assert forall|i: int, j: int, l: int| valid_layer(l) implies #[trigger] self.lookup(
                    i,
                    j,
                    l,
                ) == if i == x && j == y && l == layer && self.in_bounds(x as int, y as int) {
                    Some(with_height(self.tile_at(x as int, y as int, layer as int), height))
                } else {
                    self.lookup(i, j, l)
                } by {}
            }
        }
    }

    /// Sets every cell of `layer` to `tile`.
    pub fn fill_layer(&mut self, layer: i8, tile: Tile)
        requires
            old(self).wf(),
        ensures
            final(self).wf(),
            old(self).same_frame(*final(self)),
            forall|x: int, y: int, l: int|
                final(self).in_bounds(x, y) && valid_layer(l) ==> #[trigger] final(self).tile_at(
                    x,
                    y,
                    l,
                ) == if l == layer {
                    tile
                } else {
                    old(self).tile_at(x, y, l)
                },
    {
        let ghost before = *self;
        let n = self.width * self.height;
        let mut cells: Vec<Tile> = Vec::new();
        let mut i: usize = 0;
        while i < n
            invariant
                i <= n,
                cells@.len() == i,
                forall|j: int| 0 <= j < i ==> cells@[j] == tile,
            decreases n - i,
        {
            cells.push(tile);
            i += 1;
        }
        let s = slot(layer);
        self.layers.set(s, cells);
        assert forall|x: int, y: int, l: int|
            self.in_bounds(x, y) && valid_layer(l) implies #[trigger] self.tile_at(x, y, l) == if l
            == layer {
            tile
        } else {
            before.tile_at(x, y, l)
        } by {
            lemma_cell_index(self.width as int, self.height as int, x, y);
        }
    }

    /// Fades the blend colors of `layer` that are near white (red, green and
    /// blue all at least `230`) to an alpha of `alpha`.
    pub fn fade_light_blends(&mut self, layer: i8, alpha: u8)
        requires
            old(self).wf(),
        ensures
            final(self).wf(),
            old(self).same_frame(*final(self)),
            forall|x: int, y: int, l: int|
                final(self).in_bounds(x, y) && valid_layer(l) ==> #[trigger] final(self).tile_at(
                    x,
                    y,
                    l,
                ) == if l == layer {
                    faded(old(self).tile_at(x, y, l), alpha)
                } else {
                    old(self).tile_at(x, y, l)
                },
    {
        let ghost before = *self;
        let s = slot(layer);
        let n = self.layers[s].len();
        if n == 0 {
            return;
        }
        let mut cells: Vec<Tile> = Vec::new();
        let mut i: usize = 0;
        while i < n
            invariant
                i <= n,
                n == self.layers@[s as int]@.len(),
                s < self.layers@.len(),
                cells@.len() == i,
                forall|j: int| 0 <= j < i ==> cells@[j] == faded(self.layers@[s as int]@[j], alpha),
            decreases n - i,
        {
            cells.push(fade_tile(self.layers[s][i], alpha));
            i += 1;
        }
        self.layers.set(s, cells);
        assert forall|x: int, y: int, l: int|
            self.in_bounds(x, y) && valid_layer(l) implies #[trigger] self.tile_at(x, y, l) == if l
            == layer {
            faded(before.tile_at(x, y, l), alpha)
        } else {
            before.tile_at(x, y, l)
        } by {
            lemma_cell_index(self.width as int, self.height as int, x, y);
        }
    }
}

/// After a tile is set on the grid, reading that cell back yields it: the
/// most recently set tile is the one stored.
pub proof fn lemma_set_then_get(before: TileMap, after: TileMap, x: usize, y: usize, layer: i8, tile: Tile)
    requires
        before.wf(),
        before.in_bounds(x as int, y as int),
        before.tile_set(after, x as int, y as int, layer as int, tile),
    ensures
        after.lookup(x as int, y as int, layer as int) == Some(tile),
{
    assert(after.lookup(x as int, y as int, layer as int) == Some(tile));
}

/// Off the grid, reading a cell yields nothing and setting one changes no
/// cell.
pub proof fn lemma_off_grid(before: TileMap, after: TileMap, x: int, y: int, layer: i8, tile: Tile)
    requires
        before.wf(),
        !before.in_bounds(x, y),
        before.tile_set(after, x, y, layer as int, tile),
    ensures
        before.lookup(x, y, layer as int) is None,
        after.lookup(x, y, layer as int) is None,
        forall|i: int, j: int, l: i8| #[trigger] after.lookup(i, j, l as int) == before.lookup(i, j, l as int),
{
    assert(after.lookup(x, y, layer as int) == before.lookup(x, y, layer as int));
    assert forall|i: int, j: int, l: i8| #[trigger] after.lookup(i, j, l as int) == before.lookup(i, j, l as int) by {
        assert(valid_layer(l as int));
    }
}

} // verus!
