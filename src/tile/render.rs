//! The order in which the grid's tiles are drawn.
use vstd::prelude::*;

use crate::cell::lemma_cell_of_index;
use crate::color::Color;
use crate::tile::{Tile, TileMap, TileTexture, LAYER_SLOTS};

verus! {

/// One filled tile to draw, with its cell and layer.
#[derive(Clone, Copy, Debug, PartialEq, Eq, Structural)]
pub struct DrawItem {
    pub x: usize,
    pub y: usize,
    pub layer: i8,
    pub texture: TileTexture,
    pub height_offset: Option<i32>,
    pub blend_color: Option<Color>,
}

/// The draw item for cell `k` (row-major) of layer slot `s`, if that tile is
/// filled.
pub open spec fn cell_item(m: TileMap, s: int, k: int) -> Seq<DrawItem> {
    let x = k % (m.width as int);
    let y = k / (m.width as int);
    match m.tile_at(x, y, s - 128) {
        Tile::Filled { texture, height_offset, blend_color } => seq![
            DrawItem {
                x: x as usize,
                y: y as usize,
                layer: (s - 128) as i8,
                texture,
                height_offset,
                blend_color,
            },
        ],
        Tile::Empty => seq![],
    }
}

/// Draw items of the first `k` cells (row-major) of layer slot `s`.
pub open spec fn slot_items(m: TileMap, s: int, k: int) -> Seq<DrawItem>
    decreases k,
{
    if k <= 0 {
        seq![]
    } else {
        slot_items(m, s, k - 1) + cell_item(m, s, k - 1)
    }
}

/// Draw items of the layer slots below `s`, lower layers first.
pub open spec fn items_below(m: TileMap, s: int) -> Seq<DrawItem>
    decreases s,
{
    if s <= 0 {
        seq![]
    } else {
        items_below(m, s - 1) + slot_items(m, s - 1, (m.width * m.height) as int)
    }
}

/// An unpopulated layer slot has nothing to draw.
proof fn lemma_empty_slot(m: TileMap, s: int, k: int)
    requires
        m.wf(),
        0 <= s < LAYER_SLOTS,
        m.layers@[s]@.len() == 0,
    ensures
        slot_items(m, s, k) == Seq::<DrawItem>::empty(),
    decreases k,
{
    if k > 0 {
        lemma_empty_slot(m, s, k - 1);
        assert(cell_item(m, s, k - 1) =~= seq![]);
        assert(slot_items(m, s, k) =~= Seq::<DrawItem>::empty());
    }
}

impl TileMap {
    /// Every filled tile to draw, in depth order: layers from lowest to
    /// highest, and within a layer in row-major order.
    pub fn draw_list(&self) -> (r: Vec<DrawItem>)
        requires
            self.wf(),
        ensures
            r@ == items_below(*self, LAYER_SLOTS as int),
    {
        let n = self.width * self.height;
        let mut items: Vec<DrawItem> = Vec::new();
        let mut s: usize = 0;
        while s < LAYER_SLOTS
            invariant
                s <= LAYER_SLOTS,
                self.wf(),
                n == self.width * self.height,
                items@ == items_below(*self, s as int),
            decreases LAYER_SLOTS - s,
        {
            let ghost start = items@;
            if self.layers[s].len() == 0 {
                proof {
                    lemma_empty_slot(*self, s as int, n as int);
                    assert(items_below(*self, s + 1) =~= items@);
                }
            } else {
                let layer: i8 = (s as i16 - 128) as i8;
                let mut k: usize = 0;
                while k < n
                    invariant
                        k <= n,
                        s < LAYER_SLOTS,
                        self.wf(),
                        n == self.width * self.height,
                        self.layers@[s as int]@.len() == n,
                        layer == s - 128,
                        items@ == start + slot_items(*self, s as int, k as int),
                    decreases n - k,
                {
                    proof {
                        lemma_cell_of_index(self.width as int, self.height as int, k as int);
                    }
                    let ghost before = items@;
                    match self.layers[s][k] {
                        Tile::Filled { texture, height_offset, blend_color } => {
                            items.push(
                                DrawItem {
                                    x: k % self.width,
                                    y: k / self.width,
                                    layer,
                                    texture,
                                    height_offset,
                                    blend_color,
                                },
                            );
                        },
                        Tile::Empty => {},
                    }
                    proof {
                        assert(items@ =~= start + slot_items(*self, s as int, k + 1));
                    }
                    k += 1;
                }
                proof {
                    assert(items_below(*self, s + 1) =~= items@);
                }
            }
            s += 1;
        }
        items
    }
}

} // verus!
