//! Edits over rectangular regions of cells, as made by a selection cursor.
use vstd::prelude::*;

use crate::color::Color;
use crate::tile::{valid_layer, with_blend, with_height, Tile, TileMap};

verus! {

/// An edit applied to each cell of a region.
#[derive(Clone, Copy, Debug, PartialEq, Eq, Structural)]
pub enum RegionEdit {
    /// Empties the cell.
    Clear,
    /// Raises a filled cell by `height` hundredths and tints it `color`.
    Highlight { height: i32, color: Color },
}

/// `t` after `edit`.
pub open spec fn edited(t: Tile, edit: RegionEdit) -> Tile {
    match edit {
        RegionEdit::Clear => Tile::Empty,
        RegionEdit::Highlight { height, color } => with_height(
            with_blend(t, Some(color)),
            Some(height),
        ),
    }
}

/// Whether `(x, y)` lies in the rectangle with corners `(x0, y0)` and
/// `(x1, y1)`, edges included.
pub open spec fn in_rect(x0: int, y0: int, x1: int, y1: int, x: int, y: int) -> bool {
    (if x0 <= x1 {
        x0 <= x <= x1
    } else {
        x1 <= x <= x0
    }) && (if y0 <= y1 {
        y0 <= y <= y1
    } else {
        y1 <= y <= y0
    })
}

/// `t` after `edit`.
fn edit_tile(t: Tile, edit: RegionEdit) -> (r: Tile)
    ensures
        r == edited(t, edit),
{
    match edit {
        RegionEdit::Clear => Tile::Empty,
        RegionEdit::Highlight { height, color } => match t {
            Tile::Empty => Tile::Empty,
            Tile::Filled { texture, .. } => Tile::Filled {
                texture,
                height_offset: Some(height),
                blend_color: Some(color),
            },
        },
    }
}

/// Smaller and larger of `a` and `b`.
pub open spec fn ordered(a: usize, b: usize) -> (usize, usize) {
    if a <= b {
        (a, b)
    } else {
        (b, a)
    }
}

/// The selection corners `(a, b)` after a click on `cell`: off the grid the
/// selection is dropped; with one corner set the click sets the second, the
/// two becoming the low and high corners of the rectangle; otherwise the
/// click starts a new selection at `cell`. A second corner is never set
/// without a first.
pub fn select_step(
    on_grid: bool,
    a: Option<(usize, usize)>,
    b: Option<(usize, usize)>,
    cell: (usize, usize),
) -> (r: (Option<(usize, usize)>, Option<(usize, usize)>))
    requires
        !(a is None && b is Some),
    ensures
        r == if !on_grid {
            (None::<(usize, usize)>, None::<(usize, usize)>)
        } else {
            match (a, b) {
                (Some(p), None) => (
                    Some((ordered(p.0, cell.0).0, ordered(p.1, cell.1).0)),
                    Some((ordered(p.0, cell.0).1, ordered(p.1, cell.1).1)),
                ),
                _ => (Some(cell), None),
            }
        },
{
    if !on_grid {
        return (None, None);
    }
    match (a, b) {
        (Some(p), None) => {
            let (x0, x1) = if p.0 <= cell.0 {
                (p.0, cell.0)
            } else {
                (cell.0, p.0)
            };
            let (y0, y1) = if p.1 <= cell.1 {
                (p.1, cell.1)
            } else {
                (cell.1, p.1)
            };
            (Some((x0, y0)), Some((x1, y1)))
        },
        _ => (Some(cell), None),
    }
}

impl TileMap {
    /// Applies `edit` to every on-grid cell of `layer` in the rectangle with
    /// corners `(x0, y0)` and `(x1, y1)`.
    pub fn edit_region(
        &mut self,
        x0: usize,
        y0: usize,
        x1: usize,
        y1: usize,
        layer: i8,
        edit: RegionEdit,
    )
        requires
            old(self).wf(),
        ensures
            final(self).wf(),
            old(self).same_frame(*final(self)),
            forall|x: int, y: int, l: int|
                old(self).in_bounds(x, y) && valid_layer(l) ==> #[trigger] final(self).tile_at(
                    x,
                    y,
                    l,
                ) == if l == layer && in_rect(x0 as int, y0 as int, x1 as int, y1 as int, x, y) {
                    edited(old(self).tile_at(x, y, l), edit)
                } else {
                    old(self).tile_at(x, y, l)
                },
    {
        let ghost orig = *self;
        let (xa, xb) = if x0 <= x1 {
            (x0, x1)
        } else {
            (x1, x0)
        };
        let (ya, yb) = if y0 <= y1 {
            (y0, y1)
        } else {
            (y1, y0)
        };
        let mut y: usize = ya;
        while y < self.height && y <= yb
            invariant
                self.wf(),
                orig == *old(self),
                orig.same_frame(*self),
                ya <= y,
                y <= yb + 1,
                xa == (if x0 <= x1 { x0 } else { x1 }),
                xb == (if x0 <= x1 { x1 } else { x0 }),
                ya == (if y0 <= y1 { y0 } else { y1 }),
                yb == (if y0 <= y1 { y1 } else { y0 }),
                forall|x: int, b: int, l: int|
                    orig.in_bounds(x, b) && valid_layer(l) ==> #[trigger] self.tile_at(x, b, l) == if l
                        == layer && in_rect(x0 as int, y0 as int, x1 as int, y1 as int, x, b) && b < y {
                        edited(orig.tile_at(x, b, l), edit)
                    } else {
                        orig.tile_at(x, b, l)
                    },
            decreases self.height - y,
        {
            let mut x: usize = xa;
            while x < self.width && x <= xb
                invariant
                    self.wf(),
                    orig == *old(self),
                    orig.same_frame(*self),
                    ya <= y <= yb,
                    y < self.height,
                    xa <= x,
                    x <= xb + 1,
                    xa == (if x0 <= x1 { x0 } else { x1 }),
                    xb == (if x0 <= x1 { x1 } else { x0 }),
                    ya == (if y0 <= y1 { y0 } else { y1 }),
                    yb == (if y0 <= y1 { y1 } else { y0 }),
                    forall|a: int, b: int, l: int|
                        orig.in_bounds(a, b) && valid_layer(l) ==> #[trigger] self.tile_at(a, b, l)
                            == if l == layer && in_rect(x0 as int, y0 as int, x1 as int, y1 as int, a, b)
                            && (b < y || (b == y && a < x)) {
                            edited(orig.tile_at(a, b, l), edit)
                        } else {
                            orig.tile_at(a, b, l)
                        },
                decreases self.width - x,
            {
                let ghost before = *self;
                let t = self.get_tile(x, y, layer).unwrap();
                self.set_tile(x, y, layer, edit_tile(t, edit));
                proof {
                    assert forall|a: int, b: int, l: int|
                        orig.in_bounds(a, b) && valid_layer(l) implies #[trigger] self.tile_at(a, b, l)
                        == if l == layer && in_rect(x0 as int, y0 as int, x1 as int, y1 as int, a, b)
                            && (b < y || (b == y && a < x + 1)) {
                            edited(orig.tile_at(a, b, l), edit)
                        } else {
                            orig.tile_at(a, b, l)
                        } by {
                        assert(self.lookup(a, b, l) == Some(self.tile_at(a, b, l)));
                        assert(before.lookup(a, b, l) == Some(before.tile_at(a, b, l)));
                    }
                }
                x += 1;
            }
            y += 1;
        }
    }
}

} // verus!
