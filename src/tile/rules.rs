//! Play rules evaluated on the grid each frame: wall collision, objective
//! scans, path tracing and the spread of threats.
use vstd::prelude::*;

use crate::cell::lemma_cell_index;
use crate::color::Color;
use crate::tile::flood::{
    fill_reaches, fillable, is_fill_path, lemma_reach_suffix, lemma_reach_trans, lemma_reached_fillable,
};
use crate::tile::geometry::{in_radius, line_cell, line_steps, lemma_push_contains, row_major_before};
use crate::tile::{has_color, has_texture, valid_layer, with_blend, TileMap, TileTexture};

verus! {

/// Whether `(x, y)` is on the grid and holds a `texture` tile on `layer`.
pub open spec fn holds_texture(m: TileMap, layer: int, texture: TileTexture, x: int, y: int) -> bool {
    m.in_bounds(x, y) && has_texture(m.tile_at(x, y, layer), texture)
}

/// `a` and `b` have the same size and the same textures on `layer`.
pub open spec fn textures_agree(a: TileMap, b: TileMap, layer: int) -> bool {
    &&& a.width == b.width
    &&& a.height == b.height
    &&& forall|x: int, y: int, tex: TileTexture|
        a.in_bounds(x, y) ==> has_texture(a.tile_at(x, y, layer), tex) == #[trigger] has_texture(
            b.tile_at(x, y, layer),
            tex,
        )
}

/// Whether `(x, y)` is a floor cell in sight of, and within `radius` of,
/// one of the first `t` cells of `origins`.
pub open spec fn lit_by(
    m: TileMap,
    layer: int,
    radius: int,
    floor: TileTexture,
    wall: TileTexture,
    origins: Seq<(usize, usize)>,
    t: int,
    x: int,
    y: int,
) -> bool {
    &&& has_texture(m.tile_at(x, y, layer), floor)
    &&& exists|s: int|
        0 <= s < t && #[trigger] in_radius(origins[s].0 as int, origins[s].1 as int, radius, x, y)
            && sight_clear(m, layer, wall, origins[s].0 as int, origins[s].1 as int, x, y)
}

/// Whether `(x, y)` is a floor cell in sight of `(ox, oy)` among the first
/// `u` cells of `cells`.
pub open spec fn lit_among(
    m: TileMap,
    layer: int,
    floor: TileTexture,
    wall: TileTexture,
    ox: int,
    oy: int,
    cells: Seq<(usize, usize)>,
    u: int,
    x: int,
    y: int,
) -> bool {
    &&& has_texture(m.tile_at(x, y, layer), floor)
    &&& sight_clear(m, layer, wall, ox, oy, x, y)
    &&& exists|v: int| 0 <= v < u && #[trigger] cells[v] == (x as usize, y as usize)
}

/// Whether `(x, y)` is on one of `lines`, or reached from a cell of one of
/// them through cells of `layer` tinted `objective` that share an edge.
pub open spec fn completed_region(
    m: TileMap,
    layer: int,
    objective: Color,
    lines: Seq<Vec<(usize, usize)>>,
    x: int,
    y: int,
) -> bool {
    exists|i: int, j: int|
        0 <= i < lines.len() && 0 <= j < lines[i]@.len() && (#[trigger] lines[i]@[j] == (
            x as usize,
            y as usize,
        ) || fill_reaches(m, layer, objective, lines[i]@[j].0 as int, lines[i]@[j].1 as int, x, y))
}

/// Whether `(x, y)` is one of the first `k` of `cells`, or reached from one
/// of them through cells of `layer` tinted `objective` that share an edge.
pub open spec fn marked_by(
    m: TileMap,
    layer: int,
    objective: Color,
    cells: Seq<(usize, usize)>,
    k: int,
    x: int,
    y: int,
) -> bool {
    exists|j: int|
        0 <= j < k && (#[trigger] cells[j] == (x as usize, y as usize) || fill_reaches(
            m,
            layer,
            objective,
            cells[j].0 as int,
            cells[j].1 as int,
            x,
            y,
        ))
}

/// Once the first `k` of `cells` and their regions are tinted `done` (a
/// tint other than `objective`), the region reached from cell `k` is the
/// same as on the untouched grid, for every cell not yet tinted.
proof fn lemma_fill_matches(
    orig: TileMap,
    now: TileMap,
    layer: int,
    objective: Color,
    done: Color,
    cells: Seq<(usize, usize)>,
    k: int,
    x: int,
    y: int,
)
    requires
        objective != done,
        0 <= k < cells.len(),
        orig.same_frame(now),
        forall|a: int, b: int|
            orig.in_bounds(a, b) ==> #[trigger] now.tile_at(a, b, layer) == if marked_by(
                orig,
                layer,
                objective,
                cells,
                k,
                a,
                b,
            ) {
                with_blend(orig.tile_at(a, b, layer), Some(done))
            } else {
                orig.tile_at(a, b, layer)
            },
        !marked_by(orig, layer, objective, cells, k, x, y),
    ensures
        fill_reaches(now, layer, objective, cells[k].0 as int, cells[k].1 as int, x, y)
            == fill_reaches(orig, layer, objective, cells[k].0 as int, cells[k].1 as int, x, y),
{
    let (cx, cy) = (cells[k].0 as int, cells[k].1 as int);
    if fill_reaches(now, layer, objective, cx, cy, x, y) {
        let p = choose|p: Seq<(int, int)>|
            #[trigger] is_fill_path(now, layer, objective, p) && p[0] == (cx, cy) && p.last() == (x, y);
        assert forall|i: int| 0 <= i < p.len() implies fillable(
            orig,
            layer,
            objective,
            #[trigger] p[i].0,
            p[i].1,
        ) by {
            assert(fillable(now, layer, objective, p[i].0, p[i].1));
        }
        assert(is_fill_path(orig, layer, objective, p));
    }
    if fill_reaches(orig, layer, objective, cx, cy, x, y) {
        let p = choose|p: Seq<(int, int)>|
            #[trigger] is_fill_path(orig, layer, objective, p) && p[0] == (cx, cy) && p.last() == (x, y);
        assert forall|i: int| 0 <= i < p.len() implies fillable(
            now,
            layer,
            objective,
            #[trigger] p[i].0,
            p[i].1,
        ) by {
            let (a, b) = p[i];
            assert(fillable(orig, layer, objective, a, b));
            lemma_reach_suffix(orig, layer, objective, p, i);
            if marked_by(orig, layer, objective, cells, k, a, b) {
                let j = choose|j: int|
                    0 <= j < k && (#[trigger] cells[j] == (a as usize, b as usize) || fill_reaches(
                        orig,
                        layer,
                        objective,
                        cells[j].0 as int,
                        cells[j].1 as int,
                        a,
                        b,
                    ));
                if cells[j] == (a as usize, b as usize) {
                    assert(fill_reaches(orig, layer, objective, cells[j].0 as int, cells[j].1 as int, x, y));
                } else {
                    lemma_reach_trans(
                        orig,
                        layer,
                        objective,
                        (cells[j].0 as int, cells[j].1 as int),
                        (a, b),
                        (x, y),
                    );
                }
                assert(marked_by(orig, layer, objective, cells, k, x, y));
            }
        }
        assert(is_fill_path(now, layer, objective, p));
    }
}

/// Whether `q` is a cell of one of `lines`.
pub open spec fn from_lines(lines: Seq<Vec<(usize, usize)>>, q: (usize, usize)) -> bool {
    exists|i: int, j: int| 0 <= i < lines.len() && 0 <= j < lines[i]@.len() && #[trigger] lines[i]@[j] == q
}

/// Every cell of every one of `lines`, line after line.
fn line_cells(lines: &Vec<Vec<(usize, usize)>>) -> (r: Vec<(usize, usize)>)
    ensures
        forall|i: int, j: int|
            0 <= i < lines@.len() && 0 <= j < lines@[i]@.len() ==> r@.contains(#[trigger] lines@[i]@[j]),
        forall|k: int| 0 <= k < r@.len() ==> from_lines(lines@, #[trigger] r@[k]),
{
    let mut cells: Vec<(usize, usize)> = Vec::new();
    let mut a: usize = 0;
    while a < lines.len()
        invariant
            a <= lines@.len(),
            forall|i: int, j: int|
                0 <= i < a && 0 <= j < lines@[i]@.len() ==> cells@.contains(#[trigger] lines@[i]@[j]),
            forall|k: int| 0 <= k < cells@.len() ==> from_lines(lines@, #[trigger] cells@[k]),
        decreases lines@.len() - a,
    {
        let line = &lines[a];
        let mut b: usize = 0;
        while b < line.len()
            invariant
                a < lines@.len(),
                *line == lines@[a as int],
                b <= line@.len(),
                forall|i: int, j: int|
                    (0 <= i < a && 0 <= j < lines@[i]@.len()) || (i == a && 0 <= j < b) ==> cells@.contains(
                        #[trigger] lines@[i]@[j],
                    ),
                forall|k: int| 0 <= k < cells@.len() ==> from_lines(lines@, #[trigger] cells@[k]),
            decreases line@.len() - b,
        {
            let ghost before = cells@;
            cells.push(line[b]);
            proof {
                assert forall|i: int, j: int|
                    (0 <= i < a && 0 <= j < lines@[i]@.len()) || (i == a && 0 <= j < b + 1) implies cells@.contains(
                        #[trigger] lines@[i]@[j],
                    ) by {
                    lemma_push_contains(before, line@[b as int], lines@[i]@[j]);
                }
                assert forall|k: int| 0 <= k < cells@.len() implies from_lines(lines@, #[trigger] cells@[k]) by {
                    if k < before.len() {
                        assert(cells@[k] == before[k]);
                    } else {
                        assert(lines@[a as int]@[b as int] == cells@[k]);
                    }
                }
            }
            b += 1;
        }
        a += 1;
    }
    cells
}

/// Lines of sight depend on textures alone.
proof fn lemma_sight_agrees(
    a: TileMap,
    b: TileMap,
    layer: int,
    wall: TileTexture,
    x0: int,
    y0: int,
    x1: int,
    y1: int,
)
    requires
        textures_agree(a, b, layer),
    ensures
        sight_clear(a, layer, wall, x0, y0, x1, y1) == sight_clear(b, layer, wall, x0, y0, x1, y1),
{
    if sight_clear(a, layer, wall, x0, y0, x1, y1) {
        assert forall|i: int| 1 <= i < line_steps(x0, y0, x1, y1) implies !holds_texture(
            b,
            layer,
            wall,
            #[trigger] line_cell(x0, y0, x1, y1, i).0,
            line_cell(x0, y0, x1, y1, i).1,
        ) by {
            assert(!holds_texture(a, layer, wall, line_cell(x0, y0, x1, y1, i).0, line_cell(x0, y0, x1, y1, i).1));
        }
    }
    if sight_clear(b, layer, wall, x0, y0, x1, y1) {
        assert forall|i: int| 1 <= i < line_steps(x0, y0, x1, y1) implies !holds_texture(
            a,
            layer,
            wall,
            #[trigger] line_cell(x0, y0, x1, y1, i).0,
            line_cell(x0, y0, x1, y1, i).1,
        ) by {
            assert(!holds_texture(b, layer, wall, line_cell(x0, y0, x1, y1, i).0, line_cell(x0, y0, x1, y1, i).1));
        }
    }
}

/// Whether some cell of `layer` is tinted with `color`.
pub open spec fn layer_tinted(m: TileMap, layer: int, color: Color) -> bool {
    exists|x: int, y: int| m.in_bounds(x, y) && #[trigger] has_color(m.tile_at(x, y, layer), color)
}

/// Whether no cell strictly between the ends of the line from `(x0, y0)`
/// to `(x1, y1)` holds a wall.
pub open spec fn sight_clear(
    m: TileMap,
    layer: int,
    wall: TileTexture,
    x0: int,
    y0: int,
    x1: int,
    y1: int,
) -> bool {
    forall|i: int|
        1 <= i < line_steps(x0, y0, x1, y1) ==> !holds_texture(
            m,
            layer,
            wall,
            #[trigger] line_cell(x0, y0, x1, y1, i).0,
            line_cell(x0, y0, x1, y1, i).1,
        )
}

/// Whether no interior cell of `line` up to index `i` holds a wall.
pub open spec fn clear_through(m: TileMap, layer: int, wall: TileTexture, line: Seq<(usize, usize)>, i: int) -> bool {
    forall|j: int| 1 <= j <= i ==> !holds_texture(m, layer, wall, (#[trigger] line[j]).0 as int, line[j].1 as int)
}

/// Whether interior cell `i` of `line` is reached before any wall.
pub open spec fn traced(m: TileMap, layer: int, wall: TileTexture, line: Seq<(usize, usize)>, i: int) -> bool {
    1 <= i < line.len() - 1 && clear_through(m, layer, wall, line, i)
}

/// Whether `(x, y)` is an interior cell of `line` reached before any wall.
pub open spec fn traced_cell(
    m: TileMap,
    layer: int,
    wall: TileTexture,
    line: Seq<(usize, usize)>,
    x: int,
    y: int,
) -> bool {
    exists|i: int| #[trigger] traced(m, layer, wall, line, i) && line[i].0 == x && line[i].1 == y
}

/// Whether the threat front from the `threat`-tinted cells of `layer`
/// reaches `(x, y)`: a floor cell within `radius` of such a cell, with no
/// wall strictly between them.
pub open spec fn threat_reaches(
    m: TileMap,
    layer: int,
    radius: int,
    floor: TileTexture,
    wall: TileTexture,
    threat: Color,
    x: int,
    y: int,
) -> bool {
    &&& has_texture(m.tile_at(x, y, layer), floor)
    &&& exists|ox: int, oy: int|
        #![trigger in_radius(ox, oy, radius, x, y)]
        m.in_bounds(ox, oy) && has_color(m.tile_at(ox, oy, layer), threat) && in_radius(
            ox,
            oy,
            radius,
            x,
            y,
        ) && sight_clear(m, layer, wall, ox, oy, x, y)
}

/// Largest threat radius on a `width` by `height` grid: one and a quarter
/// times the larger side, rounded down.
pub fn max_threat_radius(width: usize, height: usize) -> (r: usize)
    requires
        width <= usize::MAX / 2,
        height <= usize::MAX / 2,
    ensures
        r == (if width >= height { width } else { height }) * 5 / 4,
{
    let m = if width >= height {
        width
    } else {
        height
    };
    m + m / 4
}

/// The threat radius after one more interval: it grows by one and wraps to
/// zero at `max`.
pub fn next_threat_radius(radius: usize, max: usize) -> (r: usize)
    requires
        radius < max,
    ensures
        r == (radius + 1) % (max as int),
{
    (radius + 1) % max
}

impl TileMap {
    /// Whether `(x, y)` is on the grid and holds a `wall` tile on `layer`.
    pub fn has_texture_at(&self, x: usize, y: usize, layer: i8, wall: TileTexture) -> (r: bool)
        requires
            self.wf(),
        ensures
            r == holds_texture(*self, layer as int, wall, x as int, y as int),
    {
        match self.get_tile(x, y, layer) {
            Some(crate::tile::Tile::Filled { texture, .. }) => texture == wall,
            _ => false,
        }
    }

    /// Whether a body whose corner is at `(x, y)` overlaps a wall: any of
    /// `(x, y)`, `(x + 1, y)`, `(x, y + 1)` and `(x + 1, y + 1)` holds a
    /// `wall` tile on `layer`.
    pub fn wall_collision(&self, x: usize, y: usize, layer: i8, wall: TileTexture) -> (r: bool)
        requires
            self.wf(),
        ensures
            r == (holds_texture(*self, layer as int, wall, x as int, y as int) || holds_texture(
                *self,
                layer as int,
                wall,
                x + 1,
                y as int,
            ) || holds_texture(*self, layer as int, wall, x as int, y + 1) || holds_texture(
                *self,
                layer as int,
                wall,
                x + 1,
                y + 1,
            )),
    {
        if self.has_texture_at(x, y, layer, wall) {
            return true;
        }
        if x < self.width && self.has_texture_at(x + 1, y, layer, wall) {
            return true;
        }
        if y < self.height && self.has_texture_at(x, y + 1, layer, wall) {
            return true;
        }
        x < self.width && y < self.height && self.has_texture_at(x + 1, y + 1, layer, wall)
    }

    /// Whether some cell of `layer` is tinted with `color`.
    pub fn layer_has_color(&self, layer: i8, color: Color) -> (r: bool)
        requires
            self.wf(),
        ensures
            r == layer_tinted(*self, layer as int, color),
    {
        let mut y: usize = 0;
        while y < self.height
            invariant
                self.wf(),
                y <= self.height,
                forall|a: int, b: int|
                    0 <= a < self.width && 0 <= b < y ==> !#[trigger] has_color(
                        self.tile_at(a, b, layer as int),
                        color,
                    ),
            decreases self.height - y,
        {
            let mut x: usize = 0;
            while x < self.width
                invariant
                    self.wf(),
                    y < self.height,
                    x <= self.width,
                    forall|a: int, b: int|
                        0 <= a < self.width && 0 <= b < y ==> !#[trigger] has_color(
                            self.tile_at(a, b, layer as int),
                            color,
                        ),
                    forall|a: int| 0 <= a < x ==> !#[trigger] has_color(self.tile_at(a, y as int, layer as int), color),
                decreases self.width - x,
            {
                if self.tile_has_color(x, y, layer, color) {
                    return true;
                }
                x += 1;
            }
            y += 1;
        }
        false
    }

    /// The cells of `layer` tinted with `color`, in row-major order.
    pub fn cells_with_color(&self, layer: i8, color: Color) -> (r: Vec<(usize, usize)>)
        requires
            self.wf(),
        ensures
            forall|i: int|
                0 <= i < r@.len() ==> self.in_bounds((#[trigger] r@[i]).0 as int, r@[i].1 as int)
                    && has_color(self.tile_at(r@[i].0 as int, r@[i].1 as int, layer as int), color),
            forall|x: int, y: int|
                self.in_bounds(x, y) && has_color(self.tile_at(x, y, layer as int), color)
                    ==> #[trigger] r@.contains((x as usize, y as usize)),
            forall|i: int, j: int|
                0 <= i < j < r@.len() ==> row_major_before(#[trigger] r@[i], #[trigger] r@[j]),
    {
        let mut cells: Vec<(usize, usize)> = Vec::new();
        let mut y: usize = 0;
        while y < self.height
            invariant
                self.wf(),
                y <= self.height,
                forall|i: int|
                    0 <= i < cells@.len() ==> self.in_bounds(
                        (#[trigger] cells@[i]).0 as int,
                        cells@[i].1 as int,
                    ) && has_color(self.tile_at(cells@[i].0 as int, cells@[i].1 as int, layer as int), color)
                        && cells@[i].1 < y,
                forall|a: int, b: int|
                    self.in_bounds(a, b) && b < y && has_color(self.tile_at(a, b, layer as int), color)
                        ==> #[trigger] cells@.contains((a as usize, b as usize)),
                forall|i: int, j: int|
                    0 <= i < j < cells@.len() ==> row_major_before(#[trigger] cells@[i], #[trigger] cells@[j]),
            decreases self.height - y,
        {
            let mut x: usize = 0;
            while x < self.width
                invariant
                    self.wf(),
                    y < self.height,
                    x <= self.width,
                    forall|i: int|
                        0 <= i < cells@.len() ==> self.in_bounds(
                            (#[trigger] cells@[i]).0 as int,
                            cells@[i].1 as int,
                        ) && has_color(self.tile_at(cells@[i].0 as int, cells@[i].1 as int, layer as int), color)
                            && (cells@[i].1 < y || (cells@[i].1 == y && cells@[i].0 < x)),
                    forall|i: int, j: int|
                        0 <= i < j < cells@.len() ==> row_major_before(#[trigger] cells@[i], #[trigger] cells@[j]),
                    forall|a: int, b: int|
                        self.in_bounds(a, b) && (b < y || (b == y && a < x)) && has_color(
                            self.tile_at(a, b, layer as int),
                            color,
                        ) ==> #[trigger] cells@.contains((a as usize, b as usize)),
                decreases self.width - x,
            {
                let ghost before = cells@;
                if self.tile_has_color(x, y, layer, color) {
                    cells.push((x, y));
                }
                proof {
                    assert forall|a: int, b: int|
                        self.in_bounds(a, b) && (b < y || (b == y && a < x + 1)) && has_color(
                            self.tile_at(a, b, layer as int),
                            color,
                        ) implies #[trigger] cells@.contains((a as usize, b as usize)) by {
                        lemma_push_contains(before, (x, y), (a as usize, b as usize));
                    }
                }
                x += 1;
            }
            y += 1;
        }
        cells
    }

    /// Whether no cell strictly between the ends of the line from
    /// `(x0, y0)` to `(x1, y1)` holds a `wall` tile on `layer`.
    pub fn sight_is_clear(
        &self,
        x0: usize,
        y0: usize,
        x1: usize,
        y1: usize,
        layer: i8,
        wall: TileTexture,
    ) -> (r: bool)
        requires
            self.wf(),
        ensures
            r == sight_clear(*self, layer as int, wall, x0 as int, y0 as int, x1 as int, y1 as int),
    {
        let line = self.tiles_on_line_between(x0, y0, x1, y1);
        let n = line.len() - 1;
        let mut i: usize = 1;
        while i < n
            invariant
                self.wf(),
                1 <= i,
                n == line@.len() - 1,
                n == line_steps(x0 as int, y0 as int, x1 as int, y1 as int),
                forall|k: int|
                    0 <= k < line@.len() ==> (#[trigger] line@[k]).0 == line_cell(
                        x0 as int,
                        y0 as int,
                        x1 as int,
                        y1 as int,
                        k,
                    ).0 && line@[k].1 == line_cell(x0 as int, y0 as int, x1 as int, y1 as int, k).1,
                forall|k: int|
                    1 <= k < i ==> !holds_texture(
                        *self,
                        layer as int,
                        wall,
                        #[trigger] line_cell(x0 as int, y0 as int, x1 as int, y1 as int, k).0,
                        line_cell(x0 as int, y0 as int, x1 as int, y1 as int, k).1,
                    ),
            decreases n - i,
        {
            let (x, y) = line[i];
            if self.has_texture_at(x, y, layer, wall) {
                return false;
            }
            i += 1;
        }
        true
    }

    /// Tints with `highlight` the interior cells of `line` (all but its
    /// first and last) on `layer`, in order, up to the first `wall` tile.
    /// Returns whether no interior cell holds a wall.
    pub fn trace_path(
        &mut self,
        line: &Vec<(usize, usize)>,
        layer: i8,
        wall: TileTexture,
        highlight: Color,
    ) -> (r: bool)
        requires
            old(self).wf(),
        ensures
            final(self).wf(),
            old(self).same_frame(*final(self)),
            r == clear_through(*old(self), layer as int, wall, line@, line@.len() - 2),
            forall|x: int, y: int, l: int|
                old(self).in_bounds(x, y) && valid_layer(l) ==> #[trigger] final(self).tile_at(
                    x,
                    y,
                    l,
                ) == if l == layer && traced_cell(*old(self), layer as int, wall, line@, x, y) {
                    with_blend(old(self).tile_at(x, y, l), Some(highlight))
                } else {
                    old(self).tile_at(x, y, l)
                },
    {
        let ghost orig = *self;
        let ghost lay = layer as int;
        let len = line.len();
        if len < 3 {
            assert forall|x: int, y: int| !traced_cell(orig, lay, wall, line@, x, y) by {}
            return true;
        }
        let mut i: usize = 1;
        while i < len - 1
            invariant
                self.wf(),
                orig == *old(self),
                orig.same_frame(*self),
                lay == layer,
                len == line@.len(),
                1 <= i <= len - 1,
                clear_through(orig, lay, wall, line@, i - 1),
                forall|x: int, y: int, l: int|
                    orig.in_bounds(x, y) && valid_layer(l) ==> #[trigger] self.tile_at(x, y, l) == if l
                        == layer && exists|j: int|
                        1 <= j < i && #[trigger] line@[j] == (x as usize, y as usize) {
                        with_blend(orig.tile_at(x, y, l), Some(highlight))
                    } else {
                        orig.tile_at(x, y, l)
                    },
            decreases len - 1 - i,
        {
            let (x, y) = line[i];
            if self.has_texture_at(x, y, layer, wall) {
                proof {
                    assert(holds_texture(orig, lay, wall, x as int, y as int));
                    assert forall|a: int, b: int, l: int|
                        orig.in_bounds(a, b) && valid_layer(l) implies #[trigger] self.tile_at(a, b, l)
                        == if l == layer && traced_cell(orig, lay, wall, line@, a, b) {
                        with_blend(orig.tile_at(a, b, l), Some(highlight))
                    } else {
                        orig.tile_at(a, b, l)
                    } by {
                        if traced_cell(orig, lay, wall, line@, a, b) {
                            let j = choose|j: int| #[trigger] traced(orig, lay, wall, line@, j) && line@[j].0 == a && line@[j].1 == b;
                            if j >= i {
                                assert(!holds_texture(orig, lay, wall, line@[i as int].0 as int, line@[i as int].1 as int));
                            }
                            assert(line@[j] == (a as usize, b as usize));
                        }
                        if exists|j: int| 1 <= j < i && #[trigger] line@[j] == (a as usize, b as usize) {
                            let j = choose|j: int| 1 <= j < i && #[trigger] line@[j] == (a as usize, b as usize);
                            assert(traced(orig, lay, wall, line@, j));
                        }
                    }
                    assert(!clear_through(orig, lay, wall, line@, len - 2));
                }
                return false;
            }
            let ghost before = *self;
            self.set_blend_color(x, y, layer, Some(highlight));
            proof {
                assert forall|a: int, b: int, l: int|
                    orig.in_bounds(a, b) && valid_layer(l) implies #[trigger] self.tile_at(a, b, l)
                    == if l == layer && exists|j: int|
                        1 <= j < i + 1 && #[trigger] line@[j] == (a as usize, b as usize) {
                        with_blend(orig.tile_at(a, b, l), Some(highlight))
                    } else {
                        orig.tile_at(a, b, l)
                    } by {
                    assert(self.lookup(a, b, l) == Some(self.tile_at(a, b, l)));
                    assert(before.lookup(a, b, l) == Some(before.tile_at(a, b, l)));
                    if a == x && b == y {
                        assert(line@[i as int] == (a as usize, b as usize));
                    } else if exists|j: int| 1 <= j < i + 1 && #[trigger] line@[j] == (a as usize, b as usize) {
                        let j = choose|j: int| 1 <= j < i + 1 && #[trigger] line@[j] == (a as usize, b as usize);
                        assert(j != i);
                    }
                }
            }
            i += 1;
        }
        proof {
            assert forall|a: int, b: int, l: int|
                orig.in_bounds(a, b) && valid_layer(l) implies #[trigger] self.tile_at(a, b, l)
                == if l == layer && traced_cell(orig, lay, wall, line@, a, b) {
                with_blend(orig.tile_at(a, b, l), Some(highlight))
            } else {
                orig.tile_at(a, b, l)
            } by {
                if traced_cell(orig, lay, wall, line@, a, b) {
                    let j = choose|j: int| #[trigger] traced(orig, lay, wall, line@, j) && line@[j].0 == a && line@[j].1 == b;
                    assert(line@[j] == (a as usize, b as usize));
                }
                if exists|j: int| 1 <= j < i && #[trigger] line@[j] == (a as usize, b as usize) {
                    let j = choose|j: int| 1 <= j < i && #[trigger] line@[j] == (a as usize, b as usize);
                    assert(traced(orig, lay, wall, line@, j));
                }
            }
        }
        true
    }

    /// Tints with `threat`, on `layer`, every cell the threat front reaches
    /// (see [`threat_reaches`]): floor cells within `radius` of a cell
    /// tinted with `threat`, with no `wall` strictly between them. The
    /// sources are those tinted before the call.
    pub fn spread_threats(
        &mut self,
        layer: i8,
        radius: isize,
        floor: TileTexture,
        wall: TileTexture,
        threat: Color,
    )
        requires
            old(self).wf(),
        ensures
            final(self).wf(),
            old(self).same_frame(*final(self)),
            forall|x: int, y: int, l: int|
                old(self).in_bounds(x, y) && valid_layer(l) ==> #[trigger] final(self).tile_at(
                    x,
                    y,
                    l,
                ) == if l == layer && threat_reaches(
                    *old(self),
                    layer as int,
                    radius as int,
                    floor,
                    wall,
                    threat,
                    x,
                    y,
                ) {
                    with_blend(old(self).tile_at(x, y, l), Some(threat))
                } else {
                    old(self).tile_at(x, y, l)
                },
    {
        let ghost orig = *self;
        let ghost lay = layer as int;
        let ghost rad = radius as int;
        let origins = self.cells_with_color(layer, threat);
        let mut t: usize = 0;
        while t < origins.len()
            invariant
                self.wf(),
                orig == *old(self),
                orig.same_frame(*self),
                lay == layer,
                rad == radius,
                t <= origins@.len(),
                forall|i: int|
                    0 <= i < origins@.len() ==> orig.in_bounds(
                        (#[trigger] origins@[i]).0 as int,
                        origins@[i].1 as int,
                    ) && has_color(orig.tile_at(origins@[i].0 as int, origins@[i].1 as int, lay), threat),
                forall|x: int, y: int, l: int|
                    orig.in_bounds(x, y) && valid_layer(l) ==> #[trigger] self.tile_at(x, y, l) == if l
                        == layer && lit_by(orig, lay, rad, floor, wall, origins@, t as int, x, y) {
                        with_blend(orig.tile_at(x, y, l), Some(threat))
                    } else {
                        orig.tile_at(x, y, l)
                    },
            decreases origins@.len() - t,
        {
            let (ox, oy) = origins[t];
            proof {
                lemma_cell_index(orig.width as int, orig.height as int, ox as int, oy as int);
                assert(oy <= oy * orig.width + ox) by (nonlinear_arith)
                    requires
                        ox < orig.width,
                        0 <= oy,
                        0 <= ox,
                ;
            }
            let cells = self.tiles_on_radius(ox as isize, oy as isize, radius);
            let mut u: usize = 0;
            while u < cells.len()
                invariant
                    self.wf(),
                    orig == *old(self),
                    orig.same_frame(*self),
                    lay == layer,
                    rad == radius,
                    u <= cells@.len(),
                    forall|i: int|
                        0 <= i < cells@.len() ==> orig.in_bounds(
                            (#[trigger] cells@[i]).0 as int,
                            cells@[i].1 as int,
                        ),
                    forall|x: int, y: int, l: int|
                        orig.in_bounds(x, y) && valid_layer(l) ==> #[trigger] self.tile_at(x, y, l)
                            == if l == layer && (lit_by(orig, lay, rad, floor, wall, origins@, t as int, x, y)
                            || lit_among(orig, lay, floor, wall, ox as int, oy as int, cells@, u as int, x, y)) {
                            with_blend(orig.tile_at(x, y, l), Some(threat))
                        } else {
                            orig.tile_at(x, y, l)
                        },
                decreases cells@.len() - u,
            {
                let (x, y) = cells[u];
                proof {
                    assert forall|a: int, b: int, tex: TileTexture|
                        orig.in_bounds(a, b) implies has_texture(orig.tile_at(a, b, lay), tex)
                        == #[trigger] has_texture(self.tile_at(a, b, lay), tex) by {}
                    lemma_sight_agrees(orig, *self, lay, wall, ox as int, oy as int, x as int, y as int);
                }
                let ghost before = *self;
                let lit = self.has_texture_at(x, y, layer, floor) && self.sight_is_clear(
                    ox,
                    oy,
                    x,
                    y,
                    layer,
                    wall,
                );
                if lit {
                    self.set_blend_color(x, y, layer, Some(threat));
                }
                proof {
                    assert forall|a: int, b: int, l: int|
                        orig.in_bounds(a, b) && valid_layer(l) implies #[trigger] self.tile_at(a, b, l)
                        == if l == layer && (lit_by(orig, lay, rad, floor, wall, origins@, t as int, a, b)
                            || lit_among(orig, lay, floor, wall, ox as int, oy as int, cells@, u + 1, a, b)) {
                            with_blend(orig.tile_at(a, b, l), Some(threat))
                        } else {
                            orig.tile_at(a, b, l)
                        } by {
                        assert(self.lookup(a, b, l) == Some(self.tile_at(a, b, l)));
                        assert(before.lookup(a, b, l) == Some(before.tile_at(a, b, l)));
                        if a == x && b == y {
                            if lit {
                                assert(cells@[u as int] == (a as usize, b as usize));
                            }
                        }
                        if lit_among(orig, lay, floor, wall, ox as int, oy as int, cells@, u + 1, a, b) {
                            let v = choose|v: int| 0 <= v < u + 1 && #[trigger] cells@[v] == (a as usize, b as usize);
                            if v < u {
                                assert(lit_among(orig, lay, floor, wall, ox as int, oy as int, cells@, u as int, a, b));
                            }
                        }
                        if lit_among(orig, lay, floor, wall, ox as int, oy as int, cells@, u as int, a, b) {
                            let v = choose|v: int| 0 <= v < u && #[trigger] cells@[v] == (a as usize, b as usize);
                            assert(0 <= v < u + 1 && cells@[v] == (a as usize, b as usize));
                        }
                    }
                }
                u += 1;
            }
            proof {
                assert forall|a: int, b: int, l: int|
                    orig.in_bounds(a, b) && valid_layer(l) implies #[trigger] self.tile_at(a, b, l)
                    == if l == layer && lit_by(orig, lay, rad, floor, wall, origins@, t + 1, a, b) {
                        with_blend(orig.tile_at(a, b, l), Some(threat))
                    } else {
                        orig.tile_at(a, b, l)
                    } by {
                    let here = lit_among(orig, lay, floor, wall, ox as int, oy as int, cells@, cells@.len() as int, a, b);
                    if here {
                        let v = choose|v: int| 0 <= v < cells@.len() && #[trigger] cells@[v] == (a as usize, b as usize);
                        assert(in_radius(ox as int, oy as int, rad, cells@[v].0 as int, cells@[v].1 as int));
                        assert(origins@[t as int] == (ox, oy));
                        assert(in_radius(origins@[t as int].0 as int, origins@[t as int].1 as int, rad, a, b));
                    }
                    if lit_by(orig, lay, rad, floor, wall, origins@, t + 1, a, b) {
                        let s = choose|s: int|
                            0 <= s < t + 1 && #[trigger] in_radius(origins@[s].0 as int, origins@[s].1 as int, rad, a, b)
                                && sight_clear(orig, lay, wall, origins@[s].0 as int, origins@[s].1 as int, a, b);
                        if s == t {
                            assert(cells@.contains((a as usize, b as usize)));
                            let v = choose|v: int| 0 <= v < cells@.len() && cells@[v] == (a as usize, b as usize);
                            assert(cells@[v] == (a as usize, b as usize));
                            assert(here);
                        } else {
                            assert(lit_by(orig, lay, rad, floor, wall, origins@, t as int, a, b));
                        }
                    }
                    if lit_by(orig, lay, rad, floor, wall, origins@, t as int, a, b) {
                        let s = choose|s: int|
                            0 <= s < t && #[trigger] in_radius(origins@[s].0 as int, origins@[s].1 as int, rad, a, b)
                                && sight_clear(orig, lay, wall, origins@[s].0 as int, origins@[s].1 as int, a, b);
                        assert(0 <= s < t + 1);
                    }
                }
            }
            t += 1;
        }
        proof {
            assert forall|a: int, b: int, l: int|
                orig.in_bounds(a, b) && valid_layer(l) implies #[trigger] self.tile_at(a, b, l)
                == if l == layer && threat_reaches(orig, lay, rad, floor, wall, threat, a, b) {
                    with_blend(orig.tile_at(a, b, l), Some(threat))
                } else {
                    orig.tile_at(a, b, l)
                } by {
                if lit_by(orig, lay, rad, floor, wall, origins@, origins@.len() as int, a, b) {
                    let s = choose|s: int|
                        0 <= s < origins@.len() && #[trigger] in_radius(origins@[s].0 as int, origins@[s].1 as int, rad, a, b)
                            && sight_clear(orig, lay, wall, origins@[s].0 as int, origins@[s].1 as int, a, b);
                    let (ox, oy) = origins@[s];
                    assert(orig.in_bounds(ox as int, oy as int) && has_color(orig.tile_at(ox as int, oy as int, lay), threat));
                }
                if threat_reaches(orig, lay, rad, floor, wall, threat, a, b) {
                    let (ox, oy) = choose|ox: int, oy: int|
                        #![trigger in_radius(ox, oy, rad, a, b)]
                        orig.in_bounds(ox, oy) && has_color(orig.tile_at(ox, oy, lay), threat) && in_radius(ox, oy, rad, a, b)
                            && sight_clear(orig, lay, wall, ox, oy, a, b);
                    assert(origins@.contains((ox as usize, oy as usize)));
                    let s = choose|s: int| 0 <= s < origins@.len() && origins@[s] == (ox as usize, oy as usize);
                    assert(in_radius(origins@[s].0 as int, origins@[s].1 as int, rad, a, b));
                }
            }
        }
    }

    /// Marks completed paths: for each cell of each of `lines`, in order,
    /// flood-fills its `objective`-tinted region of `layer` with `done` and
    /// then tints the cell itself `done`.
    ///
    /// The result depends only on the grid before the call (see
    /// [`completed_region`]): a cell of `layer` takes the `done` tint exactly
    /// when it lies on a line or is reached from a cell of a line through
    /// `objective`-tinted cells sharing an edge; every other cell is
    /// unchanged.
    pub fn mark_completed(
        &mut self,
        lines: &Vec<Vec<(usize, usize)>>,
        layer: i8,
        objective: Color,
        done: Color,
    )
        requires
            old(self).wf(),
        ensures
            final(self).wf(),
            old(self).same_frame(*final(self)),
            forall|x: int, y: int, l: int|
                old(self).in_bounds(x, y) && valid_layer(l) ==> #[trigger] final(self).tile_at(x, y, l)
                    == if l == layer && completed_region(
                    *old(self),
                    layer as int,
                    objective,
                    lines@,
                    x,
                    y,
                ) {
                    with_blend(old(self).tile_at(x, y, l), Some(done))
                } else {
                    old(self).tile_at(x, y, l)
                },
    {
        let ghost orig = *self;
        let ghost lay = layer as int;
        let cells = line_cells(lines);
        let mut k: usize = 0;
        while k < cells.len()
            invariant
                self.wf(),
                orig == *old(self),
                orig.same_frame(*self),
                lay == layer,
                k <= cells@.len(),
                forall|x: int, y: int, l: int|
                    orig.in_bounds(x, y) && valid_layer(l) ==> #[trigger] self.tile_at(x, y, l) == if l
                        == layer && marked_by(orig, lay, objective, cells@, k as int, x, y) {
                        with_blend(orig.tile_at(x, y, l), Some(done))
                    } else {
                        orig.tile_at(x, y, l)
                    },
            decreases cells@.len() - k,
        {
            let (cx, cy) = cells[k];
            let ghost before = *self;
            if objective != done {
                self.flood_fill_tiles(cx, cy, layer, objective, done);
            }
            let ghost filled = *self;
            self.set_blend_color(cx, cy, layer, Some(done));
            proof {
                assert forall|x: int, y: int, l: int|
                    orig.in_bounds(x, y) && valid_layer(l) implies #[trigger] self.tile_at(x, y, l) == if l
                        == layer && marked_by(orig, lay, objective, cells@, k + 1, x, y) {
                        with_blend(orig.tile_at(x, y, l), Some(done))
                    } else {
                        orig.tile_at(x, y, l)
                    } by {
                    assert(self.lookup(x, y, l) == Some(self.tile_at(x, y, l)));
                    assert(filled.lookup(x, y, l) == Some(filled.tile_at(x, y, l)));
                    assert(before.tile_at(x, y, l) == before.tile_at(x, y, l));
                    assert(cells@[k as int] == (cx, cy));
                    let reach_orig = fill_reaches(orig, lay, objective, cx as int, cy as int, x, y);
                    let reach_now = fill_reaches(before, lay, objective, cx as int, cy as int, x, y);
                    if l == layer {
                        if reach_orig {
                            lemma_reached_fillable(orig, lay, objective, cx as int, cy as int, x, y);
                        }
                        if reach_now {
                            lemma_reached_fillable(before, lay, objective, cx as int, cy as int, x, y);
                        }
                        if objective != done && !marked_by(orig, lay, objective, cells@, k as int, x, y) {
                            lemma_fill_matches(orig, before, lay, objective, done, cells@, k as int, x, y);
                        }
                        if marked_by(orig, lay, objective, cells@, k as int, x, y) {
                            let j = choose|j: int|
                                0 <= j < k && (#[trigger] cells@[j] == (x as usize, y as usize) || fill_reaches(
                                    orig,
                                    lay,
                                    objective,
                                    cells@[j].0 as int,
                                    cells@[j].1 as int,
                                    x,
                                    y,
                                ));
                            assert(0 <= j < k + 1);
                        }
                        if x == cx && y == cy {
                            assert(marked_by(orig, lay, objective, cells@, k + 1, x, y));
                        } else if reach_orig {
                            assert(marked_by(orig, lay, objective, cells@, k + 1, x, y));
                        }
                        if marked_by(orig, lay, objective, cells@, k + 1, x, y) && !marked_by(
                            orig,
                            lay,
                            objective,
                            cells@,
                            k as int,
                            x,
                            y,
                        ) {
                            let j = choose|j: int|
                                0 <= j < k + 1 && (#[trigger] cells@[j] == (x as usize, y as usize)
                                    || fill_reaches(
                                    orig,
                                    lay,
                                    objective,
                                    cells@[j].0 as int,
                                    cells@[j].1 as int,
                                    x,
                                    y,
                                ));
                            if j < k {
                                assert(marked_by(orig, lay, objective, cells@, k as int, x, y));
                            }
                        }
                    }
                }
            }
            k += 1;
        }
        proof {
            assert forall|x: int, y: int|
                orig.in_bounds(x, y) implies marked_by(
                orig,
                lay,
                objective,
                cells@,
                cells@.len() as int,
                x,
                y,
            ) == completed_region(orig, lay, objective, lines@, x, y) by {
                if marked_by(orig, lay, objective, cells@, cells@.len() as int, x, y) {
                    let j = choose|j: int|
                        0 <= j < cells@.len() && (#[trigger] cells@[j] == (x as usize, y as usize)
                            || fill_reaches(orig, lay, objective, cells@[j].0 as int, cells@[j].1 as int, x, y));
                    let (p, q) = choose|p: int, q: int|
                        0 <= p < lines@.len() && 0 <= q < lines@[p]@.len() && #[trigger] lines@[p]@[q]
                            == cells@[j];
                    assert(lines@[p]@[q] == cells@[j]);
                }
                if completed_region(orig, lay, objective, lines@, x, y) {
                    let (p, q) = choose|p: int, q: int|
                        0 <= p < lines@.len() && 0 <= q < lines@[p]@.len() && (#[trigger] lines@[p]@[q] == (
                            x as usize,
                            y as usize,
                        ) || fill_reaches(
                            orig,
                            lay,
                            objective,
                            lines@[p]@[q].0 as int,
                            lines@[p]@[q].1 as int,
                            x,
                            y,
                        ));
                    assert(cells@.contains(lines@[p]@[q]));
                    let j = choose|j: int| 0 <= j < cells@.len() && cells@[j] == lines@[p]@[q];
                    assert(cells@[j] == lines@[p]@[q]);
                }
            }
        }
    }
}

} // verus!
