//! Flood fill: recoloring the connected region of cells that share a blend
//! color.
use vstd::prelude::*;
use vstd::set_lib::set_int_range;

use crate::cell::{lemma_cell_index, lemma_cell_unique};
use crate::color::Color;
use crate::tile::geometry::lemma_push_contains;
use crate::tile::{has_color, valid_layer, with_blend, TileMap};

verus! {

/// Whether `(x, y)` is on the grid and its tile on `layer` is tinted with
/// `color`.
pub open spec fn fillable(m: TileMap, layer: int, color: Color, x: int, y: int) -> bool {
    m.in_bounds(x, y) && has_color(m.tile_at(x, y, layer), color)
}

/// Whether cells `a` and `b` share an edge.
pub open spec fn adjacent(a: (int, int), b: (int, int)) -> bool {
    (a.0 == b.0 && (a.1 == b.1 + 1 || a.1 + 1 == b.1)) || (a.1 == b.1 && (a.0 == b.0 + 1 || a.0
        + 1 == b.0))
}

/// Whether `path` is a non-empty walk through fillable cells, each sharing
/// an edge with the next.
pub open spec fn is_fill_path(m: TileMap, layer: int, color: Color, path: Seq<(int, int)>) -> bool {
    &&& path.len() > 0
    &&& forall|k: int| 0 <= k < path.len() ==> fillable(m, layer, color, #[trigger] path[k].0, path[k].1)
    &&& forall|k: int| 0 <= k < path.len() - 1 ==> adjacent(#[trigger] path[k], path[k + 1])
}

/// Whether `(x, y)` is reached from `(sx, sy)` by a walk through fillable
/// cells of `layer`.
pub open spec fn fill_reaches(
    m: TileMap,
    layer: int,
    color: Color,
    sx: int,
    sy: int,
    x: int,
    y: int,
) -> bool {
    exists|path: Seq<(int, int)>|
        #[trigger] is_fill_path(m, layer, color, path) && path[0] == (sx, sy) && path.last() == (x,
            y)
}

/// Whether the cell `(x, y)` is marked in the row-major marks `vis`.
pub open spec fn marked(vis: Seq<bool>, width: int, x: int, y: int) -> bool {
    vis[y * width + x]
}

/// Whether the neighbor `(x, y)` needs no visit: it is off the grid, not
/// fillable, or marked.
pub open spec fn neighbor_done(m: TileMap, layer: int, color: Color, vis: Seq<bool>, x: int, y: int) -> bool {
    !fillable(m, layer, color, x, y) || marked(vis, m.width as int, x, y)
}

/// Whether every neighbor of `(x, y)` needs no visit.
pub open spec fn closed_at(m: TileMap, layer: int, color: Color, vis: Seq<bool>, x: int, y: int) -> bool {
    &&& neighbor_done(m, layer, color, vis, x - 1, y)
    &&& neighbor_done(m, layer, color, vis, x + 1, y)
    &&& neighbor_done(m, layer, color, vis, x, y - 1)
    &&& neighbor_done(m, layer, color, vis, x, y + 1)
}

/// The indices marked in `vis`.
pub open spec fn marked_set(vis: Seq<bool>) -> Set<int> {
    Set::new(|k: int| 0 <= k < vis.len() && vis[k])
}

/// `now` is `orig` with the tiles of `layer` at the marked cells tinted with
/// `replacement`.
pub open spec fn fill_state(
    now: TileMap,
    orig: TileMap,
    layer: int,
    replacement: Color,
    vis: Seq<bool>,
) -> bool {
    &&& now.wf()
    &&& orig.same_frame(now)
    &&& vis.len() == orig.width * orig.height
    &&& forall|x: int, y: int, l: int|
        orig.in_bounds(x, y) && valid_layer(l) ==> #[trigger] now.tile_at(x, y, l) == if l == layer
            && marked(vis, orig.width as int, x, y) {
            with_blend(orig.tile_at(x, y, l), Some(replacement))
        } else {
            orig.tile_at(x, y, l)
        }
}

/// Every cell a walk reaches is fillable.
pub proof fn lemma_reached_fillable(
    m: TileMap,
    layer: int,
    color: Color,
    sx: int,
    sy: int,
    x: int,
    y: int,
)
    requires
        fill_reaches(m, layer, color, sx, sy, x, y),
    ensures
        fillable(m, layer, color, x, y),
{
    let path = choose|path: Seq<(int, int)>|
        #[trigger] is_fill_path(m, layer, color, path) && path[0] == (sx, sy) && path.last() == (x,
            y);
    assert(fillable(m, layer, color, path[path.len() - 1].0, path[path.len() - 1].1));
}

/// The tail of a walk, from its cell `i` on, is a walk to the same end.
pub proof fn lemma_reach_suffix(m: TileMap, layer: int, color: Color, path: Seq<(int, int)>, i: int)
    requires
        is_fill_path(m, layer, color, path),
        0 <= i < path.len(),
    ensures
        fill_reaches(m, layer, color, path[i].0, path[i].1, path.last().0, path.last().1),
{
    let tail = path.subrange(i, path.len() as int);
    assert forall|k: int| 0 <= k < tail.len() - 1 implies adjacent(#[trigger] tail[k], tail[k + 1]) by {
        assert(tail[k] == path[i + k] && tail[k + 1] == path[i + k + 1]);
    }
    assert forall|k: int| 0 <= k < tail.len() implies fillable(
        m,
        layer,
        color,
        #[trigger] tail[k].0,
        tail[k].1,
    ) by {
        assert(tail[k] == path[i + k]);
    }
    assert(is_fill_path(m, layer, color, tail));
    assert(tail[0] == path[i] && tail.last() == path.last());
}

/// Reaching is transitive: a walk from `a` to `b` and one from `b` to `c`
/// join into a walk from `a` to `c`.
pub proof fn lemma_reach_trans(
    m: TileMap,
    layer: int,
    color: Color,
    a: (int, int),
    b: (int, int),
    c: (int, int),
)
    requires
        fill_reaches(m, layer, color, a.0, a.1, b.0, b.1),
        fill_reaches(m, layer, color, b.0, b.1, c.0, c.1),
    ensures
        fill_reaches(m, layer, color, a.0, a.1, c.0, c.1),
{
    let p = choose|p: Seq<(int, int)>|
        #[trigger] is_fill_path(m, layer, color, p) && p[0] == (a.0, a.1) && p.last() == (b.0, b.1);
    let q = choose|q: Seq<(int, int)>|
        #[trigger] is_fill_path(m, layer, color, q) && q[0] == (b.0, b.1) && q.last() == (c.0, c.1);
    let rest = q.subrange(1, q.len() as int);
    let r = p + rest;
    assert forall|k: int| 0 <= k < r.len() implies fillable(
        m,
        layer,
        color,
        #[trigger] r[k].0,
        r[k].1,
    ) by {
        if k < p.len() {
            assert(r[k] == p[k]);
        } else {
            assert(r[k] == q[k - p.len() + 1]);
        }
    }
    assert forall|k: int| 0 <= k < r.len() - 1 implies adjacent(#[trigger] r[k], r[k + 1]) by {
        if k < p.len() - 1 {
            assert(r[k] == p[k] && r[k + 1] == p[k + 1]);
        } else if k == p.len() - 1 {
            assert(r[k] == p.last() && r[k + 1] == q[1]);
            assert(adjacent(q[0], q[1]));
        } else {
            assert(r[k] == q[k - p.len() + 1] && r[k + 1] == q[k - p.len() + 2]);
        }
    }
    assert(is_fill_path(m, layer, color, r));
    assert(r[0] == p[0]);
    if q.len() == 1 {
        assert(r =~= p);
    } else {
        assert(r.last() == q.last());
    }
}

/// A walk from `(sx, sy)` extends by one fillable neighbor.
proof fn lemma_reach_extend(
    m: TileMap,
    layer: int,
    color: Color,
    sx: int,
    sy: int,
    a: (int, int),
    b: (int, int),
)
    requires
        fill_reaches(m, layer, color, sx, sy, a.0, a.1),
        fillable(m, layer, color, b.0, b.1),
        adjacent(a, b),
    ensures
        fill_reaches(m, layer, color, sx, sy, b.0, b.1),
{
    let path = choose|path: Seq<(int, int)>|
        #[trigger] is_fill_path(m, layer, color, path) && path[0] == (sx, sy) && path.last() == (a.0,
            a.1);
    let longer = path.push(b);
    assert(longer[longer.len() - 2] == a);
    assert forall|k: int| 0 <= k < longer.len() - 1 implies adjacent(
        #[trigger] longer[k],
        longer[k + 1],
    ) by {
        if k < path.len() - 1 {
            assert(longer[k] == path[k] && longer[k + 1] == path[k + 1]);
        }
    }
    assert(is_fill_path(m, layer, color, longer));
}

/// A set of marks that holds the start and is closed under fillable
/// neighbors holds every cell of every walk from the start.
proof fn lemma_closed_covers(
    m: TileMap,
    layer: int,
    color: Color,
    vis: Seq<bool>,
    sx: int,
    sy: int,
    path: Seq<(int, int)>,
)
    requires
        is_fill_path(m, layer, color, path),
        path[0] == (sx, sy),
        marked(vis, m.width as int, sx, sy),
        forall|x: int, y: int|
            m.in_bounds(x, y) && #[trigger] marked(vis, m.width as int, x, y) ==> closed_at(
                m,
                layer,
                color,
                vis,
                x,
                y,
            ),
    ensures
        marked(vis, m.width as int, path.last().0, path.last().1),
    decreases path.len(),
{
    if path.len() > 1 {
        let prefix = path.drop_last();
        assert(is_fill_path(m, layer, color, prefix)) by {
            assert forall|k: int| 0 <= k < prefix.len() - 1 implies adjacent(
                #[trigger] prefix[k],
                prefix[k + 1],
            ) by {
                assert(path[k] == prefix[k] && path[k + 1] == prefix[k + 1]);
            }
            assert forall|k: int| 0 <= k < prefix.len() implies fillable(
                m,
                layer,
                color,
                #[trigger] prefix[k].0,
                prefix[k].1,
            ) by {
                assert(path[k] == prefix[k]);
            }
        }
        lemma_closed_covers(m, layer, color, vis, sx, sy, prefix);
        let p = prefix.last();
        assert(p == path[path.len() - 2]);
        assert(adjacent(path[path.len() - 2], path[path.len() - 1]));
        assert(fillable(m, layer, color, p.0, p.1));
        assert(closed_at(m, layer, color, vis, p.0, p.1));
        assert(fillable(m, layer, color, path.last().0, path.last().1));
    }
}

/// Marking more cells keeps a neighbor done.
proof fn lemma_done_grows(m: TileMap, layer: int, color: Color, a: Seq<bool>, b: Seq<bool>, x: int, y: int)
    requires
        neighbor_done(m, layer, color, a, x, y),
        a.len() == b.len(),
        a.len() == m.width * m.height,
        forall|k: int| 0 <= k < a.len() && a[k] ==> b[k],
    ensures
        neighbor_done(m, layer, color, b, x, y),
{
    if fillable(m, layer, color, x, y) {
        lemma_cell_index(m.width as int, m.height as int, x, y);
    }
}

/// Marking more cells keeps a cell closed.
proof fn lemma_closed_grows(m: TileMap, layer: int, color: Color, a: Seq<bool>, b: Seq<bool>, x: int, y: int)
    requires
        closed_at(m, layer, color, a, x, y),
        a.len() == b.len(),
        a.len() == m.width * m.height,
        forall|k: int| 0 <= k < a.len() && a[k] ==> b[k],
    ensures
        closed_at(m, layer, color, b, x, y),
{
    lemma_done_grows(m, layer, color, a, b, x - 1, y);
    lemma_done_grows(m, layer, color, a, b, x + 1, y);
    lemma_done_grows(m, layer, color, a, b, x, y - 1);
    lemma_done_grows(m, layer, color, a, b, x, y + 1);
}

/// `n` unmarked flags.
fn unmarked(n: usize) -> (r: Vec<bool>)
    ensures
        r@.len() == n,
        forall|k: int| 0 <= k < n ==> !r@[k],
{
    let mut v: Vec<bool> = Vec::new();
    let mut i: usize = 0;
    while i < n
        invariant
            i <= n,
            v@.len() == i,
            forall|k: int| 0 <= k < i ==> !v@[k],
        decreases n - i,
    {
        v.push(false);
        i += 1;
    }
    v
}

/// There are at most as many marks as flags.
proof fn lemma_marked_bound(vis: Seq<bool>)
    ensures
        marked_set(vis).finite(),
        marked_set(vis).len() <= vis.len(),
{
    let range = set_int_range(0, vis.len() as int);
    vstd::set_lib::lemma_int_range(0, vis.len() as int);
    assert(marked_set(vis).subset_of(range));
    vstd::set_lib::lemma_len_subset(marked_set(vis), range);
}

/// Whether every cell marked in `vis` and reached from `(sx, sy)` is either
/// pending, closed, or the cell `(cx, cy)` being expanded.
pub open spec fn closed_but(
    m: TileMap,
    layer: int,
    color: Color,
    vis: Seq<bool>,
    pending: Seq<(usize, usize)>,
    cx: int,
    cy: int,
) -> bool {
    forall|i: int, j: int|
        m.in_bounds(i, j) && #[trigger] marked(vis, m.width as int, i, j) ==> pending.contains(
            (i as usize, j as usize),
        ) || closed_at(m, layer, color, vis, i, j) || (i == cx && j == cy)
}

/// Whether every pending cell is on the grid and marked.
pub open spec fn pending_marked(m: TileMap, vis: Seq<bool>, pending: Seq<(usize, usize)>) -> bool {
    forall|t: int|
        0 <= t < pending.len() ==> m.in_bounds((#[trigger] pending[t]).0 as int, pending[t].1 as int)
            && marked(vis, m.width as int, pending[t].0 as int, pending[t].1 as int)
}

/// Whether every marked cell is reached from `(sx, sy)`.
pub open spec fn marks_reached(m: TileMap, layer: int, color: Color, vis: Seq<bool>, sx: int, sy: int) -> bool {
    forall|i: int, j: int|
        m.in_bounds(i, j) && #[trigger] marked(vis, m.width as int, i, j) ==> fill_reaches(
            m,
            layer,
            color,
            sx,
            sy,
            i,
            j,
        )
}

/// Marks are a subset of the index range, so there are at most `len` of
/// them, and marking an unmarked index adds one.
proof fn lemma_marked_set(vis: Seq<bool>, k: int)
    requires
        0 <= k < vis.len(),
        !vis[k],
    ensures
        marked_set(vis).finite(),
        marked_set(vis).len() < vis.len(),
        marked_set(vis.update(k, true)) == marked_set(vis).insert(k),
        marked_set(vis.update(k, true)).len() == marked_set(vis).len() + 1,
{
    let range = set_int_range(0, vis.len() as int);
    vstd::set_lib::lemma_int_range(0, vis.len() as int);
    assert(marked_set(vis).subset_of(range));
    assert(marked_set(vis).insert(k).subset_of(range));
    vstd::set_lib::lemma_len_subset(marked_set(vis).insert(k), range);
    vstd::set_lib::lemma_len_subset(marked_set(vis), range);
    assert(marked_set(vis.update(k, true)) =~= marked_set(vis).insert(k));
}

impl TileMap {
    /// Visits the neighbor `(nx, ny)` of the reached cell `from`: when it is
    /// unmarked and still tinted with `color`, marks it, recolors it and
    /// queues it.
    fn fill_visit(
        &mut self,
        vis: &mut Vec<bool>,
        pending: &mut Vec<(usize, usize)>,
        nx: usize,
        ny: usize,
        layer: i8,
        color: Color,
        replacement: Color,
        Ghost(orig): Ghost<TileMap>,
        Ghost(sx): Ghost<int>,
        Ghost(sy): Ghost<int>,
        Ghost(from): Ghost<(int, int)>,
    )
        requires
            fill_state(*old(self), orig, layer as int, replacement, old(vis)@),
            orig.in_bounds(nx as int, ny as int),
            fill_reaches(orig, layer as int, color, sx, sy, from.0, from.1),
            adjacent(from, (nx as int, ny as int)),
            marks_reached(orig, layer as int, color, old(vis)@, sx, sy),
            pending_marked(orig, old(vis)@, old(pending)@),
            closed_but(orig, layer as int, color, old(vis)@, old(pending)@, from.0, from.1),
        ensures
            fill_state(*final(self), orig, layer as int, replacement, final(vis)@),
            marks_reached(orig, layer as int, color, final(vis)@, sx, sy),
            pending_marked(orig, final(vis)@, final(pending)@),
            closed_but(orig, layer as int, color, final(vis)@, final(pending)@, from.0, from.1),
            neighbor_done(orig, layer as int, color, final(vis)@, nx as int, ny as int),
            forall|k: int| 0 <= k < old(vis)@.len() && old(vis)@[k] ==> final(vis)@[k],
            forall|q: (usize, usize)| old(pending)@.contains(q) ==> final(pending)@.contains(q),
            (final(vis)@ == old(vis)@ && final(pending)@ == old(pending)@) || marked_set(
                final(vis)@,
            ).len() == marked_set(old(vis)@).len() + 1,
    {
        proof {
            lemma_cell_index(orig.width as int, orig.height as int, nx as int, ny as int);
        }
        let k = ny * self.width + nx;
        if vis[k] {
            return;
        }
        if !self.tile_has_color(nx, ny, layer, color) {
            return;
        }
        let ghost vis_before = vis@;
        let ghost pending_before = pending@;
        proof {
            lemma_reach_extend(orig, layer as int, color, sx, sy, from, (nx as int, ny as int));
            lemma_marked_set(vis@, k as int);
        }
        vis.set(k, true);
        self.set_blend_color(nx, ny, layer, Some(replacement));
        pending.push((nx, ny));
        proof {
            assert forall|x: int, y: int, l: int|
                orig.in_bounds(x, y) && valid_layer(l) implies #[trigger] self.tile_at(x, y, l) == if l
                == layer && marked(vis@, orig.width as int, x, y) {
                with_blend(orig.tile_at(x, y, l), Some(replacement))
            } else {
                orig.tile_at(x, y, l)
            } by {
                assert(self.lookup(x, y, l) == Some(self.tile_at(x, y, l)));
                lemma_cell_index(orig.width as int, orig.height as int, x, y);
                if y * orig.width + x == k {
                    lemma_cell_unique(orig.width as int, x, y, nx as int, ny as int);
                }
            }
            assert forall|x: int, y: int|
                orig.in_bounds(x, y) && #[trigger] marked(vis@, orig.width as int, x, y)
                    implies fill_reaches(orig, layer as int, color, sx, sy, x, y) by {
                lemma_cell_index(orig.width as int, orig.height as int, x, y);
                if y * orig.width + x == k {
                    lemma_cell_unique(orig.width as int, x, y, nx as int, ny as int);
                } else {
                    assert(marked(vis_before, orig.width as int, x, y));
                }
            }
            assert forall|q: (usize, usize)| pending_before.contains(q) implies pending@.contains(
                q,
            ) by {
                lemma_push_contains(pending_before, (nx, ny), q);
            }
            assert forall|t: int| 0 <= t < pending@.len() implies orig.in_bounds(
                (#[trigger] pending@[t]).0 as int,
                pending@[t].1 as int,
            ) && marked(vis@, orig.width as int, pending@[t].0 as int, pending@[t].1 as int) by {
                if t < pending_before.len() {
                    assert(pending@[t] == pending_before[t]);
                    let (a, b) = pending@[t];
                    lemma_cell_index(orig.width as int, orig.height as int, a as int, b as int);
                }
            }
            assert forall|i: int, j: int|
                orig.in_bounds(i, j) && #[trigger] marked(vis@, orig.width as int, i, j)
                    implies pending@.contains((i as usize, j as usize)) || closed_at(
                    orig,
                    layer as int,
                    color,
                    vis@,
                    i,
                    j,
                ) || (i == from.0 && j == from.1) by {
                lemma_cell_index(orig.width as int, orig.height as int, i, j);
                if j * orig.width + i == k {
                    lemma_cell_unique(orig.width as int, i, j, nx as int, ny as int);
                    lemma_push_contains(pending_before, (nx, ny), (i as usize, j as usize));
                } else {
                    assert(marked(vis_before, orig.width as int, i, j));
                    lemma_push_contains(pending_before, (nx, ny), (i as usize, j as usize));
                    if closed_at(orig, layer as int, color, vis_before, i, j) {
                        lemma_closed_grows(orig, layer as int, color, vis_before, vis@, i, j);
                    }
                }
            }
        }
    }

    /// Recolors, on `layer`, every cell reached from `(x, y)` through cells
    /// sharing an edge whose blend color is `match_color` (see
    /// [`fill_reaches`]) to `replacement_color`. Nothing changes when
    /// `(x, y)` is off the grid or not tinted with `match_color`. The fill
    /// stops at grid edges, at empty cells and at cells of another tint;
    /// wall tiles imported from a bitmap carry a grey tint, so a fill over a
    /// colored tint stops at them.
    pub fn flood_fill_tiles(
        &mut self,
        x: usize,
        y: usize,
        layer: i8,
        match_color: Color,
        replacement_color: Color,
    )
        requires
            old(self).wf(),
        ensures
            final(self).wf(),
            old(self).same_frame(*final(self)),
            forall|i: int, j: int, l: int|
                old(self).in_bounds(i, j) && valid_layer(l) ==> #[trigger] final(self).tile_at(
                    i,
                    j,
                    l,
                ) == if l == layer && fill_reaches(
                    *old(self),
                    layer as int,
                    match_color,
                    x as int,
                    y as int,
                    i,
                    j,
                ) {
                    with_blend(old(self).tile_at(i, j, l), Some(replacement_color))
                } else {
                    old(self).tile_at(i, j, l)
                },
    {
        let ghost orig = *self;
        let ghost lay = layer as int;
        if !self.tile_has_color(x, y, layer, match_color) {
            assert forall|i: int, j: int|
                !fill_reaches(orig, lay, match_color, x as int, y as int, i, j) by {
                if fill_reaches(orig, lay, match_color, x as int, y as int, i, j) {
                    let path = choose|path: Seq<(int, int)>|
                        #[trigger] is_fill_path(orig, lay, match_color, path) && path[0] == (
                            x as int,
                            y as int,
                        ) && path.last() == (i, j);
                    assert(fillable(orig, lay, match_color, path[0].0, path[0].1));
                }
            }
            return;
        }
        let n = self.width * self.height;
        let mut vis = unmarked(n);
        let mut pending: Vec<(usize, usize)> = Vec::new();
        proof {
            lemma_cell_index(orig.width as int, orig.height as int, x as int, y as int);
            let start = seq![(x as int, y as int)];
            assert(is_fill_path(orig, lay, match_color, start));
            assert(fill_reaches(orig, lay, match_color, x as int, y as int, x as int, y as int));
        }
        let ghost vis0 = vis@;
        let k0 = y * self.width + x;
        vis.set(k0, true);
        self.set_blend_color(x, y, layer, Some(replacement_color));
        pending.push((x, y));
        proof {
            assert forall|i: int, j: int, l: int|
                orig.in_bounds(i, j) && valid_layer(l) implies #[trigger] self.tile_at(i, j, l) == if l
                == lay && marked(vis@, orig.width as int, i, j) {
                with_blend(orig.tile_at(i, j, l), Some(replacement_color))
            } else {
                orig.tile_at(i, j, l)
            } by {
                assert(self.lookup(i, j, l) == Some(self.tile_at(i, j, l)));
                lemma_cell_index(orig.width as int, orig.height as int, i, j);
                if j * orig.width + i == k0 {
                    lemma_cell_unique(orig.width as int, i, j, x as int, y as int);
                }
            }
            assert forall|i: int, j: int|
                orig.in_bounds(i, j) && #[trigger] marked(vis@, orig.width as int, i, j)
                    implies fill_reaches(orig, lay, match_color, x as int, y as int, i, j)
                    && pending@.contains((i as usize, j as usize)) by {
                lemma_cell_index(orig.width as int, orig.height as int, i, j);
                if j * orig.width + i == k0 {
                    lemma_cell_unique(orig.width as int, i, j, x as int, y as int);
                    assert(pending@[0] == (i as usize, j as usize));
                } else {
                    assert(!vis0[j * orig.width + i]);
                }
            }
            lemma_marked_bound(vis@);
        }
        while pending.len() > 0
            invariant
                fill_state(*self, orig, lay, replacement_color, vis@),
                orig.wf(),
                lay == layer,
                n == orig.width * orig.height,
                marked(vis@, orig.width as int, x as int, y as int),
                orig.in_bounds(x as int, y as int),
                marks_reached(orig, lay, match_color, vis@, x as int, y as int),
                pending_marked(orig, vis@, pending@),
                closed_but(orig, lay, match_color, vis@, pending@, -1, -1),
                marked_set(vis@).finite(),
                marked_set(vis@).len() <= n,
            decreases n - marked_set(vis@).len(), pending@.len(),
        {
            let ghost pending0 = pending@;
            let ghost vis_start = vis@;
            let (cx, cy) = pending.pop().unwrap();
            let ghost popped = pending@;
            proof {
                assert(pending0[pending0.len() - 1] == (cx, cy));
                assert(pending0 == pending@.push((cx, cy)));
                lemma_cell_index(orig.width as int, orig.height as int, cx as int, cy as int);
                assert forall|t: int| 0 <= t < pending@.len() implies orig.in_bounds(
                    (#[trigger] pending@[t]).0 as int,
                    pending@[t].1 as int,
                ) && marked(vis@, orig.width as int, pending@[t].0 as int, pending@[t].1 as int) by {
                    assert(pending@[t] == pending0[t]);
                }
                assert forall|i: int, j: int|
                    orig.in_bounds(i, j) && #[trigger] marked(vis@, orig.width as int, i, j)
                        implies pending@.contains((i as usize, j as usize)) || closed_at(
                        orig,
                        lay,
                        match_color,
                        vis@,
                        i,
                        j,
                    ) || (i == cx && j == cy) by {
                    lemma_push_contains(pending@, (cx, cy), (i as usize, j as usize));
                }
            }
            let ghost from = (cx as int, cy as int);
            let ghost ks = y as int * orig.width as int + x as int;
            proof {
                lemma_cell_index(orig.width as int, orig.height as int, x as int, y as int);
            }
            if cx > 0 {
                self.fill_visit(&mut vis, &mut pending, cx - 1, cy, layer, match_color, replacement_color, Ghost(orig), Ghost(x as int), Ghost(y as int), Ghost(from));
            }
            let ghost vis1 = vis@;
            assert(vis1[ks]);
            if cx + 1 < self.width {
                self.fill_visit(&mut vis, &mut pending, cx + 1, cy, layer, match_color, replacement_color, Ghost(orig), Ghost(x as int), Ghost(y as int), Ghost(from));
            }
            let ghost vis2 = vis@;
            assert(vis2[ks]);
            if cy > 0 {
                self.fill_visit(&mut vis, &mut pending, cx, cy - 1, layer, match_color, replacement_color, Ghost(orig), Ghost(x as int), Ghost(y as int), Ghost(from));
            }
            let ghost vis3 = vis@;
            assert(vis3[ks]);
            if cy + 1 < self.height {
                self.fill_visit(&mut vis, &mut pending, cx, cy + 1, layer, match_color, replacement_color, Ghost(orig), Ghost(x as int), Ghost(y as int), Ghost(from));
            }
            proof {
                let w = orig.width as int;
                let (ci, cj) = (cx as int, cy as int);
                lemma_done_grows(orig, lay, match_color, vis1, vis@, ci - 1, cj);
                lemma_done_grows(orig, lay, match_color, vis2, vis@, ci + 1, cj);
                lemma_done_grows(orig, lay, match_color, vis3, vis@, ci, cj - 1);
                assert(closed_at(orig, lay, match_color, vis@, ci, cj));
                assert forall|i: int, j: int|
                    orig.in_bounds(i, j) && #[trigger] marked(vis@, w, i, j)
                        implies pending@.contains((i as usize, j as usize)) || closed_at(
                        orig,
                        lay,
                        match_color,
                        vis@,
                        i,
                        j,
                    ) || (i == -1 && j == -1) by {}
                lemma_marked_bound(vis@);
                assert(vis@[ks]);
            }
        }
        proof {
            assert forall|i: int, j: int|
                orig.in_bounds(i, j) && fill_reaches(orig, lay, match_color, x as int, y as int, i, j)
                    implies #[trigger] marked(vis@, orig.width as int, i, j) by {
                let path = choose|path: Seq<(int, int)>|
                    #[trigger] is_fill_path(orig, lay, match_color, path) && path[0] == (
                        x as int,
                        y as int,
                    ) && path.last() == (i, j);
                lemma_closed_covers(orig, lay, match_color, vis@, x as int, y as int, path);
            }
        }
    }
}

} // verus!
