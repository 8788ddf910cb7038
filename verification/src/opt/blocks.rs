//! What one level of quadtree merging does to a layer of tiles.
use vstd::prelude::*;

use crate::opt::lines::pos;
use crate::opt::quad::{max_int, TileView};

verus! {

/// Same as `Tile::spec_similar_quad`, on views.
pub open spec fn similar_quad(a: TileView, b: TileView) -> bool {
    &&& a.size == b.size
    &&& a.color == b.color
    &&& a.height == b.height
    &&& a.parent is None
    &&& b.parent is None
}

/// The four tiles of the block with corner `(x, y)` and side `s` all have
/// width `s`, match, and are unmerged.
pub open spec fn block_merges(v: Seq<TileView>, h: int, s: int, x: int, y: int) -> bool {
    let tl = v[pos(x, y, h)];
    &&& tl.size.0 == s
    &&& similar_quad(tl, v[pos(x + s, y, h)])
    &&& similar_quad(tl, v[pos(x, y + s, h)])
    &&& similar_quad(tl, v[pos(x + s, y + s, h)])
}

/// The block with corner `(x, y)` after merging it: the corner tile doubles
/// in both directions and takes in the neighbors of the other three, which
/// point at it.
pub open spec fn merge_block(v: Seq<TileView>, h: int, s: int, x: int, y: int) -> Seq<TileView> {
    let a = pos(x, y, h);
    let b = pos(x + s, y, h);
    let c = pos(x, y + s, h);
    let d = pos(x + s, y + s, h);
    let tl = v[a];
    let merged = TileView {
        size: ((tl.size.0 * 2) as u32, (tl.size.1 * 2) as u32),
        neighbors: tl.neighbors + v[b].neighbors + v[c].neighbors + v[d].neighbors,
        ..tl
    };
    let child = Some(tl.index);
    v.update(a, merged).update(b, TileView { parent: child, ..v[b] }).update(
        c,
        TileView { parent: child, ..v[c] },
    ).update(d, TileView { parent: child, ..v[d] })
}

/// One block: the new layer, the number of tiles merged away, and whether
/// the doubled size fits in `u32`.
pub open spec fn quad_block(v: Seq<TileView>, h: int, s: int, x: int, y: int) -> (
    Seq<TileView>,
    int,
    bool,
) {
    if block_merges(v, h, s, x, y) {
        let tl = v[pos(x, y, h)];
        (merge_block(v, h, s, x, y), 3, tl.size.0 * 2 <= u32::MAX && tl.size.1 * 2 <= u32::MAX)
    } else {
        (v, 0, true)
    }
}

/// The blocks of the column of blocks at `x`, from row `y` on, every `2 * s`
/// rows while `y < h - s`.
pub open spec fn quad_column(v: Seq<TileView>, h: int, s: int, x: int, y: int) -> (
    Seq<TileView>,
    int,
    bool,
)
    decreases max_int(h - s - y, 0),
{
    if s >= 1 && y < h - s {
        let b = quad_block(v, h, s, x, y);
        let rest = quad_column(b.0, h, s, x, y + 2 * s);
        (rest.0, b.1 + rest.1, b.2 && rest.2)
    } else {
        (v, 0, true)
    }
}

/// The columns of blocks from `x` on, every `2 * s` columns while
/// `x < w - s`.
pub open spec fn quad_pass(v: Seq<TileView>, w: int, h: int, s: int, x: int) -> (
    Seq<TileView>,
    int,
    bool,
)
    decreases max_int(w - s - x, 0),
{
    if s >= 1 && x < w - s {
        let c = quad_column(v, h, s, x, 0);
        let rest = quad_pass(c.0, w, h, s, x + 2 * s);
        (rest.0, c.1 + rest.1, c.2 && rest.2)
    } else {
        (v, 0, true)
    }
}

/// Counts never go below zero.
pub proof fn lemma_quad_pass_nonneg(v: Seq<TileView>, w: int, h: int, s: int, x: int)
    ensures
        quad_pass(v, w, h, s, x).1 >= 0,
    decreases max_int(w - s - x, 0),
{
    if s >= 1 && x < w - s {
        let c = quad_column(v, h, s, x, 0);
        lemma_quad_column_nonneg(v, h, s, x, 0);
        lemma_quad_pass_nonneg(c.0, w, h, s, x + 2 * s);
    }
}

/// Counts never go below zero.
pub proof fn lemma_quad_column_nonneg(v: Seq<TileView>, h: int, s: int, x: int, y: int)
    ensures
        quad_column(v, h, s, x, y).1 >= 0,
    decreases max_int(h - s - y, 0),
{
    if s >= 1 && y < h - s {
        let b = quad_block(v, h, s, x, y);
        lemma_quad_column_nonneg(b.0, h, s, x, y + 2 * s);
    }
}

} // verus!
