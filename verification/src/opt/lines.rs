//! What one pass of line merging does to a layer of tiles.
use vstd::prelude::*;

use crate::opt::quad::{max_int, TileView};

verus! {

/// Same as `Tile::spec_similar_line`, on views.
pub open spec fn similar_line(a: TileView, b: TileView) -> bool {
    let is_vertical = a.center.0 == b.center.0;
    let is_horizontal = a.center.1 == b.center.1;
    &&& (is_vertical && a.size.0 == b.size.0 || is_horizontal && a.size.1 == b.size.1)
    &&& a.color == b.color
    &&& a.height == b.height
    &&& a.parent is None
    &&& b.parent is None
}

/// Position in the layer of the tile in column `x`, row `y`.
pub open spec fn pos(x: int, y: int, h: int) -> int {
    y + x * h
}

/// The tiles that line up right of `s` (whose corner is `(x, y)`), starting
/// `sx` cells right of it: they continue while each is similar to `s` and the
/// line stays at most 500 units long at `ts` units per cell. The flag is
/// false where the scan would overflow `u32` or not end.
pub open spec fn scan_right(
    v: Seq<TileView>,
    s: TileView,
    x: int,
    y: int,
    w: int,
    h: int,
    ts: int,
    sx: int,
) -> (Seq<int>, bool)
    decreases max_int(w - x - sx, 0),
{
    if x + sx > u32::MAX {
        (seq![], false)
    } else if x + sx < w {
        let i = pos(x + sx, y, h);
        let t = v[i];
        let sum = sx + t.size.0;
        if sum > u32::MAX || sum * ts > u32::MAX {
            (seq![], false)
        } else if sum * ts > 500 || !similar_line(s, t) {
            (seq![], true)
        } else if t.size.0 == 0 {
            (seq![], false)
        } else {
            let rest = scan_right(v, s, x, y, w, h, ts, sum);
            (seq![i] + rest.0, rest.1)
        }
    } else {
        (seq![], true)
    }
}

/// The same scan downwards from `s`, starting `sy` cells below it.
pub open spec fn scan_down(
    v: Seq<TileView>,
    s: TileView,
    x: int,
    y: int,
    w: int,
    h: int,
    ts: int,
    sy: int,
) -> (Seq<int>, bool)
    decreases max_int(h - y - sy, 0),
{
    if y + sy > u32::MAX {
        (seq![], false)
    } else if y + sy < h {
        let i = pos(x, y + sy, h);
        let t = v[i];
        let sum = sy + t.size.1;
        if sum > u32::MAX || sum * ts > u32::MAX {
            (seq![], false)
        } else if sum * ts > 500 || !similar_line(s, t) {
            (seq![], true)
        } else if t.size.1 == 0 {
            (seq![], false)
        } else {
            let rest = scan_down(v, s, x, y, w, h, ts, sum);
            (seq![i] + rest.0, rest.1)
        }
    } else {
        (seq![], true)
    }
}

/// Total extent of `children` along the line.
pub open spec fn line_extent(v: Seq<TileView>, children: Seq<int>, vertical: bool) -> int
    decreases children.len(),
{
    if children.len() == 0 {
        0
    } else {
        line_extent(v, children.drop_last(), vertical) + if vertical {
            v[children.last()].size.1 as int
        } else {
            v[children.last()].size.0 as int
        }
    }
}

/// Every prefix of the extent fits in `u32`.
pub open spec fn line_extent_ok(v: Seq<TileView>, children: Seq<int>, vertical: bool) -> bool
    decreases children.len(),
{
    children.len() == 0 || (line_extent_ok(v, children.drop_last(), vertical) && line_extent(
        v,
        children,
        vertical,
    ) <= u32::MAX)
}

/// The neighbor heights of all `children`.
pub open spec fn line_neighbors(v: Seq<TileView>, children: Seq<int>) -> Set<u32>
    decreases children.len(),
{
    if children.len() == 0 {
        Set::empty()
    } else {
        line_neighbors(v, children.drop_last()) + v[children.last()].neighbors
    }
}

/// The line runs along a column (the first child shares the start's `x`).
pub open spec fn line_vertical(v: Seq<TileView>, start: int, children: Seq<int>) -> bool {
    v[children[0]].center.0 == v[start].center.0
}

/// Merges the line of `children` into the tile at `start`: the children
/// point at it, and it grows by their extent and takes in their neighbors.
pub open spec fn merge_line_view(v: Seq<TileView>, start: int, children: Seq<int>) -> Seq<
    TileView,
> {
    if children.len() == 0 {
        v
    } else {
        let vertical = line_vertical(v, start, children);
        let ext = line_extent(v, children, vertical);
        let s = v[start];
        let merged = TileView {
            size: if vertical {
                (s.size.0, (s.size.1 + ext) as u32)
            } else {
                ((s.size.0 + ext) as u32, s.size.1)
            },
            neighbors: s.neighbors + line_neighbors(v, children),
            ..s
        };
        Seq::new(
            v.len(),
            |j: int|
                if j == start {
                    merged
                } else if children.contains(j) {
                    TileView { parent: Some(start as usize), ..v[j] }
                } else {
                    v[j]
                },
        )
    }
}

/// Merging the line stays within `u32`.
pub open spec fn merge_line_ok(v: Seq<TileView>, start: int, children: Seq<int>) -> bool {
    children.len() == 0 || {
        let vertical = line_vertical(v, start, children);
        let ext = line_extent(v, children, vertical);
        &&& line_extent_ok(v, children, vertical)
        &&& (if vertical {
            v[start].size.1 + ext
        } else {
            v[start].size.0 + ext
        }) <= u32::MAX
    }
}

/// The horizontal and the vertical line found from the tile at `k`.
pub open spec fn lines_at(v: Seq<TileView>, w: int, h: int, ts: int, k: int) -> (
    (Seq<int>, bool),
    (Seq<int>, bool),
) {
    let x = k / h;
    let y = k % h;
    let s = v[k];
    (
        scan_right(v, s, x, y, w, h, ts, s.size.0 as int),
        scan_down(v, s, x, y, w, h, ts, s.size.1 as int),
    )
}

/// The longer of the two lines (the vertical one on a tie).
pub open spec fn longer_line(lines: ((Seq<int>, bool), (Seq<int>, bool))) -> Seq<int> {
    if lines.0.0.len() > lines.1.0.len() {
        lines.0.0
    } else {
        lines.1.0
    }
}

/// One step of the pass at the tile at `k`: the new layer, the number of
/// tiles merged away, and whether the step stays within `u32`.
pub open spec fn line_step(v: Seq<TileView>, w: int, h: int, ts: int, k: int) -> (
    Seq<TileView>,
    int,
    bool,
) {
    if v[k].parent is Some {
        (v, 0, true)
    } else {
        let lines = lines_at(v, w, h, ts, k);
        let children = longer_line(lines);
        (
            merge_line_view(v, k, children),
            max_int(lines.0.0.len() as int, lines.1.0.len() as int),
            lines.0.1 && lines.1.1 && merge_line_ok(v, k, children),
        )
    }
}

/// The pass over the tiles from `k` on, column by column: the final layer,
/// the number of tiles merged away, and whether every step stays within
/// `u32`.
pub open spec fn line_pass(v: Seq<TileView>, w: int, h: int, ts: int, k: int) -> (
    Seq<TileView>,
    int,
    bool,
)
    decreases w * h - k,
{
    if k >= w * h || k < 0 {
        (v, 0, true)
    } else {
        let step = line_step(v, w, h, ts, k);
        let rest = line_pass(step.0, w, h, ts, k + 1);
        (rest.0, step.1 + rest.1, step.2 && rest.2)
    }
}

/// A horizontal scan from a tile yields positions of other tiles of the
/// layer.
pub proof fn lemma_scan_right_bounds(
    v: Seq<TileView>,
    s: TileView,
    x: int,
    y: int,
    w: int,
    h: int,
    ts: int,
    sx: int,
)
    requires
        0 <= x < w,
        0 <= y < h,
        sx >= 1,
    ensures
        forall|j: int|
            0 <= j < scan_right(v, s, x, y, w, h, ts, sx).0.len() ==> {
                let e = #[trigger] scan_right(v, s, x, y, w, h, ts, sx).0[j];
                &&& 0 <= e < w * h
                &&& e != pos(x, y, h)
                &&& e >= pos(x + sx, y, h)
                &&& v[e].parent is None
            },
        forall|i: int, j: int|
            0 <= i < j < scan_right(v, s, x, y, w, h, ts, sx).0.len() ==> scan_right(
                v,
                s,
                x,
                y,
                w,
                h,
                ts,
                sx,
            ).0[i] < scan_right(v, s, x, y, w, h, ts, sx).0[j],
    decreases max_int(w - x - sx, 0),
{
    if x + sx <= u32::MAX && x + sx < w {
        let i = pos(x + sx, y, h);
        assert(0 <= i < w * h && i != pos(x, y, h)) by (nonlinear_arith)
            requires
                i == y + (x + sx) * h,
                0 <= x,
                x + sx < w,
                sx >= 1,
                0 <= y < h,
        ;
        let t = v[i];
        let sum = sx + t.size.0;
        if !(sum > u32::MAX || sum * ts > u32::MAX) && !(sum * ts > 500 || !similar_line(s, t))
            && t.size.0 != 0 {
            lemma_scan_right_bounds(v, s, x, y, w, h, ts, sum);
            let rest = scan_right(v, s, x, y, w, h, ts, sum);
            let all = scan_right(v, s, x, y, w, h, ts, sx).0;
            assert(pos(x + sum, y, h) > i) by (nonlinear_arith)
                requires
                    i == y + (x + sx) * h,
                    sum > sx,
                    h > y >= 0,
            ;
            assert(i >= pos(x + sx, y, h));
            assert forall|j: int| 0 <= j < all.len() implies {
                let e = #[trigger] all[j];
                &&& 0 <= e < w * h
                &&& e != pos(x, y, h)
                &&& e >= pos(x + sx, y, h)
                &&& v[e].parent is None
            } by {
                if j > 0 {
                    assert(all[j] == rest.0[j - 1]);
                }
            }
            assert forall|a: int, b: int| 0 <= a < b < all.len() implies all[a] < all[b] by {
                assert(all[b] == rest.0[b - 1]);
                if a > 0 {
                    assert(all[a] == rest.0[a - 1]);
                }
            }
        }
    }
}

/// A vertical scan from a tile yields positions of other tiles of the layer.
pub proof fn lemma_scan_down_bounds(
    v: Seq<TileView>,
    s: TileView,
    x: int,
    y: int,
    w: int,
    h: int,
    ts: int,
    sy: int,
)
    requires
        0 <= x < w,
        0 <= y < h,
        sy >= 1,
    ensures
        forall|j: int|
            0 <= j < scan_down(v, s, x, y, w, h, ts, sy).0.len() ==> {
                let e = #[trigger] scan_down(v, s, x, y, w, h, ts, sy).0[j];
                &&& 0 <= e < w * h
                &&& e != pos(x, y, h)
                &&& e >= pos(x, y + sy, h)
                &&& v[e].parent is None
            },
        forall|i: int, j: int|
            0 <= i < j < scan_down(v, s, x, y, w, h, ts, sy).0.len() ==> scan_down(
                v,
                s,
                x,
                y,
                w,
                h,
                ts,
                sy,
            ).0[i] < scan_down(v, s, x, y, w, h, ts, sy).0[j],
    decreases max_int(h - y - sy, 0),
{
    if y + sy <= u32::MAX && y + sy < h {
        let i = pos(x, y + sy, h);
        assert(0 <= i < w * h && i != pos(x, y, h)) by (nonlinear_arith)
            requires
                i == y + sy + x * h,
                0 <= x < w,
                sy >= 1,
                0 <= y,
                y + sy < h,
        ;
        let t = v[i];
        let sum = sy + t.size.1;
        if !(sum > u32::MAX || sum * ts > u32::MAX) && !(sum * ts > 500 || !similar_line(s, t))
            && t.size.1 != 0 {
            lemma_scan_down_bounds(v, s, x, y, w, h, ts, sum);
            let rest = scan_down(v, s, x, y, w, h, ts, sum);
            let all = scan_down(v, s, x, y, w, h, ts, sy).0;
            assert(i >= pos(x, y + sy, h));
            assert forall|j: int| 0 <= j < all.len() implies {
                let e = #[trigger] all[j];
                &&& 0 <= e < w * h
                &&& e != pos(x, y, h)
                &&& e >= pos(x, y + sy, h)
                &&& v[e].parent is None
            } by {
                if j > 0 {
                    assert(all[j] == rest.0[j - 1]);
                }
            }
            assert forall|a: int, b: int| 0 <= a < b < all.len() implies all[a] < all[b] by {
                assert(all[b] == rest.0[b - 1]);
                if a > 0 {
                    assert(all[a] == rest.0[a - 1]);
                }
            }
        }
    }
}

/// The pass never counts below zero.
pub proof fn lemma_line_pass_nonneg(v: Seq<TileView>, w: int, h: int, ts: int, k: int)
    ensures
        line_pass(v, w, h, ts, k).1 >= 0,
    decreases w * h - k,
{
    if k >= w * h || k < 0 {
    } else {
        let step = line_step(v, w, h, ts, k);
        lemma_line_pass_nonneg(step.0, w, h, ts, k + 1);
    }
}

} // verus!
