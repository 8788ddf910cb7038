//! The unmerged tiles of a layer cover the map exactly: every cell lies in
//! exactly one of them, in a freshly built layer and after every pass.
use vstd::prelude::*;

use crate::brick::Brick;
use crate::map::{Colormap, Heightmap};
use crate::opt::layout::{
    brick_covers, center_offset, footprint, layer_bricks, lemma_footprint_covers,
    lemma_layer_footprint, lemma_layer_has_columns, skipped, tile_ok, tiles_bricks, tiles_ok,
};
use crate::util::GenOptions;
use crate::opt::blocks::{block_merges, merge_block, quad_block, quad_column, quad_pass};
use crate::opt::model::{fresh_layer, fresh_tile, LayerRule};
use crate::opt::placement::{
    fits_cell, lemma_cell_of, lemma_extent_cons, lemma_line_step_placed, lemma_pos_in_layer,
    lemma_quad_block_placed, lemma_quad_column_placed, lemma_scan_down_placed, lemma_scan_right_placed,
    placed, square,
};
use crate::opt::laws::lemma_line_extent_nonneg;
use crate::opt::lines::{
    line_extent, line_pass, line_step, line_vertical, lines_at, longer_line, merge_line_view, pos,
    scan_down, scan_right, similar_line,
};
use crate::opt::quad::{max_int, views, Tile, TileView};

verus! {

/// The tile `t` is unmerged and its rectangle holds cell `(x, y)`.
pub open spec fn owns(t: TileView, x: int, y: int) -> bool {
    &&& t.parent is None
    &&& t.center.0 <= x < t.center.0 + t.size.0
    &&& t.center.1 <= y < t.center.1 + t.size.1
}

/// Some unmerged tile of `v` holds cell `(x, y)`.
pub open spec fn owned(v: Seq<TileView>, x: int, y: int) -> bool {
    exists|i: int| 0 <= i < v.len() && #[trigger] owns(v[i], x, y)
}

/// The unmerged tiles of `v` cover the `w` by `h` map exactly: every cell
/// lies in one of them, and no cell in two.
pub open spec fn partitions(v: Seq<TileView>, w: int, h: int) -> bool {
    &&& forall|x: int, y: int| 0 <= x < w && 0 <= y < h ==> #[trigger] owned(v, x, y)
    &&& forall|i: int, j: int, x: int, y: int|
        #![trigger owns(v[i], x, y), owns(v[j], x, y)]
        0 <= i < v.len() && 0 <= j < v.len() && owns(v[i], x, y) && owns(v[j], x, y) ==> i == j
}

/// In a freshly built layer every cell is its own tile.
pub proof fn lemma_fresh_partitions(tiles: Seq<Tile>, hm: Heightmap, cm: Colormap, rule: LayerRule)
    requires
        fresh_layer(tiles, hm, cm, rule),
    ensures
        partitions(views(tiles), hm.spec_width() as int, hm.spec_height() as int),
{
    let w = hm.spec_width() as int;
    let h = hm.spec_height() as int;
    let v = views(tiles);
    assert forall|x: int, y: int| 0 <= x < w && 0 <= y < h implies #[trigger] owned(v, x, y) by {
        lemma_pos_in_layer(x, y, w, h);
        let i = x * h + y;
        assert(pos(x, y, h) == i);
        assert(fresh_tile(tiles[x * h + y], hm, cm, rule, x, y));
        assert(v[i] == tiles[i]@);
        assert(owns(v[i], x, y));
    }
    assert forall|i: int, j: int, x: int, y: int|
        #![trigger owns(v[i], x, y), owns(v[j], x, y)]
        0 <= i < v.len() && 0 <= j < v.len() && owns(v[i], x, y) && owns(v[j], x, y) implies i
        == j by {
        lemma_cell_of(i, w, h);
        lemma_cell_of(j, w, h);
        assert(pos(i / h, i % h, h) == (i / h) * h + i % h);
        assert(pos(j / h, j % h, h) == (j / h) * h + j % h);
        assert(fresh_tile(tiles[(i / h) * h + i % h], hm, cm, rule, i / h, i % h));
        assert(fresh_tile(tiles[(j / h) * h + j % h], hm, cm, rule, j / h, j % h));
        assert(v[i] == tiles[i]@);
        assert(v[j] == tiles[j]@);
    }
}

/// Merging one block keeps the cover exact: the merged tile holds exactly
/// the cells of the four it replaces.
proof fn lemma_quad_block_partitions(
    v: Seq<TileView>,
    w: int,
    h: int,
    ts: int,
    s: int,
    x: int,
    y: int,
)
    requires
        placed(v, w, h, ts),
        square(v),
        partitions(v, w, h),
        s >= 1,
        2 * s * ts <= 500,
        0 <= x,
        x + s < w,
        0 <= y,
        y + s < h,
    ensures
        partitions(quad_block(v, h, s, x, y).0, w, h),
{
    if block_merges(v, h, s, x, y) {
        let a = pos(x, y, h);
        let b = pos(x + s, y, h);
        let c = pos(x, y + s, h);
        let d = pos(x + s, y + s, h);
        lemma_pos_in_layer(x, y, w, h);
        lemma_pos_in_layer(x + s, y, w, h);
        lemma_pos_in_layer(x, y + s, w, h);
        lemma_pos_in_layer(x + s, y + s, w, h);
        assert(a < c < b < d) by (nonlinear_arith)
            requires
                a == y + x * h,
                b == y + (x + s) * h,
                c == y + s + x * h,
                d == y + s + (x + s) * h,
                0 <= y,
                y + s < h,
                s >= 1,
        ;
        assert(fits_cell(v[a], x, y, w, h, ts));
        assert(fits_cell(v[b], x + s, y, w, h, ts));
        assert(fits_cell(v[c], x, y + s, w, h, ts));
        assert(fits_cell(v[d], x + s, y + s, w, h, ts));
        assert(v[a].size.1 == v[a].size.0);
        assert(w <= u32::MAX && h <= u32::MAX) by (nonlinear_arith)
            requires
                w * h <= u32::MAX,
                0 <= x < w,
                0 <= y < h,
        ;
        assert(v[a].center.0 == x && v[a].center.1 == y);
        assert(v[b].center.0 == x + s && v[b].center.1 == y);
        assert(v[c].center.0 == x && v[c].center.1 == y + s);
        assert(v[d].center.0 == x + s && v[d].center.1 == y + s);
        assert(v[a].size.0 == s && v[a].size.1 == s);
        assert(v[b].size.0 == s && v[b].size.1 == s);
        assert(v[c].size.0 == s && v[c].size.1 == s);
        assert(v[d].size.0 == s && v[d].size.1 == s);
        let u = merge_block(v, h, s, x, y);
        assert(u.len() == v.len());
        assert(u[a].center == v[a].center && u[a].size == ((2 * s) as u32, (2 * s) as u32)
            && u[a].parent is None);
        assert(u[b].parent is Some && u[c].parent is Some && u[d].parent is Some);
        assert forall|i: int| 0 <= i < v.len() && i != a && i != b && i != c && i != d implies u[i]
            == v[i] by {
        }
        assert forall|cx: int, cy: int| 0 <= cx < w && 0 <= cy < h implies #[trigger] owned(
            u,
            cx,
            cy,
        ) by {
            assert(owned(v, cx, cy));
            let r = choose|r: int| 0 <= r < v.len() && #[trigger] owns(v[r], cx, cy);
            if r == a || r == b || r == c || r == d {
                assert(owns(u[a], cx, cy));
            } else {
                assert(owns(u[r], cx, cy));
            }
        }
        assert forall|i: int, j: int, cx: int, cy: int|
            #![trigger owns(u[i], cx, cy), owns(u[j], cx, cy)]
            0 <= i < u.len() && 0 <= j < u.len() && owns(u[i], cx, cy) && owns(u[j], cx, cy)
                implies i == j by {
            if i != j {
                assert(i != b && i != c && i != d && j != b && j != c && j != d);
                if i != a && j != a {
                    assert(owns(v[i], cx, cy) && owns(v[j], cx, cy));
                } else {
                    let o = if i == a {
                        j
                    } else {
                        i
                    };
                    assert(o != a && u[o] == v[o]);
                    assert(owns(v[o], cx, cy));
                    let q = if cx < x + s {
                        if cy < y + s {
                            a
                        } else {
                            c
                        }
                    } else {
                        if cy < y + s {
                            b
                        } else {
                            d
                        }
                    };
                    assert(owns(v[q], cx, cy));
                    assert(owns(v[q], cx, cy) && owns(v[o], cx, cy));
                }
            }
        }
    }
}

/// Merging a column of blocks keeps the cover exact.
proof fn lemma_quad_column_partitions(
    v: Seq<TileView>,
    w: int,
    h: int,
    ts: int,
    s: int,
    x: int,
    y: int,
)
    requires
        placed(v, w, h, ts),
        square(v),
        partitions(v, w, h),
        s >= 1,
        2 * s * ts <= 500,
        0 <= x,
        x + s < w,
        0 <= y,
    ensures
        partitions(quad_column(v, h, s, x, y).0, w, h),
    decreases max_int(h - s - y, 0),
{
    if y < h - s {
        let b = quad_block(v, h, s, x, y);
        lemma_quad_block_placed(v, w, h, ts, s, x, y);
        lemma_quad_block_partitions(v, w, h, ts, s, x, y);
        lemma_quad_column_partitions(b.0, w, h, ts, s, x, y + 2 * s);
    }
}

/// A level of quadtree merging keeps the cover exact.
pub proof fn lemma_quad_pass_partitions(v: Seq<TileView>, w: int, h: int, ts: int, s: int, x: int)
    requires
        placed(v, w, h, ts),
        square(v),
        partitions(v, w, h),
        s >= 1,
        2 * s * ts <= 500,
        0 <= x,
    ensures
        partitions(quad_pass(v, w, h, s, x).0, w, h),
    decreases max_int(w - s - x, 0),
{
    if x < w - s {
        let c = quad_column(v, h, s, x, 0);
        lemma_quad_column_placed(v, w, h, ts, s, x, 0);
        lemma_quad_column_partitions(v, w, h, ts, s, x, 0);
        lemma_quad_pass_partitions(c.0, w, h, ts, s, x + 2 * s);
    }
}

/// The tiles at `r` lie in the rows of `s`, whose corner is in row `y`,
/// between columns `lo` and `hi`: unmerged tiles of the layer, as tall as `s`.
pub open spec fn row_line(v: Seq<TileView>, r: Seq<int>, s: TileView, y: int, lo: int, hi: int) -> bool {
    forall|m: int|
        0 <= m < r.len() ==> {
            &&& 0 <= #[trigger] r[m] < v.len()
            &&& v[r[m]].parent is None
            &&& v[r[m]].center.1 == y
            &&& v[r[m]].size.1 == s.size.1
            &&& v[r[m]].color == s.color
            &&& v[r[m]].height == s.height
            &&& lo <= v[r[m]].center.0
            &&& v[r[m]].center.0 + v[r[m]].size.0 <= hi
        }
}

/// The tiles at `r` lie in the columns of `s`, whose corner is in column
/// `x`, between rows `lo` and `hi`: unmerged tiles of the layer, as wide as
/// `s`.
pub open spec fn col_line(v: Seq<TileView>, r: Seq<int>, s: TileView, x: int, lo: int, hi: int) -> bool {
    forall|m: int|
        0 <= m < r.len() ==> {
            &&& 0 <= #[trigger] r[m] < v.len()
            &&& v[r[m]].parent is None
            &&& v[r[m]].center.0 == x
            &&& v[r[m]].size.0 == s.size.0
            &&& v[r[m]].color == s.color
            &&& v[r[m]].height == s.height
            &&& lo <= v[r[m]].center.1
            &&& v[r[m]].center.1 + v[r[m]].size.1 <= hi
        }
}

/// One of the tiles at `r` holds cell `(x, y)`.
pub open spec fn held(v: Seq<TileView>, r: Seq<int>, x: int, y: int) -> bool {
    exists|m: int| 0 <= m < r.len() && #[trigger] owns(v[r[m]], x, y)
}

/// The tiles a scan to the right from the unmerged tile `s` at `(x, y)`
/// lines up lie side by side in its rows, from `acc` cells right of its
/// corner to the end of the line, and hold every cell there.
proof fn lemma_scan_right_cover(
    v: Seq<TileView>,
    s: TileView,
    x: int,
    y: int,
    w: int,
    h: int,
    ts: int,
    acc: int,
)
    requires
        placed(v, w, h, ts),
        0 <= x < w,
        0 <= y < h,
        s.center == (x as u32, y as u32),
        acc >= 1,
    ensures
        row_line(
            v,
            scan_right(v, s, x, y, w, h, ts, acc).0,
            s,
            y,
            x + acc,
            x + acc + line_extent(v, scan_right(v, s, x, y, w, h, ts, acc).0, false),
        ),
        forall|cx: int, cy: int|
            x + acc <= cx < x + acc + line_extent(v, scan_right(v, s, x, y, w, h, ts, acc).0, false)
                && y <= cy < y + s.size.1 ==> #[trigger] held(
                v,
                scan_right(v, s, x, y, w, h, ts, acc).0,
                cx,
                cy,
            ),
    decreases max_int(w - x - acc, 0),
{
    let r = scan_right(v, s, x, y, w, h, ts, acc).0;
    assert(w <= u32::MAX && h <= u32::MAX) by (nonlinear_arith)
        requires
            w * h <= u32::MAX,
            0 <= x < w,
            0 <= y < h,
    ;
    if x + acc <= u32::MAX && x + acc < w {
        let i = pos(x + acc, y, h);
        let t = v[i];
        lemma_pos_in_layer(x + acc, y, w, h);
        assert(fits_cell(t, x + acc, y, w, h, ts));
        let sum = acc + t.size.0;
        if !(sum > u32::MAX || sum * ts > u32::MAX) && !(sum * ts > 500 || !similar_line(s, t))
            && t.size.0 != 0 {
            lemma_scan_right_cover(v, s, x, y, w, h, ts, sum);
            let rest = scan_right(v, s, x, y, w, h, ts, sum).0;
            assert(r == seq![i] + rest);
            lemma_extent_cons(v, i, rest, false);
            let e = line_extent(v, r, false);
            let er = line_extent(v, rest, false);
            assert(e == er + t.size.0);
            lemma_line_extent_nonneg(v, rest, false);
            assert(t.center.0 == x + acc && t.center.1 == y);
            assert(t.size.1 == s.size.1);
            assert forall|m: int| 0 <= m < r.len() implies {
                &&& 0 <= #[trigger] r[m] < v.len()
                &&& v[r[m]].parent is None
                &&& v[r[m]].center.1 == y
                &&& v[r[m]].size.1 == s.size.1
                &&& v[r[m]].color == s.color
                &&& v[r[m]].height == s.height
                &&& x + acc <= v[r[m]].center.0
                &&& v[r[m]].center.0 + v[r[m]].size.0 <= x + acc + e
            } by {
                if m > 0 {
                    assert(r[m] == rest[m - 1]);
                }
            }
            assert forall|cx: int, cy: int|
                x + acc <= cx < x + acc + e && y <= cy < y + s.size.1 implies #[trigger] held(
                v,
                r,
                cx,
                cy,
            ) by {
                if cx < x + sum {
                    assert(r[0] == i);
                    assert(owns(v[r[0]], cx, cy));
                } else {
                    assert(held(v, rest, cx, cy));
                    let m = choose|m: int| 0 <= m < rest.len() && #[trigger] owns(v[rest[m]], cx, cy);
                    assert(r[m + 1] == rest[m]);
                    assert(owns(v[r[m + 1]], cx, cy));
                }
            }
        }
    }
}

/// The tiles a scan downwards from the unmerged tile `s` at `(x, y)` lines
/// up lie one below the other in its columns, from `acc` cells below its
/// corner to the end of the line, and hold every cell there.
proof fn lemma_scan_down_cover(
    v: Seq<TileView>,
    s: TileView,
    x: int,
    y: int,
    w: int,
    h: int,
    ts: int,
    acc: int,
)
    requires
        placed(v, w, h, ts),
        0 <= x < w,
        0 <= y < h,
        s.center == (x as u32, y as u32),
        acc >= 1,
    ensures
        col_line(
            v,
            scan_down(v, s, x, y, w, h, ts, acc).0,
            s,
            x,
            y + acc,
            y + acc + line_extent(v, scan_down(v, s, x, y, w, h, ts, acc).0, true),
        ),
        forall|cx: int, cy: int|
            y + acc <= cy < y + acc + line_extent(v, scan_down(v, s, x, y, w, h, ts, acc).0, true)
                && x <= cx < x + s.size.0 ==> #[trigger] held(
                v,
                scan_down(v, s, x, y, w, h, ts, acc).0,
                cx,
                cy,
            ),
    decreases max_int(h - y - acc, 0),
{
    let r = scan_down(v, s, x, y, w, h, ts, acc).0;
    assert(w <= u32::MAX && h <= u32::MAX) by (nonlinear_arith)
        requires
            w * h <= u32::MAX,
            0 <= x < w,
            0 <= y < h,
    ;
    if y + acc <= u32::MAX && y + acc < h {
        let i = pos(x, y + acc, h);
        let t = v[i];
        lemma_pos_in_layer(x, y + acc, w, h);
        assert(fits_cell(t, x, y + acc, w, h, ts));
        let sum = acc + t.size.1;
        if !(sum > u32::MAX || sum * ts > u32::MAX) && !(sum * ts > 500 || !similar_line(s, t))
            && t.size.1 != 0 {
            lemma_scan_down_cover(v, s, x, y, w, h, ts, sum);
            let rest = scan_down(v, s, x, y, w, h, ts, sum).0;
            assert(r == seq![i] + rest);
            lemma_extent_cons(v, i, rest, true);
            let e = line_extent(v, r, true);
            let er = line_extent(v, rest, true);
            assert(e == er + t.size.1);
            lemma_line_extent_nonneg(v, rest, true);
            assert(t.center.0 == x && t.center.1 == y + acc);
            assert(t.size.0 == s.size.0);
            assert forall|m: int| 0 <= m < r.len() implies {
                &&& 0 <= #[trigger] r[m] < v.len()
                &&& v[r[m]].parent is None
                &&& v[r[m]].center.0 == x
                &&& v[r[m]].size.0 == s.size.0
                &&& v[r[m]].color == s.color
                &&& v[r[m]].height == s.height
                &&& y + acc <= v[r[m]].center.1
                &&& v[r[m]].center.1 + v[r[m]].size.1 <= y + acc + e
            } by {
                if m > 0 {
                    assert(r[m] == rest[m - 1]);
                }
            }
            assert forall|cx: int, cy: int|
                y + acc <= cy < y + acc + e && x <= cx < x + s.size.0 implies #[trigger] held(
                v,
                r,
                cx,
                cy,
            ) by {
                if cy < y + sum {
                    assert(r[0] == i);
                    assert(owns(v[r[0]], cx, cy));
                } else {
                    assert(held(v, rest, cx, cy));
                    let m = choose|m: int| 0 <= m < rest.len() && #[trigger] owns(v[rest[m]], cx, cy);
                    assert(r[m + 1] == rest[m]);
                    assert(owns(v[r[m + 1]], cx, cy));
                }
            }
        }
    }
}

/// Merging a line into the unmerged tile at `k` keeps the cover exact when
/// the line's tiles lie side by side next to it and hold every cell of the
/// strip that the tile grows over.
proof fn lemma_merge_line_partitions(
    v: Seq<TileView>,
    w: int,
    h: int,
    k: int,
    c: Seq<int>,
    vertical: bool,
)
    requires
        partitions(v, w, h),
        0 <= k < v.len(),
        v[k].parent is None,
        v[k].size.0 >= 1,
        v[k].size.1 >= 1,
        c.len() > 0,
        vertical == line_vertical(v, k, c),
        ({
            let s = v[k];
            let x = s.center.0 as int;
            let y = s.center.1 as int;
            let e = line_extent(v, c, vertical);
            if vertical {
                &&& col_line(v, c, s, x, y + s.size.1, y + s.size.1 + e)
                &&& forall|cx: int, cy: int|
                    y + s.size.1 <= cy < y + s.size.1 + e && x <= cx < x + s.size.0 ==> #[trigger] held(
                        v,
                        c,
                        cx,
                        cy,
                    )
                &&& s.size.1 + e <= u32::MAX
            } else {
                &&& row_line(v, c, s, y, x + s.size.0, x + s.size.0 + e)
                &&& forall|cx: int, cy: int|
                    x + s.size.0 <= cx < x + s.size.0 + e && y <= cy < y + s.size.1 ==> #[trigger] held(
                        v,
                        c,
                        cx,
                        cy,
                    )
                &&& s.size.0 + e <= u32::MAX
            }
        }),
    ensures
        partitions(merge_line_view(v, k, c), w, h),
{
    let s = v[k];
    let x = s.center.0 as int;
    let y = s.center.1 as int;
    let e = line_extent(v, c, vertical);
    lemma_line_extent_nonneg(v, c, vertical);
    let u = merge_line_view(v, k, c);
    // the cells the merged tile holds: its own and the strip it grows over
    let sx2 = if vertical {
        s.size.0 as int
    } else {
        s.size.0 + e
    };
    let sy2 = if vertical {
        s.size.1 + e
    } else {
        s.size.1 as int
    };
    assert(u[k].center == s.center && u[k].parent is None);
    assert(u[k].size.0 == sx2 && u[k].size.1 == sy2);
    assert(!c.contains(k)) by {
        if c.contains(k) {
            let m = choose|m: int| 0 <= m < c.len() && c[m] == k;
            assert(v[c[m]].center == s.center);
        }
    }
    assert forall|i: int| 0 <= i < v.len() && c.contains(i) implies (#[trigger] u[i]).parent is Some
        && v[i].parent is None by {
        let m = choose|m: int| 0 <= m < c.len() && c[m] == i;
        assert(v[c[m]].parent is None);
    }
    assert forall|cx: int, cy: int| 0 <= cx < w && 0 <= cy < h implies #[trigger] owned(u, cx, cy) by {
        assert(owned(v, cx, cy));
        let q = choose|q: int| 0 <= q < v.len() && #[trigger] owns(v[q], cx, cy);
        if q == k {
            assert(owns(u[k], cx, cy));
        } else if c.contains(q) {
            let m = choose|m: int| 0 <= m < c.len() && c[m] == q;
            assert(owns(v[c[m]], cx, cy));
            assert(owns(u[k], cx, cy));
        } else {
            assert(u[q] == v[q]);
            assert(owns(u[q], cx, cy));
        }
    }
    assert forall|i: int, j: int, cx: int, cy: int|
        #![trigger owns(u[i], cx, cy), owns(u[j], cx, cy)]
        0 <= i < u.len() && 0 <= j < u.len() && owns(u[i], cx, cy) && owns(u[j], cx, cy) implies i
        == j by {
        if i != j {
            assert(!c.contains(i) && !c.contains(j));
            if i != k && j != k {
                assert(u[i] == v[i] && u[j] == v[j]);
                assert(owns(v[i], cx, cy) && owns(v[j], cx, cy));
            } else {
                let o = if i == k {
                    j
                } else {
                    i
                };
                assert(o != k && u[o] == v[o]);
                assert(owns(v[o], cx, cy));
                if owns(v[k], cx, cy) {
                    assert(owns(v[k], cx, cy) && owns(v[o], cx, cy));
                } else {
                    assert(held(v, c, cx, cy));
                    let m = choose|m: int| 0 <= m < c.len() && #[trigger] owns(v[c[m]], cx, cy);
                    assert(owns(v[c[m]], cx, cy) && owns(v[o], cx, cy));
                    assert(c.contains(c[m]));
                }
            }
        }
    }
}

/// One step of line merging on a placed layer keeps the cover exact.
proof fn lemma_line_step_partitions(v: Seq<TileView>, w: int, h: int, ts: int, k: int)
    requires
        placed(v, w, h, ts),
        partitions(v, w, h),
        0 <= k < w * h,
    ensures
        partitions(line_step(v, w, h, ts, k).0, w, h),
{
    if v[k].parent is None {
        lemma_cell_of(k, w, h);
        let x = k / h;
        let y = k % h;
        let s = v[k];
        assert(fits_cell(v[pos(x, y, h)], x, y, w, h, ts));
        assert(w <= u32::MAX && h <= u32::MAX) by (nonlinear_arith)
            requires
                w * h <= u32::MAX,
                0 <= x < w,
                0 <= y < h,
        ;
        lemma_line_step_placed(v, w, h, ts, k);
        assert(s.size.0 * ts <= max_int(ts, 500) && s.size.1 * ts <= max_int(ts, 500))
            by (nonlinear_arith)
            requires
                s.size.0 == 1 || s.size.0 * ts <= 500,
                s.size.1 == 1 || s.size.1 * ts <= 500,
                0 <= ts,
        ;
        lemma_scan_right_placed(v, s, x, y, w, h, ts, s.size.0 as int);
        lemma_scan_down_placed(v, s, x, y, w, h, ts, s.size.1 as int);
        lemma_scan_right_cover(v, s, x, y, w, h, ts, s.size.0 as int);
        lemma_scan_down_cover(v, s, x, y, w, h, ts, s.size.1 as int);
        let lines = lines_at(v, w, h, ts, k);
        let c = longer_line(lines);
        if c.len() > 0 {
            let vertical = line_vertical(v, k, c);
            if lines.0.0.len() > lines.1.0.len() {
                assert(v[c[0]].center.0 >= x + s.size.0);
                assert(!vertical);
            } else {
                assert(v[c[0]].center.0 == x);
                assert(vertical);
            }
            lemma_merge_line_partitions(v, w, h, k, c, vertical);
        }
    }
}

/// A pass of line merging on a placed layer keeps the cover exact.
pub proof fn lemma_line_pass_partitions(v: Seq<TileView>, w: int, h: int, ts: int, k: int)
    requires
        placed(v, w, h, ts),
        partitions(v, w, h),
        0 <= k,
    ensures
        partitions(line_pass(v, w, h, ts, k).0, w, h),
    decreases w * h - k,
{
    if k < w * h {
        let step = line_step(v, w, h, ts, k);
        lemma_line_step_placed(v, w, h, ts, k);
        lemma_line_step_partitions(v, w, h, ts, k);
        lemma_line_pass_partitions(step.0, w, h, ts, k + 1);
    }
}

/// Every unmerged tile has the color and height of each cell it holds, as
/// the tile at that cell has them: merging changes nothing that is drawn.
pub open spec fn true_to(v: Seq<TileView>, w: int, h: int) -> bool {
    forall|i: int, x: int, y: int|
        0 <= i < v.len() && 0 <= x < w && 0 <= y < h && #[trigger] owns(v[i], x, y) ==> {
            &&& v[i].color == v[pos(x, y, h)].color
            &&& v[i].height == v[pos(x, y, h)].height
        }
}

/// In a freshly built layer every tile holds only its own cell.
pub proof fn lemma_fresh_true(tiles: Seq<Tile>, hm: Heightmap, cm: Colormap, rule: LayerRule)
    requires
        fresh_layer(tiles, hm, cm, rule),
    ensures
        true_to(views(tiles), hm.spec_width() as int, hm.spec_height() as int),
{
    let w = hm.spec_width() as int;
    let h = hm.spec_height() as int;
    let v = views(tiles);
    assert forall|i: int, x: int, y: int|
        0 <= i < v.len() && 0 <= x < w && 0 <= y < h && #[trigger] owns(v[i], x, y) implies {
        &&& v[i].color == v[pos(x, y, h)].color
        &&& v[i].height == v[pos(x, y, h)].height
    } by {
        lemma_cell_of(i, w, h);
        assert(pos(i / h, i % h, h) == (i / h) * h + i % h);
        assert(fresh_tile(tiles[(i / h) * h + i % h], hm, cm, rule, i / h, i % h));
        assert(v[i] == tiles[i]@);
        assert(i / h == x && i % h == y);
    }
}

/// Merging one block keeps every tile true to the cells it holds.
proof fn lemma_quad_block_true(v: Seq<TileView>, w: int, h: int, ts: int, s: int, x: int, y: int)
    requires
        placed(v, w, h, ts),
        square(v),
        partitions(v, w, h),
        true_to(v, w, h),
        s >= 1,
        0 <= x,
        x + s < w,
        0 <= y,
        y + s < h,
    ensures
        true_to(quad_block(v, h, s, x, y).0, w, h),
{
    if block_merges(v, h, s, x, y) {
        let a = pos(x, y, h);
        let b = pos(x + s, y, h);
        let c = pos(x, y + s, h);
        let d = pos(x + s, y + s, h);
        lemma_pos_in_layer(x, y, w, h);
        lemma_pos_in_layer(x + s, y, w, h);
        lemma_pos_in_layer(x, y + s, w, h);
        lemma_pos_in_layer(x + s, y + s, w, h);
        assert(a < c < b < d) by (nonlinear_arith)
            requires
                a == y + x * h,
                b == y + (x + s) * h,
                c == y + s + x * h,
                d == y + s + (x + s) * h,
                0 <= y,
                y + s < h,
                s >= 1,
        ;
        assert(fits_cell(v[a], x, y, w, h, ts));
        assert(fits_cell(v[b], x + s, y, w, h, ts));
        assert(fits_cell(v[c], x, y + s, w, h, ts));
        assert(fits_cell(v[d], x + s, y + s, w, h, ts));
        assert(v[a].size.1 == v[a].size.0);
        assert(w <= u32::MAX && h <= u32::MAX) by (nonlinear_arith)
            requires
                w * h <= u32::MAX,
                0 <= x < w,
                0 <= y < h,
        ;
        let u = merge_block(v, h, s, x, y);
        assert(u.len() == v.len());
        assert forall|p: int| 0 <= p < v.len() implies (#[trigger] u[p]).color == v[p].color
            && u[p].height == v[p].height by {
        }
        assert forall|i: int| 0 <= i < v.len() && i != a && i != b && i != c && i != d implies u[i]
            == v[i] by {
        }
        assert forall|i: int, cx: int, cy: int|
            0 <= i < u.len() && 0 <= cx < w && 0 <= cy < h && #[trigger] owns(u[i], cx, cy) implies {
            &&& u[i].color == u[pos(cx, cy, h)].color
            &&& u[i].height == u[pos(cx, cy, h)].height
        } by {
            lemma_pos_in_layer(cx, cy, w, h);
            assert(i != b && i != c && i != d);
            if i == a {
                let q = if cx < x + s {
                    if cy < y + s {
                        a
                    } else {
                        c
                    }
                } else {
                    if cy < y + s {
                        b
                    } else {
                        d
                    }
                };
                assert(owns(v[q], cx, cy));
                assert(v[q].color == v[a].color && v[q].height == v[a].height);
            } else {
                assert(owns(v[i], cx, cy));
            }
        }
    }
}

/// Merging a column of blocks keeps every tile true to the cells it holds.
proof fn lemma_quad_column_true(
    v: Seq<TileView>,
    w: int,
    h: int,
    ts: int,
    s: int,
    x: int,
    y: int,
)
    requires
        placed(v, w, h, ts),
        square(v),
        partitions(v, w, h),
        true_to(v, w, h),
        s >= 1,
        2 * s * ts <= 500,
        0 <= x,
        x + s < w,
        0 <= y,
    ensures
        true_to(quad_column(v, h, s, x, y).0, w, h),
    decreases max_int(h - s - y, 0),
{
    if y < h - s {
        let b = quad_block(v, h, s, x, y);
        lemma_quad_block_placed(v, w, h, ts, s, x, y);
        lemma_quad_block_partitions(v, w, h, ts, s, x, y);
        lemma_quad_block_true(v, w, h, ts, s, x, y);
        lemma_quad_column_true(b.0, w, h, ts, s, x, y + 2 * s);
    }
}

/// A level of quadtree merging keeps every tile true to the cells it holds.
pub proof fn lemma_quad_pass_true(v: Seq<TileView>, w: int, h: int, ts: int, s: int, x: int)
    requires
        placed(v, w, h, ts),
        square(v),
        partitions(v, w, h),
        true_to(v, w, h),
        s >= 1,
        2 * s * ts <= 500,
        0 <= x,
    ensures
        true_to(quad_pass(v, w, h, s, x).0, w, h),
    decreases max_int(w - s - x, 0),
{
    if x < w - s {
        let c = quad_column(v, h, s, x, 0);
        lemma_quad_column_placed(v, w, h, ts, s, x, 0);
        lemma_quad_column_partitions(v, w, h, ts, s, x, 0);
        lemma_quad_column_true(v, w, h, ts, s, x, 0);
        lemma_quad_pass_true(c.0, w, h, ts, s, x + 2 * s);
    }
}

/// Merging a line of tiles like the unmerged tile at `k` into it keeps every
/// tile true to the cells it holds.
proof fn lemma_merge_line_true(
    v: Seq<TileView>,
    w: int,
    h: int,
    k: int,
    c: Seq<int>,
    vertical: bool,
)
    requires
        true_to(v, w, h),
        v.len() == w * h,
        0 <= h,
        0 <= k < v.len(),
        v[k].parent is None,
        v[k].size.0 >= 1,
        v[k].size.1 >= 1,
        c.len() > 0,
        vertical == line_vertical(v, k, c),
        ({
            let s = v[k];
            let x = s.center.0 as int;
            let y = s.center.1 as int;
            let e = line_extent(v, c, vertical);
            if vertical {
                &&& col_line(v, c, s, x, y + s.size.1, y + s.size.1 + e)
                &&& forall|cx: int, cy: int|
                    y + s.size.1 <= cy < y + s.size.1 + e && x <= cx < x + s.size.0 ==> #[trigger] held(
                        v,
                        c,
                        cx,
                        cy,
                    )
                &&& s.size.1 + e <= u32::MAX
            } else {
                &&& row_line(v, c, s, y, x + s.size.0, x + s.size.0 + e)
                &&& forall|cx: int, cy: int|
                    x + s.size.0 <= cx < x + s.size.0 + e && y <= cy < y + s.size.1 ==> #[trigger] held(
                        v,
                        c,
                        cx,
                        cy,
                    )
                &&& s.size.0 + e <= u32::MAX
            }
        }),
    ensures
        true_to(merge_line_view(v, k, c), w, h),
{
    let s = v[k];
    let x = s.center.0 as int;
    let y = s.center.1 as int;
    let e = line_extent(v, c, vertical);
    lemma_line_extent_nonneg(v, c, vertical);
    let u = merge_line_view(v, k, c);
    assert(u[k].center == s.center && u[k].parent is None);
    assert forall|p: int| 0 <= p < v.len() implies (#[trigger] u[p]).color == v[p].color
        && u[p].height == v[p].height by {
    }
    assert forall|i: int| 0 <= i < v.len() && c.contains(i) implies (#[trigger] u[i]).parent is Some by {
    }
    assert forall|i: int, cx: int, cy: int|
        0 <= i < u.len() && 0 <= cx < w && 0 <= cy < h && #[trigger] owns(u[i], cx, cy) implies {
        &&& u[i].color == u[pos(cx, cy, h)].color
        &&& u[i].height == u[pos(cx, cy, h)].height
    } by {
        lemma_pos_in_layer(cx, cy, w, h);
        if i == k {
            if owns(v[k], cx, cy) {
            } else {
                assert(held(v, c, cx, cy));
                let m = choose|m: int| 0 <= m < c.len() && #[trigger] owns(v[c[m]], cx, cy);
                assert(v[c[m]].color == s.color && v[c[m]].height == s.height);
            }
        } else {
            assert(!c.contains(i));
            assert(u[i] == v[i]);
            assert(owns(v[i], cx, cy));
        }
    }
}

/// One step of line merging on a placed layer keeps every tile true to the
/// cells it holds.
proof fn lemma_line_step_true(v: Seq<TileView>, w: int, h: int, ts: int, k: int)
    requires
        placed(v, w, h, ts),
        true_to(v, w, h),
        0 <= k < w * h,
    ensures
        true_to(line_step(v, w, h, ts, k).0, w, h),
{
    if v[k].parent is None {
        lemma_cell_of(k, w, h);
        let x = k / h;
        let y = k % h;
        let s = v[k];
        assert(fits_cell(v[pos(x, y, h)], x, y, w, h, ts));
        assert(w <= u32::MAX && h <= u32::MAX) by (nonlinear_arith)
            requires
                w * h <= u32::MAX,
                0 <= x < w,
                0 <= y < h,
        ;
        lemma_line_step_placed(v, w, h, ts, k);
        assert(s.size.0 * ts <= max_int(ts, 500) && s.size.1 * ts <= max_int(ts, 500))
            by (nonlinear_arith)
            requires
                s.size.0 == 1 || s.size.0 * ts <= 500,
                s.size.1 == 1 || s.size.1 * ts <= 500,
                0 <= ts,
        ;
        lemma_scan_right_placed(v, s, x, y, w, h, ts, s.size.0 as int);
        lemma_scan_down_placed(v, s, x, y, w, h, ts, s.size.1 as int);
        lemma_scan_right_cover(v, s, x, y, w, h, ts, s.size.0 as int);
        lemma_scan_down_cover(v, s, x, y, w, h, ts, s.size.1 as int);
        let lines = lines_at(v, w, h, ts, k);
        let c = longer_line(lines);
        if c.len() > 0 {
            let vertical = line_vertical(v, k, c);
            if lines.0.0.len() > lines.1.0.len() {
                assert(v[c[0]].center.0 >= x + s.size.0);
                assert(!vertical);
            } else {
                assert(v[c[0]].center.0 == x);
                assert(vertical);
            }
            lemma_merge_line_true(v, w, h, k, c, vertical);
        }
    }
}

/// A pass of line merging on a placed layer keeps every tile true to the
/// cells it holds.
pub proof fn lemma_line_pass_true(v: Seq<TileView>, w: int, h: int, ts: int, k: int)
    requires
        placed(v, w, h, ts),
        true_to(v, w, h),
        0 <= k,
    ensures
        true_to(line_pass(v, w, h, ts, k).0, w, h),
    decreases w * h - k,
{
    if k < w * h {
        let step = line_step(v, w, h, ts, k);
        lemma_line_step_placed(v, w, h, ts, k);
        lemma_line_step_true(v, w, h, ts, k);
        lemma_line_pass_true(step.0, w, h, ts, k + 1);
    }
}

/// Some brick of `bricks` stands over cell `(x, y)`.
pub open spec fn under_brick(bricks: Seq<Brick>, size: u16, offx: int, offy: int, x: int, y: int) -> bool {
    exists|k: int| 0 <= k < bricks.len() && #[trigger] brick_covers(bricks[k], size, offx, offy, x, y)
}

/// The tiles of a placed layer have their corners within `i32` when the
/// map does.
proof fn lemma_corner_in_i32(tiles: Seq<Tile>, w: int, h: int, ts: int, i: int)
    requires
        placed(views(tiles), w, h, ts),
        w <= i32::MAX,
        h <= i32::MAX,
        0 <= i < tiles.len(),
    ensures
        tiles[i].center.0 < w,
        tiles[i].center.1 < h,
{
    lemma_cell_of(i, w, h);
    assert(fits_cell(views(tiles)[pos(i / h, i % h, h)], i / h, i % h, w, h, ts));
    assert(views(tiles)[i] == tiles[i]@);
}

/// Every cell of an unskipped tile of a layer lies under a brick.
proof fn lemma_layer_bricks_reach(
    tiles: Seq<Tile>,
    o: GenOptions,
    adj: u32,
    width: u32,
    height: u32,
    ts: int,
)
    requires
        o.size > 0,
        width <= i32::MAX,
        height <= i32::MAX,
        placed(views(tiles), width as int, height as int, ts),
        tiles_ok(tiles, o, adj, width, height),
        forall|i: int|
            0 <= i < tiles.len() ==> (#[trigger] tiles[i]).size.0 <= u16::MAX && tiles[i].size.1
                <= u16::MAX,
    ensures
        forall|i: int, x: int, y: int|
            0 <= i < tiles.len() && 0 <= x < width && 0 <= y < height && #[trigger] owns(
                views(tiles)[i],
                x,
                y,
            ) && !skipped(tiles[i], o) ==> under_brick(
                tiles_bricks(tiles, o, adj, width, height),
                o.size,
                center_offset(width, o.size),
                center_offset(height, o.size),
                x,
                y,
            ),
{
    let w = width as int;
    let h = height as int;
    let offx = center_offset(width, o.size);
    let offy = center_offset(height, o.size);
    let bricks = tiles_bricks(tiles, o, adj, width, height);
    let v = views(tiles);
    lemma_layer_has_columns(tiles, o, adj, offx, offy);
    assert forall|i: int, x: int, y: int|
        0 <= i < tiles.len() && 0 <= x < width && 0 <= y < height && #[trigger] owns(v[i], x, y)
            && !skipped(tiles[i], o) implies under_brick(bricks, o.size, offx, offy, x, y) by {
        let k = choose|k: int| 0 <= k < bricks.len() && footprint(#[trigger] bricks[k], tiles[i], o, offx, offy);
        lemma_corner_in_i32(tiles, w, h, ts, i);
        assert(tile_ok(tiles[i], o, adj, offx, offy));
        assert(v[i] == tiles[i]@);
        lemma_footprint_covers(bricks[k], tiles[i], o, adj, offx, offy, x, y);
        assert(brick_covers(bricks[k], o.size, offx, offy, x, y));
    }
}

/// A brick of a layer over cell `(x, y)` stands over the footprint of the
/// unmerged tile that holds the cell.
proof fn lemma_brick_over_owner(
    tiles: Seq<Tile>,
    o: GenOptions,
    adj: u32,
    width: u32,
    height: u32,
    ts: int,
    k: int,
    x: int,
    y: int,
) -> (i: int)
    requires
        o.size > 0,
        width <= i32::MAX,
        height <= i32::MAX,
        placed(views(tiles), width as int, height as int, ts),
        tiles_ok(tiles, o, adj, width, height),
        forall|i: int|
            0 <= i < tiles.len() ==> (#[trigger] tiles[i]).size.0 <= u16::MAX && tiles[i].size.1
                <= u16::MAX,
        0 <= k < tiles_bricks(tiles, o, adj, width, height).len(),
        brick_covers(
            tiles_bricks(tiles, o, adj, width, height)[k],
            o.size,
            center_offset(width, o.size),
            center_offset(height, o.size),
            x,
            y,
        ),
    ensures
        0 <= i < tiles.len(),
        owns(views(tiles)[i], x, y),
        footprint(
            tiles_bricks(tiles, o, adj, width, height)[k],
            tiles[i],
            o,
            center_offset(width, o.size),
            center_offset(height, o.size),
        ),
{
    let w = width as int;
    let h = height as int;
    let offx = center_offset(width, o.size);
    let offy = center_offset(height, o.size);
    let bricks = tiles_bricks(tiles, o, adj, width, height);
    lemma_layer_footprint(tiles, o, adj, offx, offy);
    let i = choose|i: int|
        0 <= i < tiles.len() && !skipped(tiles[i], o) && footprint(
            #[trigger] layer_bricks(tiles, o, adj, offx, offy)[k],
            #[trigger] tiles[i],
            o,
            offx,
            offy,
        );
    lemma_corner_in_i32(tiles, w, h, ts, i);
    assert(tile_ok(tiles[i], o, adj, offx, offy));
    lemma_footprint_covers(bricks[k], tiles[i], o, adj, offx, offy, x, y);
    assert(views(tiles)[i] == tiles[i]@);
    i
}

/// Bricks of a layer over a common cell stand over one footprint.
proof fn lemma_layer_bricks_apart(
    tiles: Seq<Tile>,
    o: GenOptions,
    adj: u32,
    width: u32,
    height: u32,
    ts: int,
)
    requires
        o.size > 0,
        width <= i32::MAX,
        height <= i32::MAX,
        placed(views(tiles), width as int, height as int, ts),
        partitions(views(tiles), width as int, height as int),
        tiles_ok(tiles, o, adj, width, height),
        forall|i: int|
            0 <= i < tiles.len() ==> (#[trigger] tiles[i]).size.0 <= u16::MAX && tiles[i].size.1
                <= u16::MAX,
    ensures
        forall|k1: int, k2: int, x: int, y: int|
            0 <= k1 < tiles_bricks(tiles, o, adj, width, height).len() && 0 <= k2 < tiles_bricks(
                tiles,
                o,
                adj,
                width,
                height,
            ).len() && 0 <= x < width && 0 <= y < height && #[trigger] brick_covers(
                tiles_bricks(tiles, o, adj, width, height)[k1],
                o.size,
                center_offset(width, o.size),
                center_offset(height, o.size),
                x,
                y,
            ) && #[trigger] brick_covers(
                tiles_bricks(tiles, o, adj, width, height)[k2],
                o.size,
                center_offset(width, o.size),
                center_offset(height, o.size),
                x,
                y,
            ) ==> {
                &&& tiles_bricks(tiles, o, adj, width, height)[k1].position.x == tiles_bricks(
                    tiles,
                    o,
                    adj,
                    width,
                    height,
                )[k2].position.x
                &&& tiles_bricks(tiles, o, adj, width, height)[k1].position.y == tiles_bricks(
                    tiles,
                    o,
                    adj,
                    width,
                    height,
                )[k2].position.y
                &&& tiles_bricks(tiles, o, adj, width, height)[k1].size.x == tiles_bricks(
                    tiles,
                    o,
                    adj,
                    width,
                    height,
                )[k2].size.x
                &&& tiles_bricks(tiles, o, adj, width, height)[k1].size.y == tiles_bricks(
                    tiles,
                    o,
                    adj,
                    width,
                    height,
                )[k2].size.y
            },
{
    let offx = center_offset(width, o.size);
    let offy = center_offset(height, o.size);
    let bricks = tiles_bricks(tiles, o, adj, width, height);
    let v = views(tiles);
    assert forall|k1: int, k2: int, x: int, y: int|
        0 <= k1 < bricks.len() && 0 <= k2 < bricks.len() && 0 <= x < width && 0 <= y < height
            && #[trigger] brick_covers(bricks[k1], o.size, offx, offy, x, y) && #[trigger] brick_covers(
            bricks[k2],
            o.size,
            offx,
            offy,
            x,
            y,
        ) implies {
        &&& bricks[k1].position.x == bricks[k2].position.x
        &&& bricks[k1].position.y == bricks[k2].position.y
        &&& bricks[k1].size.x == bricks[k2].size.x
        &&& bricks[k1].size.y == bricks[k2].size.y
    } by {
        let i1 = lemma_brick_over_owner(tiles, o, adj, width, height, ts, k1, x, y);
        let i2 = lemma_brick_over_owner(tiles, o, adj, width, height, ts, k2, x, y);
        assert(owns(v[i1], x, y) && owns(v[i2], x, y));
        assert(i1 == i2);
    }
}

/// The bricks of the layer `tiles` stand over the `width` by `height` map
/// exactly: every cell lies under a brick, but for cells whose tile yields
/// none (a transparent tile left out), and bricks over a common cell stand
/// in one column, over the same footprint.
pub open spec fn stands_over(tiles: Seq<Tile>, o: GenOptions, adj: u32, width: u32, height: u32) -> bool {
    let bricks = tiles_bricks(tiles, o, adj, width, height);
    let offx = center_offset(width, o.size);
    let offy = center_offset(height, o.size);
    &&& forall|i: int, x: int, y: int|
        0 <= i < tiles.len() && 0 <= x < width && 0 <= y < height && #[trigger] owns(
            views(tiles)[i],
            x,
            y,
        ) && !skipped(tiles[i], o) ==> under_brick(bricks, o.size, offx, offy, x, y)
    &&& forall|k1: int, k2: int, x: int, y: int|
        0 <= k1 < bricks.len() && 0 <= k2 < bricks.len() && 0 <= x < width && 0 <= y < height
            && #[trigger] brick_covers(bricks[k1], o.size, offx, offy, x, y) && #[trigger] brick_covers(
            bricks[k2],
            o.size,
            offx,
            offy,
            x,
            y,
        ) ==> {
            &&& bricks[k1].position.x == bricks[k2].position.x
            &&& bricks[k1].position.y == bricks[k2].position.y
            &&& bricks[k1].size.x == bricks[k2].size.x
            &&& bricks[k1].size.y == bricks[k2].size.y
        }
}

/// The bricks of a layer whose unmerged tiles cover the map exactly stand
/// over the map exactly.
pub proof fn lemma_layer_bricks_cover(
    tiles: Seq<Tile>,
    o: GenOptions,
    adj: u32,
    width: u32,
    height: u32,
    ts: int,
)
    requires
        o.size > 0,
        width <= i32::MAX,
        height <= i32::MAX,
        placed(views(tiles), width as int, height as int, ts),
        partitions(views(tiles), width as int, height as int),
        tiles_ok(tiles, o, adj, width, height),
        forall|i: int|
            0 <= i < tiles.len() ==> (#[trigger] tiles[i]).size.0 <= u16::MAX && tiles[i].size.1
                <= u16::MAX,
    ensures
        stands_over(tiles, o, adj, width, height),
{
    lemma_layer_bricks_reach(tiles, o, adj, width, height, ts);
    lemma_layer_bricks_apart(tiles, o, adj, width, height, ts);
}

} // verus!
