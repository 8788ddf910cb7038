//! Where tiles lie: every tile of a freshly built layer covers its own cell,
//! and merging keeps each tile within the map, so the passes never overflow.
use vstd::prelude::*;

use crate::opt::blocks::{block_merges, merge_block, quad_block, quad_column, quad_pass};
use crate::opt::laws::lemma_line_extent_nonneg;
use crate::opt::lines::{
    line_extent, line_extent_ok, line_pass, line_step, line_vertical, lines_at, longer_line,
    merge_line_ok, merge_line_view, pos, scan_down, scan_right, similar_line,
};
use crate::map::{Colormap, Heightmap};
use crate::opt::model::{fresh_layer, fresh_tile, LayerRule};
use crate::opt::quad::{max_int, views, Tile, TileView};

verus! {

/// The tile `t` has its corner at `(x, y)`, lies within the `w` by `h` map,
/// and is one cell wide or at most 500 units wide at `ts` units per cell
/// (and the same for its height).
pub open spec fn fits_cell(t: TileView, x: int, y: int, w: int, h: int, ts: int) -> bool {
    &&& t.center == (x as u32, y as u32)
    &&& 1 <= t.size.0 && x + t.size.0 <= w
    &&& 1 <= t.size.1 && y + t.size.1 <= h
    &&& (t.size.0 == 1 || t.size.0 * ts <= 500)
    &&& (t.size.1 == 1 || t.size.1 * ts <= 500)
}

/// Every tile of the layer `v` of a `w` by `h` map fits its cell.
pub open spec fn placed(v: Seq<TileView>, w: int, h: int, ts: int) -> bool {
    &&& 0 <= w
    &&& 0 <= h
    &&& w * h <= u32::MAX
    &&& 0 <= ts <= u16::MAX
    &&& v.len() == w * h
    &&& forall|x: int, y: int|
        0 <= x < w && 0 <= y < h ==> fits_cell(#[trigger] v[pos(x, y, h)], x, y, w, h, ts)
}

/// Every tile of `v` is square.
pub open spec fn square(v: Seq<TileView>) -> bool {
    forall|i: int| 0 <= i < v.len() ==> (#[trigger] v[i]).size.0 == v[i].size.1
}

/// Extent of the line starting with `i`.
pub proof fn lemma_extent_cons(v: Seq<TileView>, i: int, rest: Seq<int>, vertical: bool)
    ensures
        line_extent(v, seq![i] + rest, vertical) == line_extent(v, rest, vertical) + if vertical {
            v[i].size.1 as int
        } else {
            v[i].size.0 as int
        },
    decreases rest.len(),
{
    if rest.len() == 0 {
        assert(seq![i] + rest =~= seq![i]);
        assert(seq![i].drop_last() =~= Seq::<int>::empty());
        assert(seq![i].last() == i);
        assert(line_extent(v, Seq::<int>::empty(), vertical) == 0);
    } else {
        let whole = seq![i] + rest;
        assert(whole.drop_last() =~= seq![i] + rest.drop_last());
        assert(whole.last() == rest.last());
        lemma_extent_cons(v, i, rest.drop_last(), vertical);
        let sz = |j: int| if vertical {
            v[j].size.1 as int
        } else {
            v[j].size.0 as int
        };
        assert(line_extent(v, whole, vertical) == line_extent(v, whole.drop_last(), vertical) + sz(whole.last()));
        assert(line_extent(v, rest, vertical) == line_extent(v, rest.drop_last(), vertical) + sz(rest.last()));
    }
}

/// A line whose extent fits in `u32` has every prefix fitting too.
pub proof fn lemma_extent_ok(v: Seq<TileView>, c: Seq<int>, vertical: bool)
    requires
        line_extent(v, c, vertical) <= u32::MAX,
    ensures
        line_extent_ok(v, c, vertical),
    decreases c.len(),
{
    if c.len() > 0 {
        lemma_line_extent_nonneg(v, c.drop_last(), vertical);
        lemma_extent_ok(v, c.drop_last(), vertical);
    }
}

/// The cell at position `k` of the layer.
pub proof fn lemma_cell_of(k: int, w: int, h: int)
    requires
        0 <= w,
        0 <= h,
        0 <= k < w * h,
    ensures
        h > 0,
        0 <= k / h < w,
        0 <= k % h < h,
        pos(k / h, k % h, h) == k,
{
    assert(h > 0) by (nonlinear_arith)
        requires
            0 <= k < w * h,
            0 <= w,
            0 <= h,
    ;
    vstd::arithmetic::div_mod::lemma_fundamental_div_mod(k, h);
    let x = k / h;
    let y = k % h;
    assert(0 <= x < w) by (nonlinear_arith)
        requires
            k == h * x + y,
            0 <= y < h,
            0 <= k < w * h,
            h > 0,
    ;
    assert(pos(x, y, h) == k) by (nonlinear_arith)
        requires
            k == h * x + y,
    ;
}

/// The position of a cell lies in the layer.
pub proof fn lemma_pos_in_layer(x: int, y: int, w: int, h: int)
    requires
        0 <= x < w,
        0 <= y < h,
    ensures
        0 <= pos(x, y, h) < w * h,
{
    assert(0 <= pos(x, y, h) < w * h) by (nonlinear_arith)
        requires
            0 <= x < w,
            0 <= y < h,
    ;
}

/// Scanning right from a placed tile never overflows, and the line stays
/// within the map and within 500 units.
pub proof fn lemma_scan_right_placed(
    v: Seq<TileView>,
    s: TileView,
    x: int,
    y: int,
    w: int,
    h: int,
    ts: int,
    sx: int,
)
    requires
        placed(v, w, h, ts),
        0 <= x < w,
        0 <= y < h,
        sx >= 1,
        x + sx <= w,
        sx * ts <= max_int(ts, 500),
    ensures
        scan_right(v, s, x, y, w, h, ts, sx).1,
        x + sx + line_extent(v, scan_right(v, s, x, y, w, h, ts, sx).0, false) <= w,
        scan_right(v, s, x, y, w, h, ts, sx).0.len() > 0 ==> {
            &&& (sx + line_extent(v, scan_right(v, s, x, y, w, h, ts, sx).0, false)) * ts <= 500
            &&& scan_right(v, s, x, y, w, h, ts, sx).0[0] == pos(x + sx, y, h)
        },
    decreases max_int(w - x - sx, 0),
{
    let r = scan_right(v, s, x, y, w, h, ts, sx);
    assert(w <= u32::MAX) by (nonlinear_arith)
        requires
            w * h <= u32::MAX,
            0 <= y < h,
            0 <= w,
    ;
    if x + sx < w {
        let i = pos(x + sx, y, h);
        let t = v[i];
        assert(fits_cell(t, x + sx, y, w, h, ts));
        let sum = sx + t.size.0;
        assert(sum <= w);
        assert(w <= u32::MAX) by (nonlinear_arith)
            requires
                w * h <= u32::MAX,
                0 <= y < h,
                0 <= w,
        ;
        assert(t.size.0 * ts <= max_int(ts, 500)) by (nonlinear_arith)
            requires
                t.size.0 == 1 || t.size.0 * ts <= 500,
                0 <= ts,
        ;
        assert(sum * ts <= 2 * max_int(ts, 500)) by (nonlinear_arith)
            requires
                sum == sx + t.size.0,
                sx * ts <= max_int(ts, 500),
                t.size.0 * ts <= max_int(ts, 500),
        ;
        if sum * ts > 500 || !similar_line(s, t) {
        } else {
            assert(sum * ts <= max_int(ts, 500));
            lemma_scan_right_placed(v, s, x, y, w, h, ts, sum);
            let rest = scan_right(v, s, x, y, w, h, ts, sum);
            lemma_extent_cons(v, i, rest.0, false);
            assert(r.0 == seq![i] + rest.0);
            lemma_line_extent_nonneg(v, rest.0, false);
        }
    }
}

/// Scanning down from a placed tile never overflows, and the line stays
/// within the map and within 500 units.
pub proof fn lemma_scan_down_placed(
    v: Seq<TileView>,
    s: TileView,
    x: int,
    y: int,
    w: int,
    h: int,
    ts: int,
    sy: int,
)
    requires
        placed(v, w, h, ts),
        0 <= x < w,
        0 <= y < h,
        sy >= 1,
        y + sy <= h,
        sy * ts <= max_int(ts, 500),
    ensures
        scan_down(v, s, x, y, w, h, ts, sy).1,
        y + sy + line_extent(v, scan_down(v, s, x, y, w, h, ts, sy).0, true) <= h,
        scan_down(v, s, x, y, w, h, ts, sy).0.len() > 0 ==> {
            &&& (sy + line_extent(v, scan_down(v, s, x, y, w, h, ts, sy).0, true)) * ts <= 500
            &&& scan_down(v, s, x, y, w, h, ts, sy).0[0] == pos(x, y + sy, h)
        },
    decreases max_int(h - y - sy, 0),
{
    let r = scan_down(v, s, x, y, w, h, ts, sy);
    assert(h <= u32::MAX) by (nonlinear_arith)
        requires
            w * h <= u32::MAX,
            0 <= x < w,
            0 <= h,
    ;
    if y + sy < h {
        let i = pos(x, y + sy, h);
        let t = v[i];
        assert(fits_cell(t, x, y + sy, w, h, ts));
        let sum = sy + t.size.1;
        assert(sum <= h);
        assert(h <= u32::MAX) by (nonlinear_arith)
            requires
                w * h <= u32::MAX,
                0 <= x < w,
                0 <= h,
        ;
        assert(t.size.1 * ts <= max_int(ts, 500)) by (nonlinear_arith)
            requires
                t.size.1 == 1 || t.size.1 * ts <= 500,
                0 <= ts,
        ;
        assert(sum * ts <= 2 * max_int(ts, 500)) by (nonlinear_arith)
            requires
                sum == sy + t.size.1,
                sy * ts <= max_int(ts, 500),
                t.size.1 * ts <= max_int(ts, 500),
        ;
        if sum * ts > 500 || !similar_line(s, t) {
        } else {
            assert(sum * ts <= max_int(ts, 500));
            lemma_scan_down_placed(v, s, x, y, w, h, ts, sum);
            let rest = scan_down(v, s, x, y, w, h, ts, sum);
            lemma_extent_cons(v, i, rest.0, true);
            assert(r.0 == seq![i] + rest.0);
            lemma_line_extent_nonneg(v, rest.0, true);
        }
    }
}

/// A line step on a placed layer never overflows and keeps it placed.
pub proof fn lemma_line_step_placed(v: Seq<TileView>, w: int, h: int, ts: int, k: int)
    requires
        placed(v, w, h, ts),
        0 <= k < w * h,
    ensures
        line_step(v, w, h, ts, k).2,
        placed(line_step(v, w, h, ts, k).0, w, h, ts),
{
    if v[k].parent is None {
        lemma_cell_of(k, w, h);
        let x = k / h;
        let y = k % h;
        let s = v[k];
        assert(fits_cell(v[pos(x, y, h)], x, y, w, h, ts));
        assert(s.size.0 * ts <= max_int(ts, 500) && s.size.1 * ts <= max_int(ts, 500))
            by (nonlinear_arith)
            requires
                s.size.0 == 1 || s.size.0 * ts <= 500,
                s.size.1 == 1 || s.size.1 * ts <= 500,
                0 <= ts,
        ;
        lemma_scan_right_placed(v, s, x, y, w, h, ts, s.size.0 as int);
        lemma_scan_down_placed(v, s, x, y, w, h, ts, s.size.1 as int);
        let lines = lines_at(v, w, h, ts, k);
        let c = longer_line(lines);
        assert(w <= u32::MAX && h <= u32::MAX) by (nonlinear_arith)
            requires
                w * h <= u32::MAX,
                0 <= x < w,
                0 <= y < h,
        ;
        if c.len() > 0 {
            let vertical = line_vertical(v, k, c);
            let ext = line_extent(v, c, vertical);
            lemma_line_extent_nonneg(v, c, vertical);
            if lines.0.0.len() > lines.1.0.len() {
                lemma_pos_in_layer(x + s.size.0, y, w, h);
                assert(fits_cell(v[pos(x + s.size.0, y, h)], x + s.size.0, y, w, h, ts));
                assert(!vertical);
                assert(x + s.size.0 + ext <= w);
            } else {
                lemma_pos_in_layer(x, y + s.size.1, w, h);
                assert(fits_cell(v[pos(x, y + s.size.1, h)], x, y + s.size.1, w, h, ts));
                assert(vertical);
                assert(y + s.size.1 + ext <= h);
            }
            lemma_extent_ok(v, c, vertical);
            assert(merge_line_ok(v, k, c));
            let u = merge_line_view(v, k, c);
            assert forall|xx: int, yy: int| 0 <= xx < w && 0 <= yy < h implies fits_cell(
                #[trigger] u[pos(xx, yy, h)],
                xx,
                yy,
                w,
                h,
                ts,
            ) by {
                lemma_pos_in_layer(xx, yy, w, h);
                assert(fits_cell(v[pos(xx, yy, h)], xx, yy, w, h, ts));
                if pos(xx, yy, h) == k {
                    assert(xx == x && yy == y) by (nonlinear_arith)
                        requires
                            yy + xx * h == y + x * h,
                            0 <= y < h,
                            0 <= yy < h,
                    ;
                }
            }
        }
    }
}

/// A whole line pass on a placed layer never overflows and keeps it placed.
pub proof fn lemma_line_pass_placed(v: Seq<TileView>, w: int, h: int, ts: int, k: int)
    requires
        placed(v, w, h, ts),
        0 <= k,
    ensures
        line_pass(v, w, h, ts, k).2,
        placed(line_pass(v, w, h, ts, k).0, w, h, ts),
    decreases w * h - k,
{
    if k < w * h {
        let step = line_step(v, w, h, ts, k);
        lemma_line_step_placed(v, w, h, ts, k);
        lemma_line_pass_placed(step.0, w, h, ts, k + 1);
    }
}

/// Merging one block of a placed layer of square tiles whose doubled side
/// stays within 500 units never overflows and keeps the layer placed and
/// square; a block that merges lies within the map.
pub proof fn lemma_quad_block_placed(
    v: Seq<TileView>,
    w: int,
    h: int,
    ts: int,
    s: int,
    x: int,
    y: int,
)
    requires
        placed(v, w, h, ts),
        square(v),
        s >= 1,
        2 * s * ts <= 500,
        0 <= x,
        x + s < w,
        0 <= y,
        y + s < h,
    ensures
        quad_block(v, h, s, x, y).2,
        placed(quad_block(v, h, s, x, y).0, w, h, ts),
        square(quad_block(v, h, s, x, y).0),
        quad_block(v, h, s, x, y).1 > 0 ==> 2 * s <= w && 2 * s <= h,
{
    if block_merges(v, h, s, x, y) {
        let a = pos(x, y, h);
        let b = pos(x + s, y, h);
        let c = pos(x, y + s, h);
        let d = pos(x + s, y + s, h);
        lemma_pos_in_layer(x, y, w, h);
        lemma_pos_in_layer(x + s, y, w, h);
        lemma_pos_in_layer(x, y + s, w, h);
        lemma_pos_in_layer(x + s, y + s, w, h);
        assert(a < c < b < d) by (nonlinear_arith)
            requires
                a == y + x * h,
                b == y + (x + s) * h,
                c == y + s + x * h,
                d == y + s + (x + s) * h,
                0 <= y,
                y + s < h,
                s >= 1,
        ;
        assert(fits_cell(v[a], x, y, w, h, ts));
        assert(fits_cell(v[b], x + s, y, w, h, ts));
        assert(fits_cell(v[c], x, y + s, w, h, ts));
        assert(v[a].size.1 == v[a].size.0);
        assert(x + 2 * s <= w);
        assert(y + 2 * s <= h);
        let u = merge_block(v, h, s, x, y);
        assert forall|xx: int, yy: int| 0 <= xx < w && 0 <= yy < h implies fits_cell(
            #[trigger] u[pos(xx, yy, h)],
            xx,
            yy,
            w,
            h,
            ts,
        ) by {
            lemma_pos_in_layer(xx, yy, w, h);
            assert(fits_cell(v[pos(xx, yy, h)], xx, yy, w, h, ts));
            if pos(xx, yy, h) == a {
                assert(xx == x && yy == y) by (nonlinear_arith)
                    requires
                        yy + xx * h == y + x * h,
                        0 <= y < h,
                        0 <= yy < h,
                ;
                assert(2 * s * ts <= 500);
            }
        }
        assert forall|i: int| 0 <= i < u.len() implies (#[trigger] u[i]).size.0 == u[i].size.1 by {
            assert(v[i].size.0 == v[i].size.1);
        }
    }
}

/// A column of blocks: as for one block.
pub proof fn lemma_quad_column_placed(
    v: Seq<TileView>,
    w: int,
    h: int,
    ts: int,
    s: int,
    x: int,
    y: int,
)
    requires
        placed(v, w, h, ts),
        square(v),
        s >= 1,
        2 * s * ts <= 500,
        0 <= x,
        x + s < w,
        0 <= y,
    ensures
        quad_column(v, h, s, x, y).2,
        placed(quad_column(v, h, s, x, y).0, w, h, ts),
        square(quad_column(v, h, s, x, y).0),
        quad_column(v, h, s, x, y).1 > 0 ==> 2 * s <= w && 2 * s <= h,
    decreases max_int(h - s - y, 0),
{
    if y < h - s {
        let b = quad_block(v, h, s, x, y);
        lemma_quad_block_placed(v, w, h, ts, s, x, y);
        lemma_quad_column_placed(b.0, w, h, ts, s, x, y + 2 * s);
        crate::opt::blocks::lemma_quad_column_nonneg(b.0, h, s, x, y + 2 * s);
    }
}

/// A whole level of quad merging: as for one block.
pub proof fn lemma_quad_pass_placed(v: Seq<TileView>, w: int, h: int, ts: int, s: int, x: int)
    requires
        placed(v, w, h, ts),
        square(v),
        s >= 1,
        2 * s * ts <= 500,
        0 <= x,
    ensures
        quad_pass(v, w, h, s, x).2,
        placed(quad_pass(v, w, h, s, x).0, w, h, ts),
        square(quad_pass(v, w, h, s, x).0),
        quad_pass(v, w, h, s, x).1 > 0 ==> 2 * s <= w && 2 * s <= h,
    decreases max_int(w - s - x, 0),
{
    if x < w - s {
        let c = quad_column(v, h, s, x, 0);
        lemma_quad_column_placed(v, w, h, ts, s, x, 0);
        lemma_quad_pass_placed(c.0, w, h, ts, s, x + 2 * s);
        crate::opt::blocks::lemma_quad_column_nonneg(v, h, s, x, 0);
        crate::opt::blocks::lemma_quad_pass_nonneg(c.0, w, h, s, x + 2 * s);
    }
}

/// A freshly built layer is placed, and all its tiles are square.
pub proof fn lemma_fresh_placed(tiles: Seq<Tile>, hm: Heightmap, cm: Colormap, rule: LayerRule, ts: int)
    requires
        fresh_layer(tiles, hm, cm, rule),
        hm.spec_width() as int * hm.spec_height() as int <= u32::MAX,
        0 <= ts <= u16::MAX,
    ensures
        placed(views(tiles), hm.spec_width() as int, hm.spec_height() as int, ts),
        square(views(tiles)),
{
    let w = hm.spec_width() as int;
    let h = hm.spec_height() as int;
    let v = views(tiles);
    assert forall|x: int, y: int| 0 <= x < w && 0 <= y < h implies fits_cell(
        #[trigger] v[pos(x, y, h)],
        x,
        y,
        w,
        h,
        ts,
    ) by {
        assert(pos(x, y, h) == x * h + y);
        lemma_pos_in_layer(x, y, w, h);
        assert(fresh_tile(tiles[x * h + y], hm, cm, rule, x, y));
    }
    assert forall|i: int| 0 <= i < v.len() implies (#[trigger] v[i]).size.0 == v[i].size.1 by {
        lemma_cell_of(i, w, h);
        let x = i / h;
        let y = i % h;
        assert(pos(x, y, h) == x * h + y);
        assert(fresh_tile(tiles[x * h + y], hm, cm, rule, x, y));
    }
}

} // verus!
