//! What every merge pass keeps: each tile it counts is merged away, so the
//! number of unmerged tiles (one brick column each) drops by exactly the
//! count the pass returns.
use vstd::prelude::*;

use crate::opt::blocks::{block_merges, merge_block, quad_block, quad_column, quad_pass};
use crate::opt::lines::{
    lemma_scan_down_bounds, lemma_scan_right_bounds, line_extent, line_pass, line_step, line_vertical,
    lines_at, longer_line, merge_line_ok, merge_line_view, pos, scan_down, scan_right, similar_line,
};
use crate::opt::quad::{max_int, TileView};

verus! {

/// Positions of the tiles that have not been merged into another one.
pub open spec fn roots(v: Seq<TileView>) -> Set<int> {
    Set::new(|i: int| 0 <= i < v.len() && v[i].parent is None)
}

/// Number of tiles that have not been merged into another one: the bricks
/// (columns of bricks) a layer turns into.
pub open spec fn root_count(v: Seq<TileView>) -> int {
    roots(v).len() as int
}

/// Every tile spans at least one cell each way.
pub open spec fn sizes_positive(v: Seq<TileView>) -> bool {
    forall|i: int| 0 <= i < v.len() ==> (#[trigger] v[i]).size.0 >= 1 && v[i].size.1 >= 1
}

/// The set of unmerged positions is finite and no larger than the layer.
pub proof fn lemma_roots_finite(v: Seq<TileView>)
    ensures
        roots(v).finite(),
        roots(v).len() <= v.len(),
{
    vstd::set_lib::lemma_int_range(0, v.len() as int);
    assert(roots(v).subset_of(vstd::set_lib::set_int_range(0, v.len() as int)));
    vstd::set_lib::lemma_len_subset(roots(v), vstd::set_lib::set_int_range(0, v.len() as int));
}

/// Marking the distinct unmerged tiles at `c` as merged, and changing nothing
/// else about which tiles are merged, lowers the count by the length of `c`.
pub proof fn lemma_mark_merged(v: Seq<TileView>, u: Seq<TileView>, c: Seq<int>)
    requires
        u.len() == v.len(),
        c.no_duplicates(),
        forall|j: int| 0 <= j < c.len() ==> roots(v).contains(#[trigger] c[j]),
        forall|i: int|
            0 <= i < v.len() ==> ((#[trigger] u[i]).parent is None <==> (v[i].parent is None
                && !c.contains(i))),
    ensures
        root_count(u) == root_count(v) - c.len(),
{
    lemma_roots_finite(v);
    lemma_roots_finite(u);
    let cs = c.to_set();
    c.unique_seq_to_set();
    assert(roots(u) =~= roots(v).difference(cs)) by {
        assert forall|i: int| roots(u).contains(i) <==> roots(v).difference(cs).contains(i) by {
            assert(cs.contains(i) <==> c.contains(i));
        }
    }
    assert(roots(v).intersect(cs) =~= cs) by {
        assert forall|i: int| cs.contains(i) implies roots(v).contains(i) by {
            assert(c.contains(i));
            let j = choose|j: int| 0 <= j < c.len() && c[j] == i;
        }
    }
    vstd::set_lib::lemma_set_difference_len(roots(v), cs);
}

/// Merging a block of four unmerged tiles merges away exactly three.
pub proof fn lemma_quad_block_roots(v: Seq<TileView>, w: int, h: int, s: int, x: int, y: int)
    requires
        v.len() == w * h,
        s >= 1,
        0 <= x,
        x + s < w,
        0 <= y,
        y + s < h,
    ensures
        root_count(quad_block(v, h, s, x, y).0) + quad_block(v, h, s, x, y).1 == root_count(v),
        quad_block(v, h, s, x, y).0.len() == v.len(),
{
    if block_merges(v, h, s, x, y) {
        let a = pos(x, y, h);
        let b = pos(x + s, y, h);
        let c = pos(x, y + s, h);
        let d = pos(x + s, y + s, h);
        assert(0 <= a < c < b < d < w * h) by (nonlinear_arith)
            requires
                a == y + x * h,
                b == y + (x + s) * h,
                c == y + s + x * h,
                d == y + s + (x + s) * h,
                0 <= x,
                x + s < w,
                0 <= y,
                y + s < h,
                s >= 1,
        ;
        let u = merge_block(v, h, s, x, y);
        let cs = seq![b, c, d];
        assert(cs.no_duplicates());
        assert forall|i: int| 0 <= i < v.len() implies ((#[trigger] u[i]).parent is None <==> (
        v[i].parent is None && !cs.contains(i))) by {
            assert(cs.contains(i) <==> (i == b || i == c || i == d)) by {
                if i == b {
                    assert(cs[0] == i);
                }
                if i == c {
                    assert(cs[1] == i);
                }
                if i == d {
                    assert(cs[2] == i);
                }
            }
        }
        lemma_mark_merged(v, u, cs);
    }
}

/// A column of blocks merges away exactly as many tiles as it counts.
pub proof fn lemma_quad_column_roots(v: Seq<TileView>, w: int, h: int, s: int, x: int, y: int)
    requires
        v.len() == w * h,
        0 <= x,
        x + s < w,
        0 <= y,
    ensures
        root_count(quad_column(v, h, s, x, y).0) + quad_column(v, h, s, x, y).1 == root_count(v),
        quad_column(v, h, s, x, y).0.len() == v.len(),
    decreases max_int(h - s - y, 0),
{
    if s >= 1 && y < h - s {
        let b = quad_block(v, h, s, x, y);
        lemma_quad_block_roots(v, w, h, s, x, y);
        lemma_quad_column_roots(b.0, w, h, s, x, y + 2 * s);
    }
}

/// One level of quad merging merges away exactly as many tiles as it
/// counts.
pub proof fn lemma_quad_pass_roots(v: Seq<TileView>, w: int, h: int, s: int, x: int)
    requires
        v.len() == w * h,
        0 <= x,
    ensures
        root_count(quad_pass(v, w, h, s, x).0) + quad_pass(v, w, h, s, x).1 == root_count(v),
        quad_pass(v, w, h, s, x).0.len() == v.len(),
    decreases max_int(w - s - x, 0),
{
    if s >= 1 && x < w - s {
        let c = quad_column(v, h, s, x, 0);
        lemma_quad_column_roots(v, w, h, s, x, 0);
        lemma_quad_pass_roots(c.0, w, h, s, x + 2 * s);
    }
}

/// A line's extent is never negative.
pub proof fn lemma_line_extent_nonneg(v: Seq<TileView>, children: Seq<int>, vertical: bool)
    ensures
        line_extent(v, children, vertical) >= 0,
    decreases children.len(),
{
    if children.len() > 0 {
        lemma_line_extent_nonneg(v, children.drop_last(), vertical);
    }
}

/// A strictly increasing sequence has no duplicates.
proof fn lemma_increasing_no_dups(c: Seq<int>)
    requires
        forall|i: int, j: int| 0 <= i < j < c.len() ==> c[i] < c[j],
    ensures
        c.no_duplicates(),
{
    assert forall|i: int, j: int| 0 <= i < c.len() && 0 <= j < c.len() && i != j implies c[i]
        != c[j] by {
        if i < j {
            assert(c[i] < c[j]);
        } else {
            assert(c[j] < c[i]);
        }
    }
}

/// One step of line merging merges away exactly as many tiles as it counts,
/// and, where it stays within `u32`, keeps every tile at least one cell wide.
pub proof fn lemma_line_step_roots(v: Seq<TileView>, w: int, h: int, ts: int, k: int)
    requires
        0 <= w,
        0 <= h,
        v.len() == w * h,
        0 <= k < w * h,
        sizes_positive(v),
    ensures
        root_count(line_step(v, w, h, ts, k).0) + line_step(v, w, h, ts, k).1 == root_count(v),
        line_step(v, w, h, ts, k).0.len() == v.len(),
        line_step(v, w, h, ts, k).2 ==> sizes_positive(line_step(v, w, h, ts, k).0),
{
    if v[k].parent is None {
        assert(h > 0 && w > 0) by (nonlinear_arith)
            requires
                0 <= k < w * h,
                h >= 0,
                w >= 0,
        ;
        vstd::arithmetic::div_mod::lemma_fundamental_div_mod(k, h);
        let x = k / h;
        let y = k % h;
        assert(0 <= x < w) by (nonlinear_arith)
            requires
                k == h * x + y,
                0 <= y < h,
                0 <= k < w * h,
                h > 0,
        ;
        assert(pos(x, y, h) == k) by (nonlinear_arith)
            requires
                k == h * x + y,
        ;
        let s = v[k];
        lemma_scan_right_bounds(v, s, x, y, w, h, ts, s.size.0 as int);
        lemma_scan_down_bounds(v, s, x, y, w, h, ts, s.size.1 as int);
        let lines = lines_at(v, w, h, ts, k);
        let c = longer_line(lines);
        lemma_increasing_no_dups(c);
        let u = merge_line_view(v, k, c);
        if c.len() > 0 {
            let vertical = line_vertical(v, k, c);
            lemma_line_extent_nonneg(v, c, vertical);
            assert forall|i: int| 0 <= i < v.len() implies ((#[trigger] u[i]).parent is None <==> (
            v[i].parent is None && !c.contains(i))) by {
                if i == k {
                    assert(!c.contains(k)) by {
                        if c.contains(k) {
                            let j = choose|j: int| 0 <= j < c.len() && c[j] == k;
                        }
                    }
                }
            }
            assert forall|j: int| 0 <= j < c.len() implies roots(v).contains(#[trigger] c[j]) by {
            }
            lemma_mark_merged(v, u, c);
        } else {
            assert(u == v);
        }
    }
}

/// A whole line pass merges away exactly as many tiles as it counts.
pub proof fn lemma_line_pass_roots(v: Seq<TileView>, w: int, h: int, ts: int, k: int)
    requires
        0 <= w,
        0 <= h,
        v.len() == w * h,
        0 <= k,
        sizes_positive(v),
        line_pass(v, w, h, ts, k).2,
    ensures
        root_count(line_pass(v, w, h, ts, k).0) + line_pass(v, w, h, ts, k).1 == root_count(v),
        line_pass(v, w, h, ts, k).0.len() == v.len(),
        sizes_positive(line_pass(v, w, h, ts, k).0),
    decreases w * h - k,
{
    if k >= w * h || k < 0 {
    } else {
        let step = line_step(v, w, h, ts, k);
        lemma_line_step_roots(v, w, h, ts, k);
        lemma_line_pass_roots(step.0, w, h, ts, k + 1);
    }
}

/// `u` is the layer `v` after merging: every tile keeps its index, corner
/// cell, color and height, and a tile already merged into another one stays
/// merged into it.
pub open spec fn keeps_tiles(v: Seq<TileView>, u: Seq<TileView>) -> bool {
    &&& u.len() == v.len()
    &&& forall|i: int|
        0 <= i < v.len() ==> {
            &&& (#[trigger] u[i]).index == v[i].index
            &&& u[i].center == v[i].center
            &&& u[i].color == v[i].color
            &&& u[i].height == v[i].height
            &&& (v[i].parent is Some ==> u[i].parent == v[i].parent)
        }
}

/// Keeping tiles is transitive.
proof fn lemma_keeps_trans(a: Seq<TileView>, b: Seq<TileView>, c: Seq<TileView>)
    requires
        keeps_tiles(a, b),
        keeps_tiles(b, c),
    ensures
        keeps_tiles(a, c),
{
    assert forall|i: int| 0 <= i < a.len() implies {
        &&& (#[trigger] c[i]).index == a[i].index
        &&& c[i].center == a[i].center
        &&& c[i].color == a[i].color
        &&& c[i].height == a[i].height
        &&& (a[i].parent is Some ==> c[i].parent == a[i].parent)
    } by {
        assert(b[i].index == a[i].index);
    }
}

/// Merging one block that lies within the layer keeps every tile.
proof fn lemma_quad_block_keeps(v: Seq<TileView>, h: int, s: int, x: int, y: int)
    requires
        0 <= x,
        0 <= y,
        0 <= s,
        0 <= h,
        pos(x + s, y + s, h) < v.len(),
    ensures
        keeps_tiles(v, quad_block(v, h, s, x, y).0),
{
    if block_merges(v, h, s, x, y) {
        assert(0 <= pos(x, y, h) <= pos(x + s, y, h) <= pos(x + s, y + s, h)) by (nonlinear_arith)
            requires
                0 <= x,
                0 <= y,
                0 <= s,
                0 <= h,
        ;
        assert(pos(x, y + s, h) <= pos(x + s, y + s, h)) by (nonlinear_arith)
            requires
                0 <= s,
                0 <= h,
        ;
        let u = merge_block(v, h, s, x, y);
        assert forall|i: int| 0 <= i < v.len() implies {
            &&& (#[trigger] u[i]).index == v[i].index
            &&& u[i].center == v[i].center
            &&& u[i].color == v[i].color
            &&& u[i].height == v[i].height
            &&& (v[i].parent is Some ==> u[i].parent == v[i].parent)
        } by {
        }
    }
}

/// Merging a column of blocks keeps every tile.
proof fn lemma_quad_column_keeps(v: Seq<TileView>, w: int, h: int, s: int, x: int, y: int)
    requires
        0 <= x,
        0 <= y,
        0 <= h,
        x + s < w,
        v.len() == w * h,
    ensures
        keeps_tiles(v, quad_column(v, h, s, x, y).0),
    decreases max_int(h - s - y, 0),
{
    if s >= 1 && y < h - s {
        assert(pos(x + s, y + s, h) < w * h) by (nonlinear_arith)
            requires
                0 <= x + s < w,
                0 <= y + s < h,
        ;
        let b = quad_block(v, h, s, x, y);
        lemma_quad_block_keeps(v, h, s, x, y);
        lemma_quad_column_keeps(b.0, w, h, s, x, y + 2 * s);
        lemma_keeps_trans(v, b.0, quad_column(b.0, h, s, x, y + 2 * s).0);
    }
}

/// A level of quadtree merging keeps every tile of the layer.
pub proof fn lemma_quad_pass_keeps(v: Seq<TileView>, w: int, h: int, s: int, x: int)
    requires
        0 <= x,
        0 <= h,
        v.len() == w * h,
    ensures
        keeps_tiles(v, quad_pass(v, w, h, s, x).0),
    decreases max_int(w - s - x, 0),
{
    if s >= 1 && x < w - s {
        let c = quad_column(v, h, s, x, 0);
        lemma_quad_column_keeps(v, w, h, s, x, 0);
        lemma_quad_pass_keeps(c.0, w, h, s, x + 2 * s);
        lemma_keeps_trans(v, c.0, quad_pass(c.0, w, h, s, x + 2 * s).0);
    }
}

/// The tiles a scan to the right lines up have not been merged.
proof fn lemma_scan_right_unmerged(
    v: Seq<TileView>,
    s: TileView,
    x: int,
    y: int,
    w: int,
    h: int,
    ts: int,
    sx: int,
)
    ensures
        forall|j: int|
            0 <= j < scan_right(v, s, x, y, w, h, ts, sx).0.len() ==> v[#[trigger] scan_right(
                v,
                s,
                x,
                y,
                w,
                h,
                ts,
                sx,
            ).0[j]].parent is None,
    decreases max_int(w - x - sx, 0),
{
    if x + sx <= u32::MAX && x + sx < w {
        let i = pos(x + sx, y, h);
        let t = v[i];
        let sum = sx + t.size.0;
        if !(sum > u32::MAX || sum * ts > u32::MAX) && !(sum * ts > 500 || !similar_line(s, t))
            && t.size.0 != 0 {
            lemma_scan_right_unmerged(v, s, x, y, w, h, ts, sum);
            let rest = scan_right(v, s, x, y, w, h, ts, sum).0;
            let all = scan_right(v, s, x, y, w, h, ts, sx).0;
            assert(all == seq![i] + rest);
            assert forall|j: int| 0 <= j < all.len() implies v[#[trigger] all[j]].parent is None by {
                if j > 0 {
                    assert(all[j] == rest[j - 1]);
                }
            }
        }
    }
}

/// The tiles a scan downwards lines up have not been merged.
proof fn lemma_scan_down_unmerged(
    v: Seq<TileView>,
    s: TileView,
    x: int,
    y: int,
    w: int,
    h: int,
    ts: int,
    sy: int,
)
    ensures
        forall|j: int|
            0 <= j < scan_down(v, s, x, y, w, h, ts, sy).0.len() ==> v[#[trigger] scan_down(
                v,
                s,
                x,
                y,
                w,
                h,
                ts,
                sy,
            ).0[j]].parent is None,
    decreases max_int(h - y - sy, 0),
{
    if y + sy <= u32::MAX && y + sy < h {
        let i = pos(x, y + sy, h);
        let t = v[i];
        let sum = sy + t.size.1;
        if !(sum > u32::MAX || sum * ts > u32::MAX) && !(sum * ts > 500 || !similar_line(s, t))
            && t.size.1 != 0 {
            lemma_scan_down_unmerged(v, s, x, y, w, h, ts, sum);
            let rest = scan_down(v, s, x, y, w, h, ts, sum).0;
            let all = scan_down(v, s, x, y, w, h, ts, sy).0;
            assert(all == seq![i] + rest);
            assert forall|j: int| 0 <= j < all.len() implies v[#[trigger] all[j]].parent is None by {
                if j > 0 {
                    assert(all[j] == rest[j - 1]);
                }
            }
        }
    }
}

/// One step of line merging keeps every tile.
proof fn lemma_line_step_keeps(v: Seq<TileView>, w: int, h: int, ts: int, k: int)
    ensures
        keeps_tiles(v, line_step(v, w, h, ts, k).0),
{
    if v[k].parent is None {
        let x = k / h;
        let y = k % h;
        let s = v[k];
        lemma_scan_right_unmerged(v, s, x, y, w, h, ts, s.size.0 as int);
        lemma_scan_down_unmerged(v, s, x, y, w, h, ts, s.size.1 as int);
        let c = longer_line(lines_at(v, w, h, ts, k));
        let u = merge_line_view(v, k, c);
        if c.len() > 0 {
            assert forall|i: int| 0 <= i < v.len() implies {
                &&& (#[trigger] u[i]).index == v[i].index
                &&& u[i].center == v[i].center
                &&& u[i].color == v[i].color
                &&& u[i].height == v[i].height
                &&& (v[i].parent is Some ==> u[i].parent == v[i].parent)
            } by {
                if i != k && c.contains(i) {
                    let j = choose|j: int| 0 <= j < c.len() && c[j] == i;
                    assert(v[c[j]].parent is None);
                }
            }
        }
    }
}

/// A pass of line merging keeps every tile of the layer.
pub proof fn lemma_line_pass_keeps(v: Seq<TileView>, w: int, h: int, ts: int, k: int)
    ensures
        keeps_tiles(v, line_pass(v, w, h, ts, k).0),
    decreases w * h - k,
{
    if !(k >= w * h || k < 0) {
        let step = line_step(v, w, h, ts, k);
        lemma_line_step_keeps(v, w, h, ts, k);
        lemma_line_pass_keeps(step.0, w, h, ts, k + 1);
        lemma_keeps_trans(v, step.0, line_pass(step.0, w, h, ts, k + 1).0);
    }
}

} // verus!
