//! Whole-map generation steps that work on the finished bricks.
use vstd::prelude::*;

use crate::brick::{Brick, Position};
use crate::map::{Colormap, Heightmap};
use crate::opt::blocks::{lemma_quad_pass_nonneg, quad_pass};
use crate::opt::construct::grid_fits;
use crate::opt::laws::{
    keeps_tiles,
    lemma_line_pass_roots, lemma_quad_pass_roots, lemma_roots_finite, root_count, sizes_positive,
};
use crate::opt::lines::{line_pass, pos};
use crate::opt::model::{
    filter_heights, fresh_layer, fresh_tile, last_colors, rule_color, rule_height, scan, zero_colors,
    LayerRule,
};
use crate::opt::cover::{
    lemma_layer_bricks_cover, stands_over, lemma_fresh_partitions, lemma_fresh_true, lemma_line_pass_partitions, lemma_line_pass_true,
    lemma_quad_pass_partitions, lemma_quad_pass_true, owns, partitions, true_to,
};
use crate::opt::layout::{lemma_layer_on_grid, on_grid};
use crate::opt::placement::{
    fits_cell, lemma_cell_of, lemma_fresh_placed, lemma_line_pass_placed, lemma_quad_pass_placed, placed, square,
};
use crate::opt::quad::{
    TileView, bricks_ok, built_from, in_i32, level_result, line_counts, line_optimize_ok, line_result,
    keeps_layers, layer_adjustment, layers_roots, min_int, pow2_u32, quad_counts, quad_optimize_ok, stacked_bricks, tree_roots,
    views, QuadTree, Tile,
};
use crate::util::GenOptions;

use vstd::arithmetic::power2::pow2;

verus! {

/// How far below the ground plane (z = 0) a brick reaches: its center minus
/// its half-height.
pub open spec fn bottom(b: Brick) -> int {
    b.position.z - b.size.z
}

/// The lowest bottom of a sequence of bricks (0 for none).
pub open spec fn lowest_bottom(s: Seq<Brick>) -> int
    decreases s.len(),
{
    if s.len() == 0 {
        0
    } else if s.len() == 1 {
        bottom(s[0])
    } else {
        min_int(lowest_bottom(s.drop_last()), bottom(s.last()))
    }
}

/// `b` moved down by `d` units.
pub open spec fn lowered(b: Brick, d: int) -> Brick {
    Brick { position: Position { z: (b.position.z - d) as i32, ..b.position }, ..b }
}

/// The lowest bottom is one of the bottoms, and no bottom is lower.
pub proof fn lemma_lowest_bottom(s: Seq<Brick>)
    requires
        s.len() > 0,
    ensures
        exists|i: int| 0 <= i < s.len() && bottom(#[trigger] s[i]) == lowest_bottom(s),
        forall|i: int| 0 <= i < s.len() ==> lowest_bottom(s) <= bottom(#[trigger] s[i]),
    decreases s.len(),
{
    if s.len() == 1 {
        assert(bottom(s[0]) == lowest_bottom(s));
    } else {
        let p = s.drop_last();
        lemma_lowest_bottom(p);
        if lowest_bottom(p) <= bottom(s.last()) {
            let i = choose|i: int| 0 <= i < p.len() && bottom(#[trigger] p[i]) == lowest_bottom(p);
            assert(bottom(s[i]) == lowest_bottom(s));
        } else {
            assert(bottom(s[s.len() - 1]) == lowest_bottom(s));
        }
        assert forall|i: int| 0 <= i < s.len() implies lowest_bottom(s) <= bottom(#[trigger] s[i]) by {
            if i < s.len() - 1 {
                assert(s[i] == p[i]);
            }
        }
    }
}

/// Lift the save so its lowest brick sits exactly on the ground plane.
///
/// A tile's brick hangs below its own surface by a varying amount (the
/// minimum thickness floor and snap rounding both contribute), so the
/// deepest point of a map is not something the per-tile math can know. Left
/// alone the save either clips into the ground or floats.
pub fn rest_on_ground(bricks: &mut Vec<Brick>)
    requires
        forall|i: int| 0 <= i < old(bricks)@.len() ==> in_i32(bottom(#[trigger] old(bricks)@[i])),
        forall|i: int|
            0 <= i < old(bricks)@.len() ==> in_i32(
                (#[trigger] old(bricks)@[i]).position.z - lowest_bottom(old(bricks)@),
            ),
    ensures
        final(bricks)@.len() == old(bricks)@.len(),
        forall|i: int|
            0 <= i < old(bricks)@.len() ==> #[trigger] final(bricks)@[i] == lowered(
                old(bricks)@[i],
                lowest_bottom(old(bricks)@),
            ),
{
    if bricks.len() == 0 {
        return ;
    }
    let mut lowest: i32 = bricks[0].position.z - bricks[0].size.z as i32;
    let mut i: usize = 1;
    while i < bricks.len()
        invariant
            1 <= i <= bricks@.len(),
            forall|j: int| 0 <= j < bricks@.len() ==> in_i32(bottom(#[trigger] bricks@[j])),
            lowest == lowest_bottom(bricks@.take(i as int)),
        decreases bricks@.len() - i,
    {
        let b = bricks[i].position.z - bricks[i].size.z as i32;
        proof {
            let p = bricks@.take(i + 1);
            assert(p.drop_last() =~= bricks@.take(i as int));
        }
        if b < lowest {
            lowest = b;
        }
        i += 1;
    }
    assert(bricks@.take(i as int) =~= bricks@);
    if lowest == 0 {
        assert forall|i: int| 0 <= i < old(bricks)@.len() implies #[trigger] bricks@[i] == lowered(
            old(bricks)@[i],
            lowest_bottom(old(bricks)@),
        ) by {
            assert(bricks@[i].position =~= lowered(old(bricks)@[i], 0).position);
        }
        return ;
    }
    let ghost before = bricks@;
    let mut i: usize = 0;
    while i < bricks.len()
        invariant
            i <= bricks@.len(),
            bricks@.len() == before.len(),
            lowest == lowest_bottom(before),
            forall|j: int| 0 <= j < before.len() ==> in_i32((#[trigger] before[j]).position.z - lowest),
            forall|j: int| 0 <= j < i ==> #[trigger] bricks@[j] == lowered(before[j], lowest as int),
            forall|j: int| i <= j < before.len() ==> #[trigger] bricks@[j] == before[j],
        decreases bricks@.len() - i,
    {
        assert(in_i32(before[i as int].position.z - lowest));
        bricks[i].position.z = bricks[i].position.z - lowest;
        i += 1;
    }
}

/// Once the save rests on the ground, its lowest brick sits exactly on the
/// ground plane.
pub proof fn lemma_rest_on_ground_level(before: Seq<Brick>, after: Seq<Brick>)
    requires
        before.len() > 0,
        after.len() == before.len(),
        forall|i: int| 0 <= i < before.len() ==> in_i32(bottom(#[trigger] before[i])),
        forall|i: int|
            0 <= i < before.len() ==> in_i32((#[trigger] before[i]).position.z - lowest_bottom(before)),
        forall|i: int|
            0 <= i < before.len() ==> #[trigger] after[i] == lowered(before[i], lowest_bottom(before)),
    ensures
        lowest_bottom(after) == 0,
{
    lemma_lowest_bottom(before);
    lemma_lowest_bottom(after);
    let d = lowest_bottom(before);
    let i = choose|i: int| 0 <= i < before.len() && bottom(#[trigger] before[i]) == d;
    assert(bottom(after[i]) == bottom(before[i]) - d);
    assert forall|j: int| 0 <= j < after.len() implies 0 <= bottom(#[trigger] after[j]) by {
        assert(bottom(after[j]) == bottom(before[j]) - d);
    }
    let k = choose|k: int| 0 <= k < after.len() && bottom(#[trigger] after[k]) == lowest_bottom(after);
}

/// Sixteen levels or more do not fit in a map of at most `u32::MAX` cells.
proof fn lemma_pow2_small(n: nat)
    requires
        pow2(n) * pow2(n) <= u32::MAX,
    ensures
        n < 16,
{
    if n >= 16 {
        vstd::arithmetic::power2::lemma2_to64();
        if n > 16 {
            vstd::arithmetic::power2::lemma_pow2_strictly_increases(16, n);
        }
        assert(pow2(n) * pow2(n) >= 65536 * 65536) by (nonlinear_arith)
            requires
                pow2(n) >= 65536,
        ;
    }
}

/// Below level 16 a block side is at most `2^15`.
proof fn lemma_pow2_below_16(n: nat)
    requires
        n < 16,
    ensures
        pow2(n) <= 0x8000,
{
    vstd::arithmetic::power2::lemma2_to64();
    if n < 15 {
        vstd::arithmetic::power2::lemma_pow2_strictly_increases(n, 15);
    }
}

/// A strictly increasing sequence has as many distinct values as elements.
proof fn lemma_strictly_increasing_len(s: Seq<u32>)
    requires
        crate::opt::model::strictly_increasing(s),
    ensures
        s.to_set().len() == s.len(),
{
    assert(s.no_duplicates()) by {
        assert forall|i: int, j: int| 0 <= i < s.len() && 0 <= j < s.len() && i != j implies s[i]
            != s[j] by {
            if i < j {
                assert(s[i] < s[j]);
            } else {
                assert(s[j] < s[i]);
            }
        }
    }
    s.unique_seq_to_set();
}

/// One quad level counts no more tiles than a layer holds.
proof fn lemma_quad_pass_bound(v: Seq<TileView>, w: int, h: int, s: int)
    requires
        v.len() == w * h,
    ensures
        0 <= quad_pass(v, w, h, s, 0).1 <= w * h,
{
    lemma_quad_pass_roots(v, w, h, s, 0);
    lemma_roots_finite(v);
    lemma_quad_pass_nonneg(v, w, h, s, 0);
}

/// One line pass counts no more tiles than a layer holds.
proof fn lemma_line_pass_bound(v: Seq<TileView>, w: int, h: int, ts: int)
    requires
        0 <= w,
        0 <= h,
        v.len() == w * h,
        sizes_positive(v),
        line_pass(v, w, h, ts, 0).2,
    ensures
        0 <= line_pass(v, w, h, ts, 0).1 <= w * h,
{
    lemma_line_pass_roots(v, w, h, ts, 0);
    lemma_roots_finite(v);
    crate::opt::lines::lemma_line_pass_nonneg(v, w, h, ts, 0);
}

/// A placed layer has tiles of positive size.
proof fn lemma_placed_sizes(v: Seq<TileView>, w: int, h: int, ts: int)
    requires
        placed(v, w, h, ts),
    ensures
        sizes_positive(v),
{
    assert forall|i: int| 0 <= i < v.len() implies (#[trigger] v[i]).size.0 >= 1 && v[i].size.1 >= 1 by {
        crate::opt::placement::lemma_cell_of(i, w, h);
        assert(fits_cell(v[crate::opt::lines::pos(i / h, i % h, h)], i / h, i % h, w, h, ts));
    }
}

/// Quad levels over placed layers count at most all their tiles, and merge
/// something in some layer when they count anything.
proof fn lemma_quad_counts_bound(layers: Seq<Seq<Tile>>, w: int, h: int, s: int)
    requires
        forall|j: int| 0 <= j < layers.len() ==> (#[trigger] layers[j]).len() == w * h,
    ensures
        0 <= quad_counts(layers, w, h, s) <= layers.len() * (w * h),
        quad_counts(layers, w, h, s) > 0 ==> exists|j: int|
            0 <= j < layers.len() && quad_pass(views(#[trigger] layers[j]), w, h, s, 0).1 > 0,
    decreases layers.len(),
{
    if layers.len() > 0 {
        let n = layers.len() - 1;
        lemma_quad_counts_bound(layers.drop_last(), w, h, s);
        assert(layers[n].len() == w * h);
        lemma_quad_pass_bound(views(layers.last()), w, h, s);
        assert((n + 1) * (w * h) == n * (w * h) + w * h) by (nonlinear_arith);
        if quad_counts(layers.drop_last(), w, h, s) > 0 {
            let j = choose|j: int|
                0 <= j < layers.drop_last().len() && quad_pass(
                    views(#[trigger] layers.drop_last()[j]),
                    w,
                    h,
                    s,
                    0,
                ).1 > 0;
            assert(layers[j] == layers.drop_last()[j]);
        }
    }
}

/// Line passes over placed layers count at most all their tiles.
proof fn lemma_line_counts_bound(layers: Seq<Seq<Tile>>, w: int, h: int, ts: int)
    requires
        0 <= w,
        0 <= h,
        forall|j: int|
            0 <= j < layers.len() ==> placed(views(#[trigger] layers[j]), w, h, ts),
    ensures
        0 <= line_counts(layers, w, h, ts) <= layers.len() * (w * h),
    decreases layers.len(),
{
    if layers.len() > 0 {
        let n = layers.len() - 1;
        assert forall|j: int| 0 <= j < layers.drop_last().len() implies placed(
            views(#[trigger] layers.drop_last()[j]),
            w,
            h,
            ts,
        ) by {
            assert(layers.drop_last()[j] == layers[j]);
        }
        lemma_line_counts_bound(layers.drop_last(), w, h, ts);
        assert(placed(views(layers[n]), w, h, ts));
        lemma_placed_sizes(views(layers.last()), w, h, ts);
        lemma_line_pass_placed(views(layers.last()), w, h, ts, 0);
        lemma_line_pass_bound(views(layers.last()), w, h, ts);
        assert((n + 1) * (w * h) == n * (w * h) + w * h) by (nonlinear_arith);
    }
}

/// A placed, square, countable tree can merge a level whose doubled side
/// stays within 500 units and within the map.
proof fn lemma_tree_quad_ok(q: QuadTree, ts: int, level: u32)
    requires
        tree_placed(q, ts),
        tree_square(q),
        tiles_countable(q),
        level < 16,
        2 * pow2(level as nat) * ts <= 500,
        pow2(level as nat) <= q.spec_width(),
        q.spec_width() > pow2(level as nat) ==> pow2(level as nat) <= q.spec_height(),
    ensures
        quad_optimize_ok(q, level),
{
    let w = q.spec_width() as int;
    let h = q.spec_height() as int;
    let sp = pow2(level as nat) as int;
    lemma_pow2_below_16(level as nat);
    vstd::arithmetic::power2::lemma_pow2_pos(level as nat);
    lemma_quad_pass_placed(views(q.spec_tiles()), w, h, ts, sp, 0);
    assert forall|j: int| 0 <= j < q.spec_layers().len() implies quad_pass(
        views(#[trigger] q.spec_layers()[j]),
        w,
        h,
        sp,
        0,
    ).2 by {
        assert(placed(views(q.spec_layers()[j]), w, h, ts));
        assert(square(views(q.spec_layers()[j])));
        lemma_quad_pass_placed(views(q.spec_layers()[j]), w, h, ts, sp, 0);
    }
    lemma_quad_pass_bound(views(q.spec_tiles()), w, h, sp);
    assert forall|j: int| 0 <= j < q.spec_layers().len() implies (#[trigger] q.spec_layers()[j]).len() == w * h by {
        assert(placed(views(q.spec_layers()[j]), w, h, ts));
    }
    lemma_quad_counts_bound(q.spec_layers(), w, h, sp);
    assert((q.spec_layers().len() + 1) * (w * h) == q.spec_layers().len() * (w * h) + w * h) by (nonlinear_arith);
}

/// After a level, the tree is still placed, square and countable, and a
/// level that merged anything fit twice within the map.
proof fn lemma_tree_after_level(q0: QuadTree, q1: QuadTree, level: u32, ts: int, count: int)
    requires
        level_result(q0, q1, level, count),
        tree_placed(q0, ts),
        tree_square(q0),
        tiles_countable(q0),
        2 * pow2(level as nat) * ts <= 500,
    ensures
        tree_placed(q1, ts),
        tree_square(q1),
        tiles_countable(q1),
        count > 0 ==> 2 * pow2(level as nat) <= q0.spec_width() && 2 * pow2(level as nat)
            <= q0.spec_height(),
{
    let w = q0.spec_width() as int;
    let h = q0.spec_height() as int;
    let sp = pow2(level as nat) as int;
    vstd::arithmetic::power2::lemma_pow2_pos(level as nat);
    lemma_quad_pass_placed(views(q0.spec_tiles()), w, h, ts, sp, 0);
    assert forall|j: int| 0 <= j < q1.spec_layers().len() implies placed(
        views(#[trigger] q1.spec_layers()[j]),
        w,
        h,
        ts,
    ) && square(views(q1.spec_layers()[j])) by {
        assert(placed(views(q0.spec_layers()[j]), w, h, ts));
        assert(square(views(q0.spec_layers()[j])));
        lemma_quad_pass_placed(views(q0.spec_layers()[j]), w, h, ts, sp, 0);
    }
    if count > 0 {
        assert forall|j: int| 0 <= j < q0.spec_layers().len() implies (#[trigger] q0.spec_layers()[j]).len() == w * h by {
            assert(placed(views(q0.spec_layers()[j]), w, h, ts));
        }
        lemma_quad_counts_bound(q0.spec_layers(), w, h, sp);
        lemma_quad_pass_nonneg(views(q0.spec_tiles()), w, h, sp, 0);
        if quad_pass(views(q0.spec_tiles()), w, h, sp, 0).1 <= 0 {
            let j = choose|j: int|
                0 <= j < q0.spec_layers().len() && quad_pass(
                    views(#[trigger] q0.spec_layers()[j]),
                    w,
                    h,
                    sp,
                    0,
                ).1 > 0;
            assert(placed(views(q0.spec_layers()[j]), w, h, ts));
            assert(square(views(q0.spec_layers()[j])));
            lemma_quad_pass_placed(views(q0.spec_layers()[j]), w, h, ts, sp, 0);
        }
    }
}

/// A level of merging keeps the cover of every layer exact.
proof fn lemma_level_partitions(q0: QuadTree, q1: QuadTree, level: u32, ts: int, count: int)
    requires
        level_result(q0, q1, level, count),
        tree_placed(q0, ts),
        tree_square(q0),
        tree_partitions(q0),
        2 * pow2(level as nat) * ts <= 500,
    ensures
        tree_partitions(q1),
{
    let w = q0.spec_width() as int;
    let h = q0.spec_height() as int;
    let sp = pow2(level as nat) as int;
    vstd::arithmetic::power2::lemma_pow2_pos(level as nat);
    lemma_quad_pass_partitions(views(q0.spec_tiles()), w, h, ts, sp, 0);
    assert forall|j: int| 0 <= j < q1.spec_layers().len() implies partitions(
        views(#[trigger] q1.spec_layers()[j]),
        w,
        h,
    ) by {
        assert(placed(views(q0.spec_layers()[j]), w, h, ts));
        assert(square(views(q0.spec_layers()[j])));
        assert(partitions(views(q0.spec_layers()[j]), w, h));
        lemma_quad_pass_partitions(views(q0.spec_layers()[j]), w, h, ts, sp, 0);
    }
}

/// A line pass keeps the cover of every layer exact.
proof fn lemma_lines_partitions(q0: QuadTree, q1: QuadTree, ts: int, count: int)
    requires
        line_result(q0, q1, ts as u32, count),
        tree_placed(q0, ts),
        tree_partitions(q0),
        0 <= ts <= u32::MAX,
    ensures
        tree_partitions(q1),
{
    let w = q0.spec_width() as int;
    let h = q0.spec_height() as int;
    lemma_line_pass_partitions(views(q0.spec_tiles()), w, h, ts, 0);
    assert forall|j: int| 0 <= j < q1.spec_layers().len() implies partitions(
        views(#[trigger] q1.spec_layers()[j]),
        w,
        h,
    ) by {
        assert(placed(views(q0.spec_layers()[j]), w, h, ts));
        assert(partitions(views(q0.spec_layers()[j]), w, h));
        lemma_line_pass_partitions(views(q0.spec_layers()[j]), w, h, ts, 0);
    }
}

/// A level of merging keeps every layer true to its cells.
proof fn lemma_level_true(q0: QuadTree, q1: QuadTree, level: u32, ts: int, count: int)
    requires
        level_result(q0, q1, level, count),
        tree_placed(q0, ts),
        tree_square(q0),
        tree_partitions(q0),
        tree_true(q0),
        2 * pow2(level as nat) * ts <= 500,
    ensures
        tree_true(q1),
{
    let w = q0.spec_width() as int;
    let h = q0.spec_height() as int;
    let sp = pow2(level as nat) as int;
    vstd::arithmetic::power2::lemma_pow2_pos(level as nat);
    lemma_quad_pass_true(views(q0.spec_tiles()), w, h, ts, sp, 0);
    assert forall|j: int| 0 <= j < q1.spec_layers().len() implies true_to(
        views(#[trigger] q1.spec_layers()[j]),
        w,
        h,
    ) by {
        assert(placed(views(q0.spec_layers()[j]), w, h, ts));
        assert(square(views(q0.spec_layers()[j])));
        assert(partitions(views(q0.spec_layers()[j]), w, h));
        assert(true_to(views(q0.spec_layers()[j]), w, h));
        lemma_quad_pass_true(views(q0.spec_layers()[j]), w, h, ts, sp, 0);
    }
}

/// A line pass keeps every layer true to its cells.
proof fn lemma_lines_true(q0: QuadTree, q1: QuadTree, ts: int, count: int)
    requires
        line_result(q0, q1, ts as u32, count),
        tree_placed(q0, ts),
        tree_true(q0),
        0 <= ts <= u32::MAX,
    ensures
        tree_true(q1),
{
    let w = q0.spec_width() as int;
    let h = q0.spec_height() as int;
    lemma_line_pass_true(views(q0.spec_tiles()), w, h, ts, 0);
    assert forall|j: int| 0 <= j < q1.spec_layers().len() implies true_to(
        views(#[trigger] q1.spec_layers()[j]),
        w,
        h,
    ) by {
        assert(placed(views(q0.spec_layers()[j]), w, h, ts));
        assert(true_to(views(q0.spec_layers()[j]), w, h));
        lemma_line_pass_true(views(q0.spec_layers()[j]), w, h, ts, 0);
    }
}

/// A pass that keeps every tile and the kept heights keeps what each
/// layer has at each cell.
proof fn lemma_kept_layers(q0: QuadTree, q1: QuadTree, hm: Heightmap, cm: Colormap, g: u32, ts: int)
    requires
        keeps_layers(q0, q1),
        q1.spec_sorted_heights() == q0.spec_sorted_heights(),
        q1.spec_width() == q0.spec_width(),
        q1.spec_height() == q0.spec_height(),
        tree_placed(q0, ts),
        hm.spec_width() == q0.spec_width(),
        hm.spec_height() == q0.spec_height(),
        forall|j: int|
            0 <= j <= q0.spec_layers().len() ==> at_cells(
                #[trigger] layer_of(q0, j),
                hm,
                cm,
                layer_rule(q0, hm, cm, g, j),
            ),
    ensures
        forall|j: int|
            0 <= j <= q1.spec_layers().len() ==> at_cells(
                #[trigger] layer_of(q1, j),
                hm,
                cm,
                layer_rule(q1, hm, cm, g, j),
            ),
{
    let w = q0.spec_width() as int;
    let h = q0.spec_height() as int;
    assert forall|j: int| 0 <= j <= q1.spec_layers().len() implies at_cells(
        #[trigger] layer_of(q1, j),
        hm,
        cm,
        layer_rule(q1, hm, cm, g, j),
    ) by {
        assert(at_cells(layer_of(q0, j), hm, cm, layer_rule(q0, hm, cm, g, j)));
        assert(layer_rule(q1, hm, cm, g, j) == layer_rule(q0, hm, cm, g, j));
        if j == 0 {
            assert(placed(views(q0.spec_tiles()), w, h, ts));
            lemma_kept_at_cells(layer_of(q0, 0), layer_of(q1, 0), hm, cm, layer_rule(q0, hm, cm, g, 0));
        } else {
            assert(placed(views(q0.spec_layers()[j - 1]), w, h, ts));
            assert(keeps_tiles(views(q0.spec_layers()[j - 1]), views(q1.spec_layers()[j - 1])));
            lemma_kept_at_cells(layer_of(q0, j), layer_of(q1, j), hm, cm, layer_rule(q0, hm, cm, g, j));
        }
    }
}

/// No layer has fewer than zero unmerged tiles.
proof fn lemma_layers_roots_nonneg(layers: Seq<Seq<Tile>>)
    ensures
        layers_roots(layers) >= 0,
    decreases layers.len(),
{
    if layers.len() > 0 {
        lemma_layers_roots_nonneg(layers.drop_last());
    }
}

/// A placed, countable tree can make a line pass.
proof fn lemma_tree_line_ok(q: QuadTree, ts: int)
    requires
        tree_placed(q, ts),
        tiles_countable(q),
    ensures
        line_optimize_ok(q, ts as u32),
{
    let w = q.spec_width() as int;
    let h = q.spec_height() as int;
    assert(ts as u32 as int == ts);
    lemma_line_pass_placed(views(q.spec_tiles()), w, h, ts, 0);
    assert forall|j: int| 0 <= j < q.spec_layers().len() implies line_pass(
        views(#[trigger] q.spec_layers()[j]),
        w,
        h,
        ts,
        0,
    ).2 by {
        assert(placed(views(q.spec_layers()[j]), w, h, ts));
        lemma_line_pass_placed(views(q.spec_layers()[j]), w, h, ts, 0);
    }
    lemma_placed_sizes(views(q.spec_tiles()), w, h, ts);
    lemma_line_pass_bound(views(q.spec_tiles()), w, h, ts);
    lemma_line_counts_bound(q.spec_layers(), w, h, ts);
    assert((q.spec_layers().len() + 1) * (w * h) == q.spec_layers().len() * (w * h) + w * h) by (nonlinear_arith);
}

/// After a line pass, the tree is still placed and countable.
proof fn lemma_tree_after_lines(q0: QuadTree, q1: QuadTree, ts: int, count: int)
    requires
        line_result(q0, q1, ts as u32, count),
        tree_placed(q0, ts),
        tiles_countable(q0),
    ensures
        tree_placed(q1, ts),
        tiles_countable(q1),
{
    let w = q0.spec_width() as int;
    let h = q0.spec_height() as int;
    assert(ts as u32 as int == ts);
    lemma_line_pass_placed(views(q0.spec_tiles()), w, h, ts, 0);
    assert forall|j: int| 0 <= j < q1.spec_layers().len() implies placed(
        views(#[trigger] q1.spec_layers()[j]),
        w,
        h,
        ts,
    ) by {
        assert(placed(views(q0.spec_layers()[j]), w, h, ts));
        lemma_line_pass_placed(views(q0.spec_layers()[j]), w, h, ts, 0);
    }
}

/// What the quadtree generator does next.
#[derive(Clone, Copy, Debug, PartialEq, Eq, Structural)]
pub enum QuadStep {
    /// Merge the blocks of level `scale`: four tiles of side `2^scale` into one.
    Level(u32),
    /// One pass of line merging.
    Lines,
    /// Nothing is left to merge.
    Done,
}

/// One more quadtree level is worth it: a brick `2^(scale + 1)` tiles wide
/// at `size` units per tile stays under 500 units.
pub open spec fn spec_level_fits(scale: u32, size: u16) -> bool {
    pow2((scale + 1) as nat) * size < 500
}

/// The first step: quadtree levels from level 0 when they are enabled and
/// fit, line passes otherwise.
pub open spec fn first_step(quadtree: bool, size: u16) -> QuadStep {
    if quadtree && spec_level_fits(0, size) {
        QuadStep::Level(0)
    } else {
        QuadStep::Lines
    }
}

/// The step after level `scale` merged `count` tiles: the next level while
/// levels merge and fit, then line passes.
pub open spec fn step_after_level(scale: u32, count: int, size: u16) -> QuadStep {
    if count == 0 || !spec_level_fits((scale + 1) as u32, size) {
        QuadStep::Lines
    } else {
        QuadStep::Level((scale + 1) as u32)
    }
}

/// The step after a line pass merged `count` tiles: line passes until one
/// merges nothing.
pub open spec fn step_after_lines(count: int) -> QuadStep {
    if count == 0 {
        QuadStep::Done
    } else {
        QuadStep::Lines
    }
}

/// Whether one more quadtree level fits, computed as `i32` arithmetic.
pub fn level_fits(scale: u32, size: u16) -> (r: bool)
    requires
        scale + 1 < 31,
        pow2((scale + 1) as nat) * size <= i32::MAX,
    ensures
        r == spec_level_fits(scale, size),
{
    proof {
        vstd::arithmetic::power2::lemma2_to64();
        if scale + 1 < 30 {
            vstd::arithmetic::power2::lemma_pow2_strictly_increases((scale + 1) as nat, 30);
        }
    }
    let p = pow2_u32(scale + 1) as i32;
    p * (size as i32) < 500
}

/// Every layer of `q` is placed at `ts` units per cell.
pub open spec fn tree_placed(q: QuadTree, ts: int) -> bool {
    let w = q.spec_width() as int;
    let h = q.spec_height() as int;
    &&& placed(views(q.spec_tiles()), w, h, ts)
    &&& forall|j: int|
        0 <= j < q.spec_layers().len() ==> placed(views(#[trigger] q.spec_layers()[j]), w, h, ts)
}

/// Every tile of every layer of `q` is square.
pub open spec fn tree_square(q: QuadTree) -> bool {
    &&& square(views(q.spec_tiles()))
    &&& forall|j: int| 0 <= j < q.spec_layers().len() ==> square(views(#[trigger] q.spec_layers()[j]))
}

/// The unmerged tiles of every layer of `q` cover its map exactly: each
/// cell lies in exactly one of them.
pub open spec fn tree_partitions(q: QuadTree) -> bool {
    let w = q.spec_width() as int;
    let h = q.spec_height() as int;
    &&& partitions(views(q.spec_tiles()), w, h)
    &&& forall|j: int|
        0 <= j < q.spec_layers().len() ==> partitions(views(#[trigger] q.spec_layers()[j]), w, h)
}

/// Layer `j` of `q`: the first layer for 0, fill layer `j - 1` above it.
pub open spec fn layer_of(q: QuadTree, j: int) -> Seq<TileView> {
    if j == 0 {
        views(q.spec_tiles())
    } else {
        views(q.spec_layers()[j - 1])
    }
}

/// How layer `j` of `q`, built from `hm` and `cm` with fill layers above
/// `g`, gets its cells: the first layer capped at the lowest kept height and
/// a fill layer per kept height above it, or one plain layer.
pub open spec fn layer_rule(q: QuadTree, hm: Heightmap, cm: Colormap, g: u32, j: int) -> LayerRule {
    let s = scan(hm, cm);
    let f = filter_heights(last_colors(s), g);
    let sorted = q.spec_sorted_heights();
    if g > 0 && !f.is_empty() {
        if j == 0 {
            LayerRule::Capped { cap: sorted[0], color: f[sorted[0]] }
        } else {
            LayerRule::Fill {
                level: sorted[j],
                color: f[sorted[j]],
                lake: zero_colors(s).contains(f[sorted[j]]),
            }
        }
    } else {
        LayerRule::Plain
    }
}

/// The tile at each cell of `v` has the color and height that `rule` gives
/// the cell of `hm` and `cm`.
pub open spec fn at_cells(v: Seq<TileView>, hm: Heightmap, cm: Colormap, rule: LayerRule) -> bool {
    let w = hm.spec_width() as int;
    let h = hm.spec_height() as int;
    forall|x: int, y: int|
        0 <= x < w && 0 <= y < h ==> {
            &&& (#[trigger] v[pos(x, y, h)]).color == rule_color(rule, hm.spec_at(x, y), cm.spec_at(x, y))
            &&& v[pos(x, y, h)].height == rule_height(rule, hm.spec_at(x, y), cm.spec_at(x, y))
        }
}

/// Every unmerged tile of `v` has, at each cell it holds, the color and
/// height that `rule` gives that cell of `hm` and `cm`.
pub open spec fn draws(v: Seq<TileView>, hm: Heightmap, cm: Colormap, rule: LayerRule) -> bool {
    forall|i: int, x: int, y: int|
        0 <= i < v.len() && 0 <= x < hm.spec_width() && 0 <= y < hm.spec_height() && #[trigger] owns(
            v[i],
            x,
            y,
        ) ==> {
            &&& v[i].color == rule_color(rule, hm.spec_at(x, y), cm.spec_at(x, y))
            &&& v[i].height == rule_height(rule, hm.spec_at(x, y), cm.spec_at(x, y))
        }
}

/// The unmerged tiles of every layer of `q` are true to the cells they
/// hold.
pub open spec fn tree_true(q: QuadTree) -> bool {
    let w = q.spec_width() as int;
    let h = q.spec_height() as int;
    &&& true_to(views(q.spec_tiles()), w, h)
    &&& forall|j: int|
        0 <= j < q.spec_layers().len() ==> true_to(views(#[trigger] q.spec_layers()[j]), w, h)
}

/// A fresh layer has at each cell what its rule gives the cell.
proof fn lemma_fresh_at_cells(tiles: Seq<Tile>, hm: Heightmap, cm: Colormap, rule: LayerRule)
    requires
        fresh_layer(tiles, hm, cm, rule),
    ensures
        at_cells(views(tiles), hm, cm, rule),
{
    let w = hm.spec_width() as int;
    let h = hm.spec_height() as int;
    assert forall|x: int, y: int| 0 <= x < w && 0 <= y < h implies {
        &&& (#[trigger] views(tiles)[pos(x, y, h)]).color == rule_color(
            rule,
            hm.spec_at(x, y),
            cm.spec_at(x, y),
        )
        &&& views(tiles)[pos(x, y, h)].height == rule_height(rule, hm.spec_at(x, y), cm.spec_at(x, y))
    } by {
        crate::opt::placement::lemma_pos_in_layer(x, y, w, h);
        assert(pos(x, y, h) == x * h + y);
        assert(fresh_tile(tiles[x * h + y], hm, cm, rule, x, y));
    }
}

/// Keeping every tile keeps what the tiles have at each cell.
proof fn lemma_kept_at_cells(
    v: Seq<TileView>,
    u: Seq<TileView>,
    hm: Heightmap,
    cm: Colormap,
    rule: LayerRule,
)
    requires
        keeps_tiles(v, u),
        at_cells(v, hm, cm, rule),
        v.len() == hm.spec_width() as int * hm.spec_height() as int,
    ensures
        at_cells(u, hm, cm, rule),
{
    let w = hm.spec_width() as int;
    let h = hm.spec_height() as int;
    assert forall|x: int, y: int| 0 <= x < w && 0 <= y < h implies {
        &&& (#[trigger] u[pos(x, y, h)]).color == rule_color(rule, hm.spec_at(x, y), cm.spec_at(x, y))
        &&& u[pos(x, y, h)].height == rule_height(rule, hm.spec_at(x, y), cm.spec_at(x, y))
    } by {
        crate::opt::placement::lemma_pos_in_layer(x, y, w, h);
        assert(v[pos(x, y, h)].color == rule_color(rule, hm.spec_at(x, y), cm.spec_at(x, y)));
    }
}

/// Tiles true to their cells, over a layer that has at each cell what its
/// rule gives it, draw the map by that rule.
proof fn lemma_true_draws(v: Seq<TileView>, hm: Heightmap, cm: Colormap, rule: LayerRule)
    requires
        true_to(v, hm.spec_width() as int, hm.spec_height() as int),
        at_cells(v, hm, cm, rule),
    ensures
        draws(v, hm, cm, rule),
{
    let h = hm.spec_height() as int;
    assert forall|i: int, x: int, y: int|
        0 <= i < v.len() && 0 <= x < hm.spec_width() && 0 <= y < hm.spec_height() && #[trigger] owns(
            v[i],
            x,
            y,
        ) implies {
        &&& v[i].color == rule_color(rule, hm.spec_at(x, y), cm.spec_at(x, y))
        &&& v[i].height == rule_height(rule, hm.spec_at(x, y), cm.spec_at(x, y))
    } by {
        assert(v[i].color == v[pos(x, y, h)].color);
    }
}

/// All tiles of `q` can be counted in a `usize`.
pub open spec fn tiles_countable(q: QuadTree) -> bool {
    (q.spec_layers().len() + 1) * (q.spec_width() as int * q.spec_height() as int) <= usize::MAX
}

/// The layers built from `hm` and `cm` with fill layers above `g` hold no
/// more tiles than a `usize` counts (so many tiles could not be held in
/// memory in the first place).
pub open spec fn maps_countable(hm: Heightmap, cm: Colormap, g: u32) -> bool {
    let f = filter_heights(last_colors(scan(hm, cm)), g);
    let layers = if g > 0 && !f.is_empty() {
        f.dom().len() as int
    } else {
        1
    };
    layers * (hm.spec_width() as int * hm.spec_height() as int) <= usize::MAX
}

/// The steps of quadtree generation: merging levels while they pay off, then
/// line passes until nothing merges, keeping every tile within the map.
pub struct QuadGen {
    quad: QuadTree,
    tile_scale: u16,
    step: QuadStep,
    width: u32,
    height: u32,
    /// The heightmap, colormap and fill threshold the tree was built from.
    source: Ghost<(Heightmap, Colormap, u32)>,
}

impl QuadGen {
    /// The tree being merged.
    pub closed spec fn spec_quad(&self) -> QuadTree {
        self.quad
    }

    /// The next step.
    pub closed spec fn spec_step(&self) -> QuadStep {
        self.step
    }

    /// Units per tile.
    pub closed spec fn spec_tile_scale(&self) -> u16 {
        self.tile_scale
    }

    /// The heightmap, colormap and fill threshold the tree was built from.
    pub closed spec fn spec_source(&self) -> (Heightmap, Colormap, u32) {
        self.source@
    }

    /// A bound on the steps left: levels are at most 16, and every line pass
    /// but the last merges a tile away.
    pub open spec fn steps_left(&self) -> int {
        match self.spec_step() {
            QuadStep::Level(s) => 18 - s + tree_roots(self.spec_quad()),
            QuadStep::Lines => 1 + tree_roots(self.spec_quad()),
            QuadStep::Done => 0,
        }
    }

    /// The tree is well formed and placed, its tiles countable, its
    /// unmerged tiles cover the map exactly and are true to the cells they
    /// hold, which still have what their layer's rule gives them; while
    /// levels are merged its tiles are square and the next level lies within
    /// the map.
    pub closed spec fn wf(&self) -> bool {
        let q = self.quad;
        let w = q.spec_width() as int;
        let h = q.spec_height() as int;
        let (hm, cm, g) = self.source@;
        &&& q.wf()
        &&& self.width == q.spec_width()
        &&& self.height == q.spec_height()
        &&& self.width <= i32::MAX
        &&& self.height <= i32::MAX
        &&& tree_placed(q, self.tile_scale as int)
        &&& tree_partitions(q)
        &&& tree_true(q)
        &&& hm.spec_width() == q.spec_width()
        &&& hm.spec_height() == q.spec_height()
        &&& forall|j: int|
            0 <= j <= q.spec_layers().len() ==> at_cells(
                #[trigger] layer_of(q, j),
                hm,
                cm,
                layer_rule(q, hm, cm, g, j),
            )
        &&& tiles_countable(q)
        &&& match self.step {
            QuadStep::Level(s) => {
                &&& s < 16
                &&& tree_square(q)
                &&& spec_level_fits(s, self.tile_scale)
                &&& pow2(s as nat) <= w
                &&& (w > pow2(s as nat) ==> pow2(s as nat) <= h)
            },
            _ => true,
        }
    }

    /// Builds the quadtree of `heightmap` and `colormap` and decides the
    /// first step.
    pub fn start(heightmap: &Heightmap, colormap: &Colormap, options: &GenOptions) -> (r: Result<
        QuadGen,
        String,
    >)
        requires
            colormap.spec_width() == heightmap.spec_width() && colormap.spec_height()
                == heightmap.spec_height() ==> {
                &&& grid_fits(heightmap.spec_width(), heightmap.spec_height())
                &&& maps_countable(*heightmap, *colormap, options.gen_full_layers_above_height)
                &&& (first_step(options.quadtree, options.size) == QuadStep::Level(0) ==> (
                heightmap.spec_width() >= 1 && (heightmap.spec_width() > 1
                    ==> heightmap.spec_height() >= 1)))
            },
        ensures
            match r {
                Err(e) => {
                    &&& (colormap.spec_width() != heightmap.spec_width() || colormap.spec_height()
                        != heightmap.spec_height())
                    &&& e@ == "Heightmap and colormap must have same dimensions"@
                },
                Ok(g) => {
                    &&& g.wf()
                    &&& built_from(
                        g.spec_quad(),
                        *heightmap,
                        *colormap,
                        options.gen_full_layers_above_height,
                    )
                    &&& g.spec_step() == first_step(options.quadtree, options.size)
                    &&& g.spec_tile_scale() == options.size
                    &&& g.spec_source() == (*heightmap, *colormap, options.gen_full_layers_above_height)
                },
            },
    {
        let quad = match QuadTree::new(heightmap, colormap, options.gen_full_layers_above_height) {
            Ok(q) => q,
            Err(e) => {
                return Err(e);
            },
        };
        proof {
            vstd::arithmetic::power2::lemma2_to64();
            assert(pow2(((0u32 + 1) as u32) as nat) == 2);
            assert(pow2(((0u32 + 1) as u32) as nat) * options.size <= i32::MAX);
        }
        let step = if options.quadtree && level_fits(0, options.size) {
            QuadStep::Level(0)
        } else {
            QuadStep::Lines
        };
        let (width, height) = heightmap.size();
        let g = QuadGen {
            quad,
            tile_scale: options.size,
            step,
            width,
            height,
            source: Ghost((*heightmap, *colormap, options.gen_full_layers_above_height)),
        };
        proof {
            vstd::arithmetic::power2::lemma2_to64();
            let q = g.quad;
            let ts = options.size as int;
            let gl = options.gen_full_layers_above_height;
            let s = scan(*heightmap, *colormap);
            let f = filter_heights(last_colors(s), gl);
            if gl > 0 && !f.is_empty() {
                let sorted = q.spec_sorted_heights();
                lemma_strictly_increasing_len(sorted);
                lemma_fresh_placed(
                    q.spec_tiles(),
                    *heightmap,
                    *colormap,
                    LayerRule::Capped { cap: sorted[0], color: f[sorted[0]] },
                    ts,
                );
                lemma_fresh_partitions(
                    q.spec_tiles(),
                    *heightmap,
                    *colormap,
                    LayerRule::Capped { cap: sorted[0], color: f[sorted[0]] },
                );
                lemma_fresh_true(
                    q.spec_tiles(),
                    *heightmap,
                    *colormap,
                    LayerRule::Capped { cap: sorted[0], color: f[sorted[0]] },
                );
                lemma_fresh_at_cells(
                    q.spec_tiles(),
                    *heightmap,
                    *colormap,
                    LayerRule::Capped { cap: sorted[0], color: f[sorted[0]] },
                );
                assert forall|j: int| 0 <= j < q.spec_layers().len() implies placed(
                    views(#[trigger] q.spec_layers()[j]),
                    q.spec_width() as int,
                    q.spec_height() as int,
                    ts,
                ) && square(views(q.spec_layers()[j])) by {
                    lemma_fresh_placed(
                        q.spec_layers()[j],
                        *heightmap,
                        *colormap,
                        LayerRule::Fill {
                            level: sorted[j + 1],
                            color: f[sorted[j + 1]],
                            lake: crate::opt::model::zero_colors(s).contains(f[sorted[j + 1]]),
                        },
                        ts,
                    );
                }
                assert forall|j: int| 0 <= j < q.spec_layers().len() implies partitions(
                    views(#[trigger] q.spec_layers()[j]),
                    q.spec_width() as int,
                    q.spec_height() as int,
                ) && true_to(views(q.spec_layers()[j]), q.spec_width() as int, q.spec_height() as int)
                    && at_cells(
                    layer_of(q, j + 1),
                    *heightmap,
                    *colormap,
                    layer_rule(q, *heightmap, *colormap, gl, j + 1),
                ) by {
                    lemma_fresh_true(
                        q.spec_layers()[j],
                        *heightmap,
                        *colormap,
                        LayerRule::Fill {
                            level: sorted[j + 1],
                            color: f[sorted[j + 1]],
                            lake: crate::opt::model::zero_colors(s).contains(f[sorted[j + 1]]),
                        },
                    );
                    lemma_fresh_at_cells(
                        q.spec_layers()[j],
                        *heightmap,
                        *colormap,
                        LayerRule::Fill {
                            level: sorted[j + 1],
                            color: f[sorted[j + 1]],
                            lake: crate::opt::model::zero_colors(s).contains(f[sorted[j + 1]]),
                        },
                    );
                    lemma_fresh_partitions(
                        q.spec_layers()[j],
                        *heightmap,
                        *colormap,
                        LayerRule::Fill {
                            level: sorted[j + 1],
                            color: f[sorted[j + 1]],
                            lake: crate::opt::model::zero_colors(s).contains(f[sorted[j + 1]]),
                        },
                    );
                }
                assert(sorted.to_set().len() == f.dom().len());
                assert forall|j: int| 0 <= j <= q.spec_layers().len() implies at_cells(
                    #[trigger] layer_of(q, j),
                    *heightmap,
                    *colormap,
                    layer_rule(q, *heightmap, *colormap, gl, j),
                ) by {
                    if j > 0 {
                        assert(views(q.spec_layers()[j - 1]) == layer_of(q, j));
                    }
                }
            } else {
                lemma_fresh_placed(q.spec_tiles(), *heightmap, *colormap, LayerRule::Plain, ts);
                lemma_fresh_partitions(q.spec_tiles(), *heightmap, *colormap, LayerRule::Plain);
                lemma_fresh_true(q.spec_tiles(), *heightmap, *colormap, LayerRule::Plain);
                lemma_fresh_at_cells(q.spec_tiles(), *heightmap, *colormap, LayerRule::Plain);
                assert(layer_of(q, 0) == views(q.spec_tiles()));
            }
        }
        Ok(g)
    }

    /// The next step.
    pub fn step(&self) -> (r: QuadStep)
        ensures
            r == self.spec_step(),
    {
        self.step
    }

    /// Takes the next step: merges one level or makes one line pass, and
    /// decides the step after it. Returns the number of tiles merged away.
    pub fn advance(&mut self) -> (count: usize)
        requires
            old(self).wf(),
            old(self).spec_step() != QuadStep::Done,
        ensures
            final(self).wf(),
            final(self).spec_tile_scale() == old(self).spec_tile_scale(),
            match old(self).spec_step() {
                QuadStep::Level(s) => {
                    &&& level_result(old(self).spec_quad(), final(self).spec_quad(), s, count as int)
                    &&& final(self).spec_step() == step_after_level(
                        s,
                        count as int,
                        old(self).spec_tile_scale(),
                    )
                },
                _ => {
                    &&& line_result(
                        old(self).spec_quad(),
                        final(self).spec_quad(),
                        old(self).spec_tile_scale() as u32,
                        count as int,
                    )
                    &&& final(self).spec_step() == step_after_lines(count as int)
                },
            },
            tree_roots(final(self).spec_quad()) + count == tree_roots(old(self).spec_quad()),
            keeps_layers(old(self).spec_quad(), final(self).spec_quad()),
            final(self).spec_source() == old(self).spec_source(),
            0 <= final(self).steps_left() < old(self).steps_left(),
    {
        let ghost q0 = self.quad;
        let ghost src = self.source@;
        proof {
            lemma_layers_roots_nonneg(q0.spec_layers());
        }
        let ghost ts = self.tile_scale as int;
        let ghost w = q0.spec_width() as int;
        let ghost h = q0.spec_height() as int;
        match self.step {
            QuadStep::Level(scale) => {
                proof {
                    vstd::arithmetic::power2::lemma_pow2_unfold((scale + 1) as nat);
                    vstd::arithmetic::power2::lemma_pow2_pos(scale as nat);
                    lemma_pow2_below_16(scale as nat);
                    let sp = pow2(scale as nat) as int;
                    assert(2 * sp * ts <= 500) by (nonlinear_arith)
                        requires
                            pow2((scale + 1) as nat) == 2 * sp,
                            pow2((scale + 1) as nat) * ts < 500,
                            0 <= ts,
                    ;
                    lemma_tree_quad_ok(q0, ts, scale);
                }
                let count = self.quad.quad_optimize_level(scale);
                proof {
                    lemma_tree_after_level(q0, self.quad, scale, ts, count as int);
                    lemma_level_partitions(q0, self.quad, scale, ts, count as int);
                    lemma_level_true(q0, self.quad, scale, ts, count as int);
                    lemma_kept_layers(q0, self.quad, src.0, src.1, src.2, ts);
                    lemma_layers_roots_nonneg(self.quad.spec_layers());
                }
                let next = if count == 0 {
                    QuadStep::Lines
                } else {
                    proof {
                        let p1 = pow2((scale + 1) as nat) as int;
                        assert(placed(views(q0.spec_tiles()), w, h, ts));
                        assert(p1 * p1 <= w * h) by (nonlinear_arith)
                            requires
                                p1 <= w,
                                p1 <= h,
                                0 <= p1,
                        ;
                        lemma_pow2_small((scale + 1) as nat);
                        vstd::arithmetic::power2::lemma_pow2_unfold((scale + 2) as nat);
                        assert(pow2((scale + 2) as nat) * ts <= 1000) by (nonlinear_arith)
                            requires
                                pow2((scale + 2) as nat) == 2 * pow2((scale + 1) as nat),
                                pow2((scale + 1) as nat) * ts < 500,
                                0 <= ts,
                        ;
                    }
                    if level_fits(scale + 1, self.tile_scale) {
                        QuadStep::Level(scale + 1)
                    } else {
                        QuadStep::Lines
                    }
                };
                self.step = next;
                count
            },
            _ => {
                proof {
                    lemma_tree_line_ok(q0, ts);
                }
                let count = self.quad.line_optimize(self.tile_scale as u32);
                proof {
                    lemma_tree_after_lines(q0, self.quad, ts, count as int);
                    lemma_lines_partitions(q0, self.quad, ts, count as int);
                    lemma_lines_true(q0, self.quad, ts, count as int);
                    lemma_kept_layers(q0, self.quad, src.0, src.1, src.2, ts);
                    lemma_layers_roots_nonneg(self.quad.spec_layers());
                }
                self.step = if count == 0 {
                    QuadStep::Done
                } else {
                    QuadStep::Lines
                };
                count
            },
        }
    }

    /// Converts the merged tree into bricks.
    pub fn into_bricks(self, options: GenOptions) -> (r: Vec<Brick>)
        requires
            self.wf(),
            bricks_ok(self.spec_quad(), options, self.spec_quad().spec_width(), self.spec_quad().spec_height()),
        ensures
            r@ == stacked_bricks(
                self.spec_quad(),
                self.spec_quad().spec_layers().len() as int,
                options,
                self.spec_quad().spec_width(),
                self.spec_quad().spec_height(),
            ),
    {
        self.quad.into_bricks(options, self.width, self.height)
    }
}

/// The tiles of a layer placed at one unit or more per cell fit in `u16`
/// on both sides.
proof fn lemma_placed_fits_u16(tiles: Seq<Tile>, w: int, h: int, ts: int)
    requires
        placed(views(tiles), w, h, ts),
        ts >= 1,
    ensures
        forall|i: int|
            0 <= i < tiles.len() ==> (#[trigger] tiles[i]).size.0 <= u16::MAX && tiles[i].size.1
                <= u16::MAX,
{
    assert forall|i: int| 0 <= i < tiles.len() implies (#[trigger] tiles[i]).size.0 <= u16::MAX
        && tiles[i].size.1 <= u16::MAX by {
        lemma_cell_of(i, w, h);
        let x = i / h;
        let y = i % h;
        assert(fits_cell(views(tiles)[pos(x, y, h)], x, y, w, h, ts));
        assert(views(tiles)[i] == tiles[i]@);
        let sx = tiles[i].size.0 as int;
        let sy = tiles[i].size.1 as int;
        assert(sx <= 500) by (nonlinear_arith)
            requires
                sx == 1 || sx * ts <= 500,
                ts >= 1,
        ;
        assert(sy <= 500) by (nonlinear_arith)
            requires
                sy == 1 || sy * ts <= 500,
                ts >= 1,
        ;
    }
}

/// The bricks of the first layer and the first `n` fill layers lie on the
/// tile grid.
proof fn lemma_stacked_on_grid(q: QuadTree, n: int, o: GenOptions, width: u32, height: u32)
    requires
        0 <= n <= q.spec_layers().len(),
        o.size > 0,
        bricks_ok(q, o, width, height),
        tree_placed(q, o.size as int),
    ensures
        forall|k: int|
            0 <= k < stacked_bricks(q, n, o, width, height).len() ==> on_grid(
                #[trigger] stacked_bricks(q, n, o, width, height)[k],
                o.size,
            ),
    decreases n,
{
    let w = q.spec_width() as int;
    let h = q.spec_height() as int;
    let ts = o.size as int;
    if n <= 0 {
        lemma_placed_fits_u16(q.spec_tiles(), w, h, ts);
        lemma_layer_on_grid(q.spec_tiles(), o, 0, width, height);
    } else {
        lemma_stacked_on_grid(q, n - 1, o, width, height);
        let layer = q.spec_layers()[n - 1];
        let adj = layer_adjustment(
            q.spec_sorted_heights(),
            q.spec_filtered(),
            q.spec_zero_colors(),
            n - 1,
        );
        assert(placed(views(layer), w, h, ts));
        lemma_placed_fits_u16(layer, w, h, ts);
        lemma_layer_on_grid(layer, o, adj, width, height);
        let front = stacked_bricks(q, n - 1, o, width, height);
        let back = crate::opt::layout::tiles_bricks(layer, o, adj, width, height);
        let all = stacked_bricks(q, n, o, width, height);
        assert(all == front + back);
        assert forall|k: int| 0 <= k < all.len() implies on_grid(#[trigger] all[k], o.size) by {
            if k < front.len() {
                assert(all[k] == front[k]);
            } else {
                assert(all[k] == back[k - front.len()]);
            }
        }
    }
}

/// Every brick that the quadtree generator lays out has its low edges on the
/// tile grid: a whole number of tiles (`2 * size` units) from the origin,
/// whatever the map's dimensions.
pub proof fn lemma_gen_bricks_on_grid(g: QuadGen, o: GenOptions)
    requires
        g.wf(),
        o.size == g.spec_tile_scale(),
        o.size > 0,
        bricks_ok(g.spec_quad(), o, g.spec_quad().spec_width(), g.spec_quad().spec_height()),
    ensures
        forall|k: int|
            0 <= k < stacked_bricks(
                g.spec_quad(),
                g.spec_quad().spec_layers().len() as int,
                o,
                g.spec_quad().spec_width(),
                g.spec_quad().spec_height(),
            ).len() ==> on_grid(
                #[trigger] stacked_bricks(
                    g.spec_quad(),
                    g.spec_quad().spec_layers().len() as int,
                    o,
                    g.spec_quad().spec_width(),
                    g.spec_quad().spec_height(),
                )[k],
                o.size,
            ),
{
    let q = g.spec_quad();
    lemma_stacked_on_grid(q, q.spec_layers().len() as int, o, q.spec_width(), q.spec_height());
}

/// The quadtree generator never changes what the map looks like: at every
/// step, each cell of the map lies in exactly one unmerged tile of each
/// layer, so the brick columns the tiles become neither leave gaps nor
/// overlap, and that tile has the color and height that the layer's rule
/// gives the cell of the heightmap and colormap the generator started from.
pub proof fn lemma_gen_draws_map(g: QuadGen)
    requires
        g.wf(),
    ensures
        forall|j: int|
            0 <= j <= g.spec_quad().spec_layers().len() ==> {
                &&& partitions(
                    #[trigger] layer_of(g.spec_quad(), j),
                    g.spec_quad().spec_width() as int,
                    g.spec_quad().spec_height() as int,
                )
                &&& draws(
                    layer_of(g.spec_quad(), j),
                    g.spec_source().0,
                    g.spec_source().1,
                    layer_rule(
                        g.spec_quad(),
                        g.spec_source().0,
                        g.spec_source().1,
                        g.spec_source().2,
                        j,
                    ),
                )
            },
{
    let q = g.spec_quad();
    let (hm, cm, gl) = g.spec_source();
    assert forall|j: int| 0 <= j <= q.spec_layers().len() implies {
        &&& partitions(#[trigger] layer_of(q, j), q.spec_width() as int, q.spec_height() as int)
        &&& draws(layer_of(q, j), hm, cm, layer_rule(q, hm, cm, gl, j))
    } by {
        if j > 0 {
            assert(partitions(views(q.spec_layers()[j - 1]), q.spec_width() as int, q.spec_height() as int));
            assert(true_to(views(q.spec_layers()[j - 1]), q.spec_width() as int, q.spec_height() as int));
        }
        lemma_true_draws(layer_of(q, j), hm, cm, layer_rule(q, hm, cm, gl, j));
    }
}

/// The tiles of layer `j` of `q`: the first layer for 0, fill layer `j - 1`
/// above it.
pub open spec fn layer_tiles(q: QuadTree, j: int) -> Seq<Tile> {
    if j == 0 {
        q.spec_tiles()
    } else {
        q.spec_layers()[j - 1]
    }
}

/// The height adjustment that layer `j` of `q` is laid out with.
pub open spec fn layer_adj(q: QuadTree, j: int) -> u32 {
    if j == 0 {
        0
    } else {
        layer_adjustment(q.spec_sorted_heights(), q.spec_filtered(), q.spec_zero_colors(), j - 1)
    }
}

/// The bricks of every layer that the quadtree generator lays out (those
/// that `stacked_bricks` puts one layer after the other) stand over the map
/// exactly: every cell lies under a brick of the layer, but for cells whose
/// tile is left out as transparent, and bricks over a common cell stand in
/// one column, over the same footprint.
pub proof fn lemma_gen_bricks_cover(g: QuadGen, o: GenOptions)
    requires
        g.wf(),
        o.size == g.spec_tile_scale(),
        o.size > 0,
        bricks_ok(g.spec_quad(), o, g.spec_quad().spec_width(), g.spec_quad().spec_height()),
    ensures
        forall|j: int|
            0 <= j <= g.spec_quad().spec_layers().len() ==> stands_over(
                #[trigger] layer_tiles(g.spec_quad(), j),
                o,
                layer_adj(g.spec_quad(), j),
                g.spec_quad().spec_width(),
                g.spec_quad().spec_height(),
            ),
{
    let q = g.spec_quad();
    let w = q.spec_width();
    let h = q.spec_height();
    let ts = o.size as int;
    assert forall|j: int| 0 <= j <= q.spec_layers().len() implies stands_over(
        #[trigger] layer_tiles(q, j),
        o,
        layer_adj(q, j),
        w,
        h,
    ) by {
        let t = layer_tiles(q, j);
        if j == 0 {
            assert(placed(views(t), w as int, h as int, ts));
            assert(partitions(views(t), w as int, h as int));
        } else {
            assert(placed(views(q.spec_layers()[j - 1]), w as int, h as int, ts));
            assert(partitions(views(q.spec_layers()[j - 1]), w as int, h as int));
            assert(crate::opt::layout::tiles_ok(q.spec_layers()[j - 1], o, layer_adj(q, j), w, h));
        }
        lemma_placed_fits_u16(t, w as int, h as int, ts);
        lemma_layer_bricks_cover(t, o, layer_adj(q, j), w, h, ts);
    }
}

} // verus!
