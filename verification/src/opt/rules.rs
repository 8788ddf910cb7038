//! What a quadtree built from a heightmap and a colormap holds, said over the
//! cells of the two maps: which heights get a layer, what each layer has at
//! each cell, and how far each fill layer reaches down.
use vstd::prelude::*;

use crate::brick::Brick;
use crate::map::{Colormap, Heightmap};
use crate::opt::layout::tiles_bricks;
use crate::opt::model::{filter_heights, has_at_or_below, highest_at_or_below, last_colors, scan, zero_colors};
use crate::opt::quad::{built_from, stacked_bricks, QuadTree};
use crate::util::GenOptions;

use vstd::arithmetic::div_mod::lemma_fundamental_div_mod_converse;

verus! {

/// Some cell of the map has height `v`.
pub open spec fn occurs(hm: Heightmap, v: u32) -> bool {
    exists|x: int, y: int|
        0 <= x < hm.spec_width() && 0 <= y < hm.spec_height() && #[trigger] hm.spec_at(x, y) == v
}

/// Some cell at height 0 has color `c`: `c` is a water color.
pub open spec fn water(hm: Heightmap, cm: Colormap, c: [u8; 4]) -> bool {
    exists|x: int, y: int|
        0 <= x < hm.spec_width() && 0 <= y < hm.spec_height() && hm.spec_at(x, y) == 0
            && #[trigger] cm.spec_at(x, y) == c
}

/// The cell `(x, y)` is at position `x * h + y` of the scan.
proof fn lemma_scan_at(hm: Heightmap, cm: Colormap, x: int, y: int)
    requires
        0 <= x < hm.spec_width(),
        0 <= y < hm.spec_height(),
    ensures
        0 <= x * hm.spec_height() + y < scan(hm, cm).len(),
        scan(hm, cm)[x * hm.spec_height() + y] == (hm.spec_at(x, y), cm.spec_at(x, y)),
{
    let h = hm.spec_height() as int;
    let w = hm.spec_width() as int;
    let k = x * h + y;
    assert(0 <= k < w * h) by (nonlinear_arith)
        requires
            k == x * h + y,
            0 <= x < w,
            0 <= y < h,
    ;
    lemma_fundamental_div_mod_converse(k, h, x, y);
}

/// Position `k` of the scan is a cell of the map.
proof fn lemma_scan_cell(hm: Heightmap, cm: Colormap, k: int)
    requires
        0 <= k < scan(hm, cm).len(),
    ensures
        0 <= k / (hm.spec_height() as int) < hm.spec_width(),
        0 <= k % (hm.spec_height() as int) < hm.spec_height(),
        scan(hm, cm)[k] == (
            hm.spec_at(k / (hm.spec_height() as int), k % (hm.spec_height() as int)),
            cm.spec_at(k / (hm.spec_height() as int), k % (hm.spec_height() as int)),
        ),
{
    crate::opt::placement::lemma_cell_of(k, hm.spec_width() as int, hm.spec_height() as int);
}

/// The heights of `last_colors` are those of the scan.
proof fn lemma_last_colors_dom(s: Seq<(u32, [u8; 4])>, v: u32)
    ensures
        last_colors(s).dom().contains(v) <==> exists|k: int| 0 <= k < s.len() && (#[trigger] s[k]).0 == v,
    decreases s.len(),
{
    if s.len() > 0 {
        lemma_last_colors_dom(s.drop_last(), v);
        if last_colors(s).dom().contains(v) && v != s.last().0 {
            let k = choose|k: int| 0 <= k < s.drop_last().len() && (#[trigger] s.drop_last()[k]).0 == v;
            assert(s[k] == s.drop_last()[k]);
        }
        if exists|k: int| 0 <= k < s.len() && (#[trigger] s[k]).0 == v {
            let k = choose|k: int| 0 <= k < s.len() && (#[trigger] s[k]).0 == v;
            if k < s.len() - 1 {
                assert(s.drop_last()[k] == s[k]);
            }
        }
    }
}

/// A height is among those of the scan exactly when some cell has it.
proof fn lemma_occurs(hm: Heightmap, cm: Colormap, v: u32)
    ensures
        last_colors(scan(hm, cm)).dom().contains(v) <==> occurs(hm, v),
{
    let s = scan(hm, cm);
    lemma_last_colors_dom(s, v);
    if last_colors(s).dom().contains(v) {
        let k = choose|k: int| 0 <= k < s.len() && (#[trigger] s[k]).0 == v;
        lemma_scan_cell(hm, cm, k);
        let h = hm.spec_height() as int;
        assert(hm.spec_at(k / h, k % h) == v);
    }
    if occurs(hm, v) {
        let (x, y) = choose|x: int, y: int|
            0 <= x < hm.spec_width() && 0 <= y < hm.spec_height() && #[trigger] hm.spec_at(x, y) == v;
        lemma_scan_at(hm, cm, x, y);
        assert(s[x * hm.spec_height() + y].0 == v);
    }
}

/// A color is among those at height 0 exactly when it is a water color.
proof fn lemma_water(hm: Heightmap, cm: Colormap, c: [u8; 4])
    ensures
        zero_colors(scan(hm, cm)).contains(c) <==> water(hm, cm, c),
{
    let s = scan(hm, cm);
    if zero_colors(s).contains(c) {
        let k = choose|k: int| 0 <= k < s.len() && #[trigger] s[k] == (0u32, c);
        lemma_scan_cell(hm, cm, k);
        let h = hm.spec_height() as int;
        assert(cm.spec_at(k / h, k % h) == c);
    }
    if water(hm, cm, c) {
        let (x, y) = choose|x: int, y: int|
            0 <= x < hm.spec_width() && 0 <= y < hm.spec_height() && hm.spec_at(x, y) == 0
                && #[trigger] cm.spec_at(x, y) == c;
        lemma_scan_at(hm, cm, x, y);
        assert(s[x * hm.spec_height() + y] == (0u32, c));
    }
}

/// Some height of the scan at or below `g` is the highest of them.
proof fn lemma_highest_exists(s: Seq<(u32, [u8; 4])>, g: u32)
    requires
        exists|k: int| 0 <= k < s.len() && (#[trigger] s[k]).0 <= g,
    ensures
        exists|k0: int|
            0 <= k0 < s.len() && s[k0].0 <= g && forall|k: int|
                0 <= k < s.len() && (#[trigger] s[k]).0 <= g ==> s[k].0 <= s[k0].0,
    decreases s.len(),
{
    let last = s.len() - 1;
    let init = s.drop_last();
    if exists|k: int| 0 <= k < init.len() && (#[trigger] init[k]).0 <= g {
        lemma_highest_exists(init, g);
        let k0 = choose|k0: int|
            0 <= k0 < init.len() && init[k0].0 <= g && forall|k: int|
                0 <= k < init.len() && (#[trigger] init[k]).0 <= g ==> init[k].0 <= init[k0].0;
        if s[last].0 <= g && s[last].0 > s[k0].0 {
            assert forall|k: int| 0 <= k < s.len() && (#[trigger] s[k]).0 <= g implies s[k].0 <= s[last].0 by {
                if k < last {
                    assert(init[k] == s[k]);
                }
            }
        } else {
            assert(s[k0] == init[k0]);
            assert forall|k: int| 0 <= k < s.len() && (#[trigger] s[k]).0 <= g implies s[k].0 <= s[k0].0 by {
                if k < last {
                    assert(init[k] == s[k]);
                }
            }
        }
    } else {
        assert forall|k: int| 0 <= k < s.len() && (#[trigger] s[k]).0 <= g implies s[k].0 <= s[last].0 by {
            if k < last {
                assert(init[k] == s[k]);
            }
        }
        let k = choose|k: int| 0 <= k < s.len() && (#[trigger] s[k]).0 <= g;
        if k < last {
            assert(init[k] == s[k]);
        }
    }
}

/// Of the heights of a scan at or below `g`, when there are any, the one
/// chosen is the highest.
proof fn lemma_highest_is_max(s: Seq<(u32, [u8; 4])>, g: u32)
    requires
        has_at_or_below(last_colors(s), g),
    ensures
        last_colors(s).dom().contains(highest_at_or_below(last_colors(s), g)),
        highest_at_or_below(last_colors(s), g) <= g,
        forall|k: u32|
            #[trigger] last_colors(s).dom().contains(k) && k <= g ==> k <= highest_at_or_below(
                last_colors(s),
                g,
            ),
{
    let m = last_colors(s);
    let v0 = choose|v: u32| m.dom().contains(v) && v <= g;
    lemma_last_colors_dom(s, v0);
    lemma_highest_exists(s, g);
    let k0 = choose|k0: int|
        0 <= k0 < s.len() && s[k0].0 <= g && forall|k: int|
            0 <= k < s.len() && (#[trigger] s[k]).0 <= g ==> s[k].0 <= s[k0].0;
    let b0 = s[k0].0;
    lemma_last_colors_dom(s, b0);
    assert forall|v: u32| #[trigger] m.dom().contains(v) && v <= g implies v <= b0 by {
        lemma_last_colors_dom(s, v);
        let k = choose|k: int| 0 <= k < s.len() && (#[trigger] s[k]).0 == v;
    }
    lemma_choose_highest(m, g, b0);
}

/// A height at or below `g` that no other height at or below `g` exceeds is
/// a highest one, so the one chosen is highest too.
proof fn lemma_choose_highest(m: vstd::map::Map<u32, [u8; 4]>, g: u32, b0: u32)
    requires
        m.dom().contains(b0),
        b0 <= g,
        forall|k: u32| #[trigger] m.dom().contains(k) && k <= g ==> k <= b0,
    ensures
        m.dom().contains(highest_at_or_below(m, g)),
        highest_at_or_below(m, g) <= g,
        forall|k: u32| #[trigger] m.dom().contains(k) && k <= g ==> k <= highest_at_or_below(m, g),
{
}

/// Each height of `last_colors` has the color of the last position of the
/// scan with that height.
proof fn lemma_last_colors_value(s: Seq<(u32, [u8; 4])>, v: u32)
    requires
        last_colors(s).dom().contains(v),
    ensures
        exists|k: int|
            0 <= k < s.len() && (#[trigger] s[k]).0 == v && last_colors(s)[v] == s[k].1 && forall|k2: int|
                k < k2 < s.len() ==> (#[trigger] s[k2]).0 != v,
    decreases s.len(),
{
    let last = s.len() - 1;
    if s[last].0 == v {
        assert(last_colors(s)[v] == s[last].1);
    } else {
        let init = s.drop_last();
        assert(last_colors(init).dom().contains(v));
        lemma_last_colors_value(init, v);
        let k = choose|k: int|
            0 <= k < init.len() && (#[trigger] init[k]).0 == v && last_colors(init)[v] == init[k].1
                && forall|k2: int| k < k2 < init.len() ==> (#[trigger] init[k2]).0 != v;
        assert(s[k] == init[k]);
        assert forall|k2: int| k < k2 < s.len() implies (#[trigger] s[k2]).0 != v by {
            if k2 < last {
                assert(s[k2] == init[k2]);
            }
        }
    }
}

/// The color of each kept height is that of the last cell with that
/// height, scanning the map column by column (`x` outer, `y` inner).
pub proof fn lemma_kept_colors(q: QuadTree, hm: Heightmap, cm: Colormap, g: u32)
    requires
        built_from(q, hm, cm, g),
    ensures
        forall|v: u32|
            #[trigger] q.spec_filtered().dom().contains(v) ==> exists|x: int, y: int|
                0 <= x < hm.spec_width() && 0 <= y < hm.spec_height() && #[trigger] hm.spec_at(x, y) == v
                    && cm.spec_at(x, y) == q.spec_filtered()[v] && forall|x2: int, y2: int|
                    0 <= x2 < hm.spec_width() && 0 <= y2 < hm.spec_height() && x2
                        * hm.spec_height() + y2 > x * hm.spec_height() + y ==> #[trigger] hm.spec_at(
                        x2,
                        y2,
                    ) != v,
{
    let s = scan(hm, cm);
    let m = last_colors(s);
    let f = filter_heights(m, g);
    let h = hm.spec_height() as int;
    if g > 0 && has_at_or_below(m, g) {
        lemma_highest_is_max(s, g);
    }
    assert forall|v: u32| #[trigger] q.spec_filtered().dom().contains(v) implies exists|x: int, y: int|
        0 <= x < hm.spec_width() && 0 <= y < hm.spec_height() && #[trigger] hm.spec_at(x, y) == v
            && cm.spec_at(x, y) == q.spec_filtered()[v] && forall|x2: int, y2: int|
            0 <= x2 < hm.spec_width() && 0 <= y2 < hm.spec_height() && x2 * hm.spec_height() + y2 > x
                * hm.spec_height() + y ==> #[trigger] hm.spec_at(x2, y2) != v by {
        if g > 0 && !f.is_empty() {
            assert(q.spec_filtered() == f);
        } else if g > 0 {
            assert(f.dom().contains(v) == false);
            assert(q.spec_filtered().dom() =~= Set::<u32>::empty());
        }
        assert(m.dom().contains(v) && q.spec_filtered()[v] == m[v]);
        lemma_last_colors_value(s, v);
        let k = choose|k: int|
            0 <= k < s.len() && (#[trigger] s[k]).0 == v && m[v] == s[k].1 && forall|k2: int|
                k < k2 < s.len() ==> (#[trigger] s[k2]).0 != v;
        lemma_scan_cell(hm, cm, k);
        let x = k / h;
        let y = k % h;
        assert(k == x * h + y) by {
            vstd::arithmetic::div_mod::lemma_fundamental_div_mod(k, h);
        }
        assert forall|x2: int, y2: int|
            0 <= x2 < hm.spec_width() && 0 <= y2 < hm.spec_height() && x2 * hm.spec_height() + y2 > x
                * hm.spec_height() + y implies #[trigger] hm.spec_at(x2, y2) != v by {
            lemma_scan_at(hm, cm, x2, y2);
            assert(s[x2 * h + y2].0 != v);
        }
        assert(hm.spec_at(x, y) == v);
    }
}

/// The heights that get a layer of their own, with fill layers above
/// `g > 0`: a height is kept exactly when some cell has it and no cell has a
/// height above it but not above `g`. So every height above `g` is kept, and
/// of those at or below `g` only the highest. The kept heights are listed
/// in `spec_sorted_heights`.
pub proof fn lemma_kept_heights(q: QuadTree, hm: Heightmap, cm: Colormap, g: u32)
    requires
        built_from(q, hm, cm, g),
        g > 0,
    ensures
        forall|v: u32|
            #![trigger q.spec_filtered().dom().contains(v)]
            q.spec_filtered().dom().contains(v) <==> (occurs(hm, v) && forall|x: int, y: int|
                0 <= x < hm.spec_width() && 0 <= y < hm.spec_height() && #[trigger] hm.spec_at(x, y)
                    <= g ==> hm.spec_at(x, y) <= v),
        forall|v: u32|
            q.spec_sorted_heights().contains(v) <==> #[trigger] q.spec_filtered().dom().contains(v),
{
    let s = scan(hm, cm);
    let m = last_colors(s);
    let f = filter_heights(m, g);
    let w = hm.spec_width() as int;
    let h = hm.spec_height() as int;
    if has_at_or_below(m, g) {
        lemma_highest_is_max(s, g);
    }
    assert forall|v: u32| #![trigger f.dom().contains(v)]
        f.dom().contains(v) <==> (occurs(hm, v) && forall|x: int, y: int|
            0 <= x < w && 0 <= y < h && #[trigger] hm.spec_at(x, y) <= g ==> hm.spec_at(x, y) <= v) by {
        lemma_occurs(hm, cm, v);
        let below = forall|x: int, y: int|
            0 <= x < w && 0 <= y < h && #[trigger] hm.spec_at(x, y) <= g ==> hm.spec_at(x, y) <= v;
        if f.dom().contains(v) {
            if v > g {
            } else {
                assert(has_at_or_below(m, g));
                let b = highest_at_or_below(m, g);
                assert(v == b);
                assert forall|x: int, y: int|
                    0 <= x < w && 0 <= y < h && #[trigger] hm.spec_at(x, y) <= g implies hm.spec_at(x, y) <= v by {
                    lemma_occurs(hm, cm, hm.spec_at(x, y));
                }
            }
        }
        if occurs(hm, v) && below {
            if v <= g {
                assert(has_at_or_below(m, g));
                let b = highest_at_or_below(m, g);
                lemma_occurs(hm, cm, b);
                let (x, y) = choose|x: int, y: int|
                    0 <= x < w && 0 <= y < h && #[trigger] hm.spec_at(x, y) == b;
                assert(hm.spec_at(x, y) <= g);
                assert(b <= v);
                assert(v <= b);
            }
        }
    }
    if !(g > 0 && !f.is_empty()) {
        assert(f.dom() =~= Set::<u32>::empty());
        assert(q.spec_filtered().dom() =~= Set::<u32>::empty());
    }
    assert forall|v: u32| q.spec_sorted_heights().contains(v) <==> #[trigger] q.spec_filtered().dom().contains(v) by {
        if g > 0 && !f.is_empty() {
            assert(q.spec_sorted_heights().to_set().contains(v) <==> q.spec_sorted_heights().contains(v));
        }
    }
}

/// What the first layer has at each cell: with kept heights (fill layers
/// above `g > 0`) each cell's height is cut down to the lowest kept height
/// `cap`, and cells that reach the cap take the color of that height;
/// otherwise each cell has its own height and color.
pub proof fn lemma_first_layer_cells(q: QuadTree, hm: Heightmap, cm: Colormap, g: u32)
    requires
        built_from(q, hm, cm, g),
    ensures
        forall|x: int, y: int|
            0 <= x < hm.spec_width() && 0 <= y < hm.spec_height() ==> {
                let t = q.spec_tiles()[x * hm.spec_height() + y];
                let hc = #[trigger] hm.spec_at(x, y);
                let sorted = q.spec_sorted_heights();
                if sorted.len() > 0 {
                    let cap = sorted[0];
                    &&& t.height == (if hc > cap {
                        cap
                    } else {
                        hc
                    })
                    &&& t.color == (if hc >= cap {
                        q.spec_filtered()[cap]
                    } else {
                        cm.spec_at(x, y)
                    })
                } else {
                    &&& t.height == hc
                    &&& t.color == cm.spec_at(x, y)
                }
            },
{
    let f = filter_heights(last_colors(scan(hm, cm)), g);
    if !(g > 0 && !f.is_empty()) {
        assert(q.spec_sorted_heights().len() == 0);
    } else {
        assert(q.spec_sorted_heights().to_set().contains(q.spec_sorted_heights()[0]));
    }
}

/// What fill layer `j` (for the kept height `level`, the `j + 1`-th in
/// increasing order, in the color `color` of that height) has at each cell:
/// every tile has the layer's color; a lake layer (its color is a water
/// color) reaches the level only at cells of exactly that color and height,
/// a land layer at every cell at or above the level; all other tiles are at
/// height 0.
pub proof fn lemma_fill_layer_cells(q: QuadTree, hm: Heightmap, cm: Colormap, g: u32, j: int)
    requires
        built_from(q, hm, cm, g),
        0 <= j < q.spec_layers().len(),
    ensures
        forall|x: int, y: int|
            0 <= x < hm.spec_width() && 0 <= y < hm.spec_height() ==> {
                let t = q.spec_layers()[j][x * hm.spec_height() + y];
                let level = q.spec_sorted_heights()[j + 1];
                let color = q.spec_filtered()[level];
                let hc = #[trigger] hm.spec_at(x, y);
                &&& t.color == color
                &&& t.height == (if water(hm, cm, color) {
                    if cm.spec_at(x, y) == color && hc == level {
                        level
                    } else {
                        0
                    }
                } else if hc >= level {
                    level
                } else {
                    0
                })
            },
{
    let level = q.spec_sorted_heights()[j + 1];
    let color = q.spec_filtered()[level];
    lemma_water(hm, cm, color);
}

/// How far fill layer `i` reaches down, in the bricks that `into_bricks`
/// lays out one layer after another: the bricks of the first `i + 1` fill
/// layers are those of the first `i` followed by layer `i` laid out with a
/// height adjustment of the kept height `below` under it; but when `below`
/// is a lake (its color is a water color) the layer reaches past the water,
/// down to the kept height under the lake, or to the ground for the first
/// fill layer.
pub proof fn lemma_fill_adjustment(
    q: QuadTree,
    hm: Heightmap,
    cm: Colormap,
    g: u32,
    o: GenOptions,
    width: u32,
    height: u32,
    i: int,
)
    requires
        built_from(q, hm, cm, g),
        0 <= i < q.spec_layers().len(),
    ensures
        stacked_bricks(q, i + 1, o, width, height) == stacked_bricks(q, i, o, width, height)
            + tiles_bricks(
            q.spec_layers()[i],
            o,
            ({
                let sorted = q.spec_sorted_heights();
                let below = sorted[i];
                if water(hm, cm, q.spec_filtered()[below]) {
                    if i > 0 {
                        sorted[i - 1]
                    } else {
                        0
                    }
                } else {
                    below
                }
            }),
            width,
            height,
        ),
{
    let sorted = q.spec_sorted_heights();
    lemma_water(hm, cm, q.spec_filtered()[sorted[i]]);
    assert(sorted.to_set().contains(sorted[i]));
}

/// The bricks `into_bricks` lays out start with the first layer, laid out
/// with no height adjustment.
pub proof fn lemma_first_layer_bricks(q: QuadTree, o: GenOptions, width: u32, height: u32)
    ensures
        stacked_bricks(q, 0, o, width, height) == tiles_bricks(q.spec_tiles(), o, 0, width, height),
{
}

} // verus!
