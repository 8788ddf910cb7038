//! What the tile layers built from a heightmap and a colormap hold.
use vstd::prelude::*;

use crate::map::{Colormap, Heightmap};
use crate::opt::quad::Tile;

verus! {

/// Heights and colors of all cells, column by column (`x` outer, `y` inner).
pub open spec fn scan(hm: Heightmap, cm: Colormap) -> Seq<(u32, [u8; 4])> {
    let h = hm.spec_height() as int;
    Seq::new(
        (hm.spec_width() as int * h) as nat,
        |k: int| (hm.spec_at(k / h, k % h), cm.spec_at(k / h, k % h)),
    )
}

/// Each height that occurs, mapped to the color of its last cell.
pub open spec fn last_colors(s: Seq<(u32, [u8; 4])>) -> Map<u32, [u8; 4]>
    decreases s.len(),
{
    if s.len() == 0 {
        Map::empty()
    } else {
        last_colors(s.drop_last()).insert(s.last().0, s.last().1)
    }
}

/// Colors of the cells at height 0 (water).
pub open spec fn zero_colors(s: Seq<(u32, [u8; 4])>) -> Set<[u8; 4]> {
    Set::new(|c: [u8; 4]| exists|k: int| 0 <= k < s.len() && #[trigger] s[k] == (0u32, c))
}

/// Some height of `m` is at or below `g`.
pub open spec fn has_at_or_below(m: Map<u32, [u8; 4]>, g: u32) -> bool {
    exists|h: u32| m.dom().contains(h) && h <= g
}

/// The highest height of `m` at or below `g`.
pub open spec fn highest_at_or_below(m: Map<u32, [u8; 4]>, g: u32) -> u32 {
    choose|h: u32|
        m.dom().contains(h) && h <= g && forall|k: u32| m.dom().contains(k) && k <= g ==> k <= h
}

/// The heights that get a layer of their own: all above `g`, and only the
/// highest at or below it. With `g == 0`, all of them.
pub open spec fn filter_heights(m: Map<u32, [u8; 4]>, g: u32) -> Map<u32, [u8; 4]> {
    if g > 0 {
        let above = m.restrict(m.dom().filter(|h: u32| h > g));
        if has_at_or_below(m, g) {
            let b = highest_at_or_below(m, g);
            above.insert(b, m[b])
        } else {
            above
        }
    } else {
        m
    }
}

/// `s` is strictly increasing.
pub open spec fn strictly_increasing(s: Seq<u32>) -> bool {
    forall|i: int, j: int| 0 <= i < j < s.len() ==> s[i] < s[j]
}

/// How the cells of a layer get their height and color.
#[derive(Clone, Copy, Debug)]
pub enum LayerRule {
    /// The cell's own height and color.
    Plain,
    /// Heights above `cap` are cut down to it; cells at the cap take `color`.
    Capped { cap: u32, color: [u8; 4] },
    /// A solid fill at `level` in `color`. A lake fill covers only the cells
    /// of that color at exactly that height; a land fill covers every cell
    /// at or above it. Cells not covered get height 0.
    Fill { level: u32, color: [u8; 4], lake: bool },
}

/// Height of a cell with height `h` and color `c` under `rule`.
pub open spec fn rule_height(rule: LayerRule, h: u32, c: [u8; 4]) -> u32 {
    match rule {
        LayerRule::Plain => h,
        LayerRule::Capped { cap, .. } => if h > cap {
            cap
        } else {
            h
        },
        LayerRule::Fill { level, color, lake } => if lake {
            if c == color && h == level {
                level
            } else {
                0
            }
        } else if h >= level {
            level
        } else {
            0
        },
    }
}

/// Color of a cell with height `h` and color `c` under `rule`.
pub open spec fn rule_color(rule: LayerRule, h: u32, c: [u8; 4]) -> [u8; 4] {
    match rule {
        LayerRule::Plain => c,
        LayerRule::Capped { cap, color } => if rule_height(rule, h, c) == cap {
            color
        } else {
            c
        },
        LayerRule::Fill { color, .. } => color,
    }
}

/// The heights of the cells left, right, above and below `(x, y)` that lie
/// on the map.
pub open spec fn neighbor_heights(hm: Heightmap, x: int, y: int) -> Set<u32> {
    Set::new(
        |v: u32|
            {
                ||| (x > 0 && v == hm.spec_at(x - 1, y))
                ||| (x + 1 < hm.spec_width() && v == hm.spec_at(x + 1, y))
                ||| (y > 0 && v == hm.spec_at(x, y - 1))
                ||| (y + 1 < hm.spec_height() && v == hm.spec_at(x, y + 1))
            },
    )
}

/// `t` is the fresh, unmerged tile of cell `(x, y)` under `rule`.
pub open spec fn fresh_tile(t: Tile, hm: Heightmap, cm: Colormap, rule: LayerRule, x: int, y: int) -> bool {
    let h = hm.spec_at(x, y);
    let c = cm.spec_at(x, y);
    &&& t.index == x + y * hm.spec_height()
    &&& t.center == (x as u32, y as u32)
    &&& t.size == (1u32, 1u32)
    &&& t.color == rule_color(rule, h, c)
    &&& t.height == rule_height(rule, h, c)
    &&& t.neighbors@.to_set() == neighbor_heights(hm, x, y)
    &&& t.neighbors@.no_duplicates()
    &&& t.parent is None
}

/// `tiles` holds one fresh tile per cell, column by column, under `rule`.
pub open spec fn fresh_layer(tiles: Seq<Tile>, hm: Heightmap, cm: Colormap, rule: LayerRule) -> bool {
    let w = hm.spec_width() as int;
    let h = hm.spec_height() as int;
    &&& tiles.len() == w * h
    &&& forall|x: int, y: int|
        0 <= x < w && 0 <= y < h ==> fresh_tile(#[trigger] tiles[x * h + y], hm, cm, rule, x, y)
}

} // verus!
