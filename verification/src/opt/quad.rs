//! Quadtree and line merging of terrain tiles, and their conversion to bricks.
use vstd::prelude::*;

use crate::brick::{Brick, BrickSize, Collision, Color, Material, Position};
use crate::opt::layout::{
    axis_center, center_offset, column, column_brick, column_ok, half_span, layer_bricks,
    lemma_piece_height, piece_height, raw_desired, raw_height, raw_top, skipped, snap4, tile_bricks,
    tile_desired, tile_ok, tile_top, tiles_bricks, tiles_ok,
};
use crate::map::{Colormap, Heightmap};
use crate::opt::blocks::{
    block_merges, lemma_quad_column_nonneg, lemma_quad_pass_nonneg, merge_block, quad_block,
    quad_column, quad_pass, similar_quad,
};
use crate::opt::lines::{
    lemma_line_pass_nonneg, lemma_scan_down_bounds, lemma_scan_right_bounds,
    line_extent, line_extent_ok, line_neighbors, line_pass, line_step, line_vertical, lines_at,
    longer_line, merge_line_ok, merge_line_view, pos, scan_down, scan_right, similar_line,
};
use crate::opt::construct::{
    build_layer, color_key, color_key_of, extend_unique, filter_layer_heights, grid_fits, sort_heights, survey,
};
use crate::opt::laws::{
    keeps_tiles, lemma_line_pass_keeps, lemma_line_pass_roots, lemma_quad_pass_keeps,
    lemma_quad_pass_roots, root_count, sizes_positive,
};
use crate::opt::model::{
    filter_heights, fresh_layer, fresh_tile, last_colors, scan, strictly_increasing, zero_colors, LayerRule,
};
use crate::util::GenOptions;

use std::collections::{HashMap, HashSet};

use vstd::arithmetic::power2::pow2;

verus! {

/// One cell of a tile layer. A tile that has been merged into another one
/// has a `parent`; the others stand for one brick column each.
#[derive(Debug)]
pub struct Tile {
    pub index: usize,
    /// Column and row of the tile's corner cell.
    pub center: (u32, u32),
    /// Extent in cells, along x and along y.
    pub size: (u32, u32),
    pub color: [u8; 4],
    pub height: u32,
    /// Heights of the cells next to this tile (each once).
    pub neighbors: Vec<u32>,
    pub parent: Option<usize>,
}

/// A tile as its contracts see it: the neighbor heights as a set.
pub struct TileView {
    pub index: usize,
    pub center: (u32, u32),
    pub size: (u32, u32),
    pub color: [u8; 4],
    pub height: u32,
    pub neighbors: Set<u32>,
    pub parent: Option<usize>,
}

impl View for Tile {
    type V = TileView;

    open spec fn view(&self) -> TileView {
        TileView {
            index: self.index,
            center: self.center,
            size: self.size,
            color: self.color,
            height: self.height,
            neighbors: self.neighbors@.to_set(),
            parent: self.parent,
        }
    }
}

/// The views of a sequence of tiles.
pub open spec fn views(tiles: Seq<Tile>) -> Seq<TileView> {
    tiles.map_values(|t: Tile| t@)
}

/// `v` lies in the range of `i32`.
pub open spec fn in_i32(v: int) -> bool {
    i32::MIN <= v <= i32::MAX
}

/// Rust's `/` on signed integers: rounds toward zero.
pub open spec fn tdiv(a: int, b: int) -> int {
    if a >= 0 {
        a / b
    } else {
        -((-a) / b)
    }
}

/// Rust's `%` on signed integers: takes the sign of the dividend.
pub open spec fn trem(a: int, b: int) -> int {
    if a >= 0 {
        a % b
    } else {
        -((-a) % b)
    }
}

pub open spec fn max_int(a: int, b: int) -> int {
    if a >= b {
        a
    } else {
        b
    }
}

pub open spec fn min_int(a: int, b: int) -> int {
    if a <= b {
        a
    } else {
        b
    }
}

/// Two colors are the same in all four channels.
pub fn color_eq(a: [u8; 4], b: [u8; 4]) -> (r: bool)
    ensures
        r == (a == b),
{
    let r = a[0] == b[0] && a[1] == b[1] && a[2] == b[2] && a[3] == b[3];
    proof {
        if r {
            assert(a =~= b);
        }
    }
    r
}

impl Tile {
    /// Same size, color and height, and neither merged yet.
    pub open spec fn spec_similar_quad(self, other: Tile) -> bool {
        &&& self.size == other.size
        &&& self.color == other.color
        &&& self.height == other.height
        &&& self.parent is None
        &&& other.parent is None
    }

    /// Lined up with the same width across the line, same color and height,
    /// and neither merged yet.
    pub open spec fn spec_similar_line(self, other: Tile) -> bool {
        let is_vertical = self.center.0 == other.center.0;
        let is_horizontal = self.center.1 == other.center.1;
        &&& (is_vertical && self.size.0 == other.size.0 || is_horizontal && self.size.1
            == other.size.1)
        &&& self.color == other.color
        &&& self.height == other.height
        &&& self.parent is None
        &&& other.parent is None
    }

    // determine if another tile is similar in all properties
    fn similar_quad(&self, other: &Self) -> (r: bool)
        ensures
            r == self.spec_similar_quad(*other),
    {
        self.size.0 == other.size.0 && self.size.1 == other.size.1 && color_eq(
            self.color,
            other.color,
        ) && self.height == other.height && self.parent.is_none() && other.parent.is_none()
    }

    // determine if another tile is similar in all properties except potentially width or height as long as they are in a line
    fn similar_line(&self, other: &Self) -> (r: bool)
        ensures
            r == self.spec_similar_line(*other),
    {
        let is_vertical = self.center.0 == other.center.0;
        let is_horizontal = self.center.1 == other.center.1;

        (is_vertical && self.size.0 == other.size.0 || is_horizontal && self.size.1
            == other.size.1) && color_eq(self.color, other.color) && self.height == other.height
            && self.parent.is_none() && other.parent.is_none()
    }

    // merge a few tiles with this one
    fn merge_quad(&mut self, top_right: &mut Self, bottom_left: &mut Self, bottom_right: &mut Self)
        requires
            old(self).size.0 * 2 <= u32::MAX,
            old(self).size.1 * 2 <= u32::MAX,
            old(self).neighbors@.no_duplicates(),
        ensures
            final(self)@ == (TileView {
                size: ((old(self).size.0 * 2) as u32, (old(self).size.1 * 2) as u32),
                neighbors: old(self)@.neighbors + old(top_right)@.neighbors + old(bottom_left)@.neighbors
                    + old(bottom_right)@.neighbors,
                ..old(self)@
            }),
            final(self).neighbors@.no_duplicates(),
            *final(top_right) == (Tile { parent: Some(old(self).index), ..*old(top_right) }),
            *final(bottom_left) == (Tile { parent: Some(old(self).index), ..*old(bottom_left) }),
            *final(bottom_right) == (Tile { parent: Some(old(self).index), ..*old(bottom_right) }),
    {
        // update size
        self.size = (self.size.0 * 2, self.size.1 * 2);

        extend_unique(&mut self.neighbors, &top_right.neighbors);
        extend_unique(&mut self.neighbors, &bottom_left.neighbors);
        extend_unique(&mut self.neighbors, &bottom_right.neighbors);

        // update parents of merged nodes
        top_right.parent = Some(self.index);
        bottom_left.parent = Some(self.index);
        bottom_right.parent = Some(self.index);
    }

    /// A tile that stands in for one taken out of its layer for a moment.
    fn placeholder() -> (r: Tile)
        ensures
            r.size == (1u32, 1u32),
            r.neighbors@.len() == 0,
    {
        Tile {
            index: 0,
            center: (0, 0),
            size: (1, 1),
            color: [0, 0, 0, 0],
            height: 0,
            neighbors: Vec::new(),
            parent: None,
        }
    }
}

/// Appends the bricks of one tile: a column of bricks from the layer below up
/// to the tile's top, at most 250 units each.
fn push_tile_bricks(
    out: &mut Vec<Brick>,
    t: &Tile,
    options: &GenOptions,
    height_adjustment: u32,
    pos_adjust: i32,
    offset_x: i32,
    offset_y: i32,
)
    requires
        pos_adjust == crate::opt::layout::pos_adjust(height_adjustment),
        tile_ok(*t, *options, height_adjustment, offset_x as int, offset_y as int),
    ensures
        final(out)@ == old(out)@ + tile_bricks(
            *t,
            *options,
            height_adjustment,
            offset_x as int,
            offset_y as int,
        ),
{
    // skip merged tiles and (when culling) fully transparent tiles.
    if t.parent.is_some() || options.cull && t.color[3] == 0 {
        assert(old(out)@ + seq![] =~= old(out)@);
        return ;
    }
    let mut z = (options.scale * t.height) as i32;

    // solid column from the layer below up to this tile's height.
    let above = t.height as i32 - height_adjustment as i32 + 1;
    let raw = if above >= 2 {
        above
    } else {
        2
    };
    let half = raw * options.scale as i32 / 2;
    let mut desired_height = if half >= 2 {
        half
    } else {
        2
    };

    // snap bricks to grid
    if options.snap {
        z += (4 - z % 4) % 4;
        desired_height += (4 - desired_height % 4) % 4;
    }
    assert(z == tile_top(*t, *options));
    assert(desired_height == tile_desired(*t, *options, height_adjustment));

    let step: u16 = if options.stud {
        5
    } else {
        2
    };
    let size_x = t.size.0 as u16 * options.size;
    let size_y = t.size.1 as u16 * options.size;
    let pos_x = (t.center.0 as i32 * 2 + t.size.0 as i32) * options.size as i32 + offset_x;
    let pos_y = (t.center.1 as i32 * 2 + t.size.1 as i32) * options.size as i32 + offset_y;

    let ghost pa = pos_adjust as int;
    let ghost ox = offset_x as int;
    let ghost oy = offset_y as int;
    let ghost z0 = z as int;
    let ghost d0 = desired_height as int;
    // until we've made enough bricks to fill the height
    // add a brick with a max height of 250
    while desired_height > 0
        invariant
            pa == pos_adjust,
            pos_adjust == crate::opt::layout::pos_adjust(height_adjustment),
            step == crate::opt::layout::height_step(options.stud),
            size_x == (t.size.0 as u16) * options.size,
            size_y == (t.size.1 as u16) * options.size,
            pos_x == axis_center(t.center.0, t.size.0, options.size) + ox,
            pos_y == axis_center(t.center.1, t.size.1, options.size) + oy,
            column_ok(*options, pa, z as int, desired_height as int),
            out@ + column(*t, *options, pa, ox, oy, z as int, desired_height as int) == old(out)@
                + column(*t, *options, pa, ox, oy, z0, d0),
        decreases if desired_height > 0 {
            desired_height as int
        } else {
            0
        },
    {
        proof {
            lemma_piece_height(desired_height as int, options.stud);
        }
        // pick height for this brick
        let lower = if desired_height >= step as i32 {
            desired_height
        } else {
            step as i32
        };
        let capped = if lower <= 250 {
            lower
        } else {
            250
        };
        let height_u = capped as u16;
        let height_u = height_u + height_u % step;
        assert(height_u == piece_height(desired_height as int, options.stud));

        let ghost before = out@;
        out.push(
            Brick {
                asset: options.asset.clone(),
                size: BrickSize {
                    x: size_x,
                    y: size_y,
                    // a microbrick image uses the block size so it's cubes
                    z: if options.img && options.micro {
                        options.size
                    } else {
                        height_u.saturating_sub(pos_adjust as u16)
                    },
                },
                position: Position {
                    x: pos_x,
                    y: pos_y,
                    z: if options.img {
                        0
                    } else {
                        z - height_u as i32 + pos_adjust
                    },
                },
                collision: Collision {
                    player: !options.nocollide,
                    weapon: !options.nocollide,
                    interact: !options.nocollide,
                    tool: !options.nocollide,
                },
                color: Color { r: t.color[0], g: t.color[1], b: t.color[2] },
                material: if options.glow {
                    Material::Glow
                } else {
                    Material::Plastic
                },
                material_intensity: 0,
            },
        );
        assert(out@.last() == column_brick(*t, *options, pa, ox, oy, z as int, height_u as int));
        assert(out@ == before.push(
            column_brick(*t, *options, pa, ox, oy, z as int, height_u as int),
        ));

        // update Z and remaining height
        let ghost zz = z as int;
        let ghost dd = desired_height as int;
        desired_height -= height_u as i32;
        z -= height_u as i32 * 2;
        assert(column(*t, *options, pa, ox, oy, zz, dd) == seq![
            column_brick(*t, *options, pa, ox, oy, zz, height_u as int),
        ] + column(*t, *options, pa, ox, oy, z as int, desired_height as int));
        assert(out@ + column(*t, *options, pa, ox, oy, z as int, desired_height as int) =~= before
            + column(*t, *options, pa, ox, oy, zz, dd));
    }
    assert(out@ + column(*t, *options, pa, ox, oy, z as int, desired_height as int) =~= out@);
}

/// The tile layers of a heightmap, merged step by step into fewer, larger
/// tiles, then turned into bricks.
pub struct QuadTree {
    tiles: Vec<Tile>,
    /// Additional tile layers, one per height above `gen_full_layers_above_height`.
    /// Each is a full grid of solid-fill tiles for that height band.
    height_layers: Vec<Vec<Tile>>,
    /// Sorted list of the filtered heights used to build the layers.
    sorted_heights: Vec<u32>,
    /// Keys (see `color_key`) of the colors that appeared at height 0 (treated as water/lake).
    height_0_colors: HashSet<u32>,
    /// Mapping from a kept height to the color used for its layer.
    filtered_heights: HashMap<u32, [u8; 4]>,
    width: u32,
    height: u32,
}

/// Every tile of `tiles` spans at least one cell each way and lists each
/// neighbor height once.
pub open spec fn tiles_sane(tiles: Seq<Tile>) -> bool {
    forall|i: int|
        0 <= i < tiles.len() ==> {
            &&& #[trigger] tiles[i].size.0 >= 1
            &&& tiles[i].size.1 >= 1
            &&& tiles[i].neighbors@.no_duplicates()
        }
}

/// How far down the fill layer with index `i` reaches: to the height of the
/// layer below it, or, where that layer is water, one layer further down.
pub open spec fn layer_adjustment(
    sorted: Seq<u32>,
    filtered: Map<u32, [u8; 4]>,
    zero: Set<[u8; 4]>,
    i: int,
) -> u32 {
    if sorted.len() == 0 {
        0
    } else if filtered.contains_key(sorted[i]) && zero.contains(filtered[sorted[i]]) {
        if i > 0 {
            sorted[i - 1]
        } else {
            0
        }
    } else {
        sorted[i]
    }
}

/// The bricks of the first layer and of the first `n` fill layers.
pub open spec fn stacked_bricks(
    q: QuadTree,
    n: int,
    o: GenOptions,
    width: u32,
    height: u32,
) -> Seq<Brick>
    decreases n,
{
    if n <= 0 {
        tiles_bricks(q.spec_tiles(), o, 0, width, height)
    } else {
        stacked_bricks(q, n - 1, o, width, height) + tiles_bricks(
            q.spec_layers()[n - 1],
            o,
            layer_adjustment(
                q.spec_sorted_heights(),
                q.spec_filtered(),
                q.spec_zero_colors(),
                n - 1,
            ),
            width,
            height,
        )
    }
}

/// Laying out the bricks of all layers stays within the integer types used.
pub open spec fn bricks_ok(q: QuadTree, o: GenOptions, width: u32, height: u32) -> bool {
    &&& tiles_ok(q.spec_tiles(), o, 0, width, height)
    &&& forall|i: int|
        0 <= i < q.spec_layers().len() ==> tiles_ok(
            #[trigger] q.spec_layers()[i],
            o,
            layer_adjustment(q.spec_sorted_heights(), q.spec_filtered(), q.spec_zero_colors(), i),
            width,
            height,
        )
}

/// The number of tiles one line pass merges away, summed over `layers`.
pub open spec fn line_counts(layers: Seq<Seq<Tile>>, w: int, h: int, ts: int) -> int
    decreases layers.len(),
{
    if layers.len() == 0 {
        0
    } else {
        line_counts(layers.drop_last(), w, h, ts) + line_pass(views(layers.last()), w, h, ts, 0).1
    }
}

/// A line pass over every layer of `q` stays within `u32`, and its count
/// within `usize`.
pub open spec fn line_optimize_ok(q: QuadTree, tile_scale: u32) -> bool {
    let w = q.spec_width() as int;
    let h = q.spec_height() as int;
    let ts = tile_scale as int;
    &&& line_pass(views(q.spec_tiles()), w, h, ts, 0).2
    &&& forall|j: int|
        0 <= j < q.spec_layers().len() ==> line_pass(views(#[trigger] q.spec_layers()[j]), w, h, ts, 0).2
    &&& line_pass(views(q.spec_tiles()), w, h, ts, 0).1 + line_counts(q.spec_layers(), w, h, ts)
        <= usize::MAX
}

/// The number of tiles one level of quad merging merges away, summed over
/// `layers`.
pub open spec fn quad_counts(layers: Seq<Seq<Tile>>, w: int, h: int, s: int) -> int
    decreases layers.len(),
{
    if layers.len() == 0 {
        0
    } else {
        quad_counts(layers.drop_last(), w, h, s) + quad_pass(views(layers.last()), w, h, s, 0).1
    }
}

/// Merging level `level` of every layer of `q` computes its block side
/// without overflow, stays on the map, keeps sizes within `u32` and its
/// count within `usize`.
pub open spec fn quad_optimize_ok(q: QuadTree, level: u32) -> bool {
    let w = q.spec_width() as int;
    let h = q.spec_height() as int;
    let s = pow2(level as nat) as int;
    &&& level < 32
    &&& 2 * s <= usize::MAX
    &&& s <= w
    &&& (w > s ==> s <= h)
    &&& quad_pass(views(q.spec_tiles()), w, h, s, 0).2
    &&& forall|j: int|
        0 <= j < q.spec_layers().len() ==> quad_pass(views(#[trigger] q.spec_layers()[j]), w, h, s, 0).2
    &&& quad_pass(views(q.spec_tiles()), w, h, s, 0).1 + quad_counts(q.spec_layers(), w, h, s)
        <= usize::MAX
}

/// Summing over fewer layers counts no more.
proof fn lemma_quad_counts_prefix(layers: Seq<Seq<Tile>>, w: int, h: int, s: int, m: int)
    requires
        0 <= m <= layers.len(),
    ensures
        0 <= quad_counts(layers.take(m), w, h, s) <= quad_counts(layers, w, h, s),
    decreases layers.len(),
{
    if m == layers.len() {
        assert(layers.take(m) =~= layers);
        if m > 0 {
            lemma_quad_counts_prefix(layers.drop_last(), w, h, s, m - 1);
            assert(layers.drop_last().take(m - 1) =~= layers.drop_last());
            lemma_quad_pass_nonneg(views(layers.last()), w, h, s, 0);
        }
    } else {
        assert(layers.take(m) =~= layers.drop_last().take(m));
        lemma_quad_counts_prefix(layers.drop_last(), w, h, s, m);
        lemma_quad_pass_nonneg(views(layers.last()), w, h, s, 0);
    }
}

/// `2` to the power `level`.
pub fn pow2_u32(level: u32) -> (r: u32)
    requires
        level < 32,
    ensures
        r == pow2(level as nat),
{
    proof {
        vstd::arithmetic::power2::lemma2_to64();
    }
    let mut r: u32 = 1;
    let mut i: u32 = 0;
    while i < level
        invariant
            i <= level < 32,
            r == pow2(i as nat),
            pow2(31) == 0x80000000,
        decreases level - i,
    {
        proof {
            vstd::arithmetic::power2::lemma_pow2_unfold((i + 1) as nat);
            if i + 1 < 31 {
                vstd::arithmetic::power2::lemma_pow2_strictly_increases((i + 1) as nat, 31);
            }
        }
        r = r * 2;
        i += 1;
    }
    r
}

/// Unmerged tiles summed over `layers`.
pub open spec fn layers_roots(layers: Seq<Seq<Tile>>) -> int
    decreases layers.len(),
{
    if layers.len() == 0 {
        0
    } else {
        layers_roots(layers.drop_last()) + root_count(views(layers.last()))
    }
}

/// Unmerged tiles of all layers of `q`: the brick columns it turns into.
pub open spec fn tree_roots(q: QuadTree) -> int {
    root_count(views(q.spec_tiles())) + layers_roots(q.spec_layers())
}

/// Every layer of `new` keeps the tiles of the same layer of `old`: each
/// tile's index, corner cell, color and height, and the tile that a merged
/// tile is merged into.
pub open spec fn keeps_layers(old: QuadTree, new: QuadTree) -> bool {
    &&& keeps_tiles(views(old.spec_tiles()), views(new.spec_tiles()))
    &&& new.spec_layers().len() == old.spec_layers().len()
    &&& forall|j: int|
        0 <= j < old.spec_layers().len() ==> keeps_tiles(
            views(old.spec_layers()[j]),
            views(#[trigger] new.spec_layers()[j]),
        )
}

/// Sane tiles have positive sizes.
proof fn lemma_sane_sizes(tiles: Seq<Tile>)
    requires
        tiles_sane(tiles),
    ensures
        sizes_positive(views(tiles)),
        views(tiles).len() == tiles.len(),
{
    assert forall|i: int| 0 <= i < views(tiles).len() implies (#[trigger] views(tiles)[i]).size.0
        >= 1 && views(tiles)[i].size.1 >= 1 by {
        assert(tiles[i].size.0 >= 1);
    }
}

/// Layer by layer, line passes merge away what they count.
proof fn lemma_layers_line_roots(old_layers: Seq<Seq<Tile>>, new_layers: Seq<Seq<Tile>>, w: int, h: int, ts: int)
    requires
        new_layers.len() == old_layers.len(),
        forall|j: int|
            0 <= j < old_layers.len() ==> root_count(views(#[trigger] new_layers[j])) + line_pass(
                views(old_layers[j]),
                w,
                h,
                ts,
                0,
            ).1 == root_count(views(old_layers[j])),
    ensures
        layers_roots(new_layers) + line_counts(old_layers, w, h, ts) == layers_roots(old_layers),
    decreases old_layers.len(),
{
    if old_layers.len() > 0 {
        let n = old_layers.len() - 1;
        assert(root_count(views(new_layers[n as int])) + line_pass(views(old_layers[n as int]), w, h, ts, 0).1
            == root_count(views(old_layers[n as int])));
        lemma_layers_line_roots(old_layers.drop_last(), new_layers.drop_last(), w, h, ts);
    }
}

/// Layer by layer, quad levels merge away what they count.
proof fn lemma_layers_quad_roots(old_layers: Seq<Seq<Tile>>, new_layers: Seq<Seq<Tile>>, w: int, h: int, s: int)
    requires
        new_layers.len() == old_layers.len(),
        forall|j: int|
            0 <= j < old_layers.len() ==> root_count(views(#[trigger] new_layers[j])) + quad_pass(
                views(old_layers[j]),
                w,
                h,
                s,
                0,
            ).1 == root_count(views(old_layers[j])),
    ensures
        layers_roots(new_layers) + quad_counts(old_layers, w, h, s) == layers_roots(old_layers),
    decreases old_layers.len(),
{
    if old_layers.len() > 0 {
        let n = old_layers.len() - 1;
        assert(root_count(views(new_layers[n as int])) + quad_pass(views(old_layers[n as int]), w, h, s, 0).1
            == root_count(views(old_layers[n as int])));
        lemma_layers_quad_roots(old_layers.drop_last(), new_layers.drop_last(), w, h, s);
    }
}

/// Summing over fewer layers counts no more.
proof fn lemma_line_counts_prefix(layers: Seq<Seq<Tile>>, w: int, h: int, ts: int, m: int)
    requires
        0 <= m <= layers.len(),
    ensures
        0 <= line_counts(layers.take(m), w, h, ts) <= line_counts(layers, w, h, ts),
    decreases layers.len(),
{
    if m == layers.len() {
        assert(layers.take(m) =~= layers);
        if m > 0 {
            lemma_line_counts_prefix(layers.drop_last(), w, h, ts, m - 1);
            assert(layers.drop_last().take(m - 1) =~= layers.drop_last());
            lemma_line_pass_nonneg(views(layers.last()), w, h, ts, 0);
        }
    } else {
        assert(layers.take(m) =~= layers.drop_last().take(m));
        lemma_line_counts_prefix(layers.drop_last(), w, h, ts, m);
        lemma_line_pass_nonneg(views(layers.last()), w, h, ts, 0);
    }
}

/// Every prefix of a line whose extent fits fits too.
proof fn lemma_extent_prefix_ok(v: Seq<TileView>, children: Seq<int>, vertical: bool, m: int)
    requires
        line_extent_ok(v, children, vertical),
        0 <= m <= children.len(),
    ensures
        line_extent_ok(v, children.take(m), vertical),
        line_extent(v, children.take(m), vertical) <= u32::MAX,
    decreases children.len(),
{
    if m == children.len() {
        assert(children.take(m) =~= children);
        if m > 0 {
        }
    } else {
        assert(children.take(m) =~= children.drop_last().take(m));
        lemma_extent_prefix_ok(v, children.drop_last(), vertical, m);
    }
    if m == 0 {
        assert(children.take(0) =~= Seq::<int>::empty());
    }
}

/// `q` is the quadtree built from `hm` and `cm` with fill layers above `g`:
/// both maps have the same size; with `g > 0` the first layer is capped at
/// the lowest kept height and each kept height above it gets a fill layer;
/// otherwise there is one plain layer.
pub open spec fn built_from(q: QuadTree, hm: Heightmap, cm: Colormap, g: u32) -> bool {
    let s = scan(hm, cm);
    let f = filter_heights(last_colors(s), g);
    let sorted = q.spec_sorted_heights();
    &&& cm.spec_width() == hm.spec_width()
    &&& cm.spec_height() == hm.spec_height()
    &&& q.spec_width() == hm.spec_width()
    &&& q.spec_height() == hm.spec_height()
    &&& if g > 0 && !f.is_empty() {
        &&& q.spec_filtered() == f
        &&& q.spec_zero_colors() == zero_colors(s)
        &&& strictly_increasing(sorted)
        &&& sorted.to_set() == f.dom()
        &&& fresh_layer(
            q.spec_tiles(),
            hm,
            cm,
            LayerRule::Capped { cap: sorted[0], color: f[sorted[0]] },
        )
        &&& q.spec_layers().len() + 1 == sorted.len()
        &&& forall|j: int|
            0 <= j < q.spec_layers().len() ==> fresh_layer(
                #[trigger] q.spec_layers()[j],
                hm,
                cm,
                LayerRule::Fill {
                    level: sorted[j + 1],
                    color: f[sorted[j + 1]],
                    lake: zero_colors(s).contains(f[sorted[j + 1]]),
                },
            )
    } else {
        &&& q.spec_filtered() == Map::<u32, [u8; 4]>::empty()
        &&& q.spec_zero_colors() == Set::<[u8; 4]>::empty()
        &&& sorted.len() == 0
        &&& q.spec_layers().len() == 0
        &&& fresh_layer(q.spec_tiles(), hm, cm, LayerRule::Plain)
    }
}

/// `new` is `old` after one line pass at `tile_scale` units per cell that
/// counted `count` merged tiles: every layer went through `line_pass`.
pub open spec fn line_result(old: QuadTree, new: QuadTree, tile_scale: u32, count: int) -> bool {
    let w = old.spec_width() as int;
    let h = old.spec_height() as int;
    let ts = tile_scale as int;
    &&& new.spec_width() == old.spec_width()
    &&& new.spec_height() == old.spec_height()
    &&& new.spec_sorted_heights() == old.spec_sorted_heights()
    &&& new.spec_filtered() == old.spec_filtered()
    &&& new.spec_zero_colors() == old.spec_zero_colors()
    &&& views(new.spec_tiles()) == line_pass(views(old.spec_tiles()), w, h, ts, 0).0
    &&& new.spec_layers().len() == old.spec_layers().len()
    &&& forall|j: int|
        0 <= j < old.spec_layers().len() ==> views(#[trigger] new.spec_layers()[j])
            == line_pass(views(old.spec_layers()[j]), w, h, ts, 0).0
    &&& count == line_pass(views(old.spec_tiles()), w, h, ts, 0).1 + line_counts(
        old.spec_layers(),
        w,
        h,
        ts,
    )
}

/// `new` is `old` after merging level `level` (blocks of side `2^level`)
/// that counted `count` merged tiles: every layer went through `quad_pass`.
pub open spec fn level_result(old: QuadTree, new: QuadTree, level: u32, count: int) -> bool {
    let w = old.spec_width() as int;
    let h = old.spec_height() as int;
    let s = pow2(level as nat) as int;
    &&& new.spec_width() == old.spec_width()
    &&& new.spec_height() == old.spec_height()
    &&& new.spec_sorted_heights() == old.spec_sorted_heights()
    &&& new.spec_filtered() == old.spec_filtered()
    &&& new.spec_zero_colors() == old.spec_zero_colors()
    &&& views(new.spec_tiles()) == quad_pass(views(old.spec_tiles()), w, h, s, 0).0
    &&& new.spec_layers().len() == old.spec_layers().len()
    &&& forall|j: int|
        0 <= j < old.spec_layers().len() ==> views(#[trigger] new.spec_layers()[j])
            == quad_pass(views(old.spec_layers()[j]), w, h, s, 0).0
    &&& count == quad_pass(views(old.spec_tiles()), w, h, s, 0).1 + quad_counts(
        old.spec_layers(),
        w,
        h,
        s,
    )
}

/// A freshly built layer is sane.
proof fn lemma_fresh_layer_sane(tiles: Seq<Tile>, hm: Heightmap, cm: Colormap, rule: LayerRule)
    requires
        fresh_layer(tiles, hm, cm, rule),
    ensures
        tiles_sane(tiles),
{
    let h = hm.spec_height() as int;
    let w = hm.spec_width() as int;
    assert forall|i: int| 0 <= i < tiles.len() implies {
        &&& #[trigger] tiles[i].size.0 >= 1
        &&& tiles[i].size.1 >= 1
        &&& tiles[i].neighbors@.no_duplicates()
    } by {
        assert(h > 0) by (nonlinear_arith)
            requires
                0 <= i < w * h,
                w >= 0,
                h >= 0,
        ;
        vstd::arithmetic::div_mod::lemma_fundamental_div_mod(i, h);
        let x = i / h;
        let y = i % h;
        assert(x < w) by (nonlinear_arith)
            requires
                i == h * x + y,
                0 <= y < h,
                i < w * h,
                h > 0,
        ;
        assert(x >= 0) by (nonlinear_arith)
            requires
                i == h * x + y,
                0 <= y < h,
                i >= 0,
                h > 0,
        ;
        assert(x * h + y == i) by (nonlinear_arith)
            requires
                i == h * x + y,
        ;
        assert(fresh_tile(tiles[x * h + y], hm, cm, rule, x, y));
    }
}

impl QuadTree {
    /// The layers all cover the map, their tiles are sane, and there is one
    /// fill layer per kept height above the lowest.
    pub closed spec fn wf(self) -> bool {
        let n = self.width as int * self.height as int;
        &&& n <= u32::MAX
        &&& self.tiles@.len() == n
        &&& tiles_sane(self.tiles@)
        &&& forall|j: int|
            0 <= j < self.height_layers@.len() ==> {
                &&& (#[trigger] self.height_layers@[j])@.len() == n
                &&& tiles_sane(self.height_layers@[j]@)
            }
        &&& (self.height_layers@.len() + 1 == self.sorted_heights@.len() || (
        self.sorted_heights@.len() == 0 && self.height_layers@.len() == 0))
    }

    /// Number of columns of the map.
    pub closed spec fn spec_width(&self) -> u32 {
        self.width
    }

    /// Number of rows of the map.
    pub closed spec fn spec_height(&self) -> u32 {
        self.height
    }

    /// The first layer: one tile per cell, column by column.
    pub closed spec fn spec_tiles(&self) -> Seq<Tile> {
        self.tiles@
    }

    /// The solid fill layers above the first one.
    pub closed spec fn spec_layers(&self) -> Seq<Seq<Tile>> {
        self.height_layers@.map_values(|l: Vec<Tile>| l@)
    }

    /// The heights that got a layer, in increasing order.
    pub closed spec fn spec_sorted_heights(&self) -> Seq<u32> {
        self.sorted_heights@
    }

    /// The color of each height that got a layer.
    pub closed spec fn spec_filtered(&self) -> Map<u32, [u8; 4]> {
        self.filtered_heights@
    }

    /// The colors that occur at height 0.
    pub closed spec fn spec_zero_colors(&self) -> Set<[u8; 4]> {
        Set::new(|c: [u8; 4]| self.height_0_colors@.contains(color_key(c)))
    }

    // create a heightmap grid from two images
    pub fn new(heightmap: &Heightmap, colormap: &Colormap, gen_full_layers_above_height: u32) -> (r:
        Result<Self, String>)
        requires
            colormap.spec_width() == heightmap.spec_width() && colormap.spec_height()
                == heightmap.spec_height() ==> grid_fits(
                heightmap.spec_width(),
                heightmap.spec_height(),
            ),
        ensures
            r matches Ok(q) ==> q.wf(),
            match r {
                Err(e) => {
                    &&& (colormap.spec_width() != heightmap.spec_width() || colormap.spec_height()
                        != heightmap.spec_height())
                    &&& e@ == "Heightmap and colormap must have same dimensions"@
                },
                Ok(q) => built_from(q, *heightmap, *colormap, gen_full_layers_above_height),
            },
    {
        broadcast use vstd::std_specs::hash::group_hash_axioms;
        broadcast use vstd::string::group_string_axioms;

        let (width, height) = heightmap.size();

        let (color_width, color_height) = colormap.size();
        if color_width != width || color_height != height {
            return Err("Heightmap and colormap must have same dimensions".to_string());
        }
        // First pass: collect all possible heights and their colors in the heightmap
        let (all_heights, heights, height_0_colors) = survey(heightmap, colormap);
        let ghost s = scan(*heightmap, *colormap);

        if gen_full_layers_above_height > 0 {
            // Filter heights: keep all heights above gen_full_layers_above_height,
            // and only the highest height at or below gen_full_layers_above_height
            let (filtered_heights, mut sorted_heights) = filter_layer_heights(
                &all_heights,
                &heights,
                gen_full_layers_above_height,
            );
            let ghost f = filtered_heights@;
            if !filtered_heights.is_empty() {
                // Create a sorted vector of filtered heights for consistent ordering
                sort_heights(&mut sorted_heights);
                let ghost sorted = sorted_heights@;
                assert(sorted.len() > 0) by {
                    if sorted.len() == 0 {
                        assert(sorted.to_set() =~= Set::<u32>::empty());
                        assert(f.dom() =~= Set::<u32>::empty());
                        assert(f =~= Map::<u32, [u8; 4]>::empty());
                    }
                }
                // The minimum height caps the first layer
                let min_filtered_height = sorted_heights[0];
                assert(sorted.to_set().contains(sorted[0]));
                let min_color = *filtered_heights.get(&min_filtered_height).unwrap();
                let first_layer_tiles = build_layer(
                    heightmap,
                    colormap,
                    LayerRule::Capped { cap: min_filtered_height, color: min_color },
                );

                // Create additional layers for remaining heights
                let mut height_layers: Vec<Vec<Tile>> = Vec::new();
                let mut j: usize = 1;
                while j < sorted_heights.len()
                    invariant
                        1 <= j <= sorted.len(),
                        sorted_heights@ == sorted,
                        sorted.to_set() == f.dom(),
                        filtered_heights@ == f,
                        height_layers@.len() + 1 == j,
                        forall|i: int|
                            0 <= i < height_layers@.len() ==> {
                                &&& (#[trigger] height_layers@[i])@.len() == heightmap.spec_width() as int * heightmap.spec_height() as int
                                &&& tiles_sane(height_layers@[i]@)
                            },
                        colormap.spec_width() == heightmap.spec_width(),
                        colormap.spec_height() == heightmap.spec_height(),
                        grid_fits(heightmap.spec_width(), heightmap.spec_height()),
                        forall|c: [u8; 4]| height_0_colors@.contains(color_key(c)) <==> #[trigger] zero_colors(s).contains(c),
                        forall|i: int|
                            0 <= i < height_layers@.len() ==> fresh_layer(
                                (#[trigger] height_layers@[i])@,
                                *heightmap,
                                *colormap,
                                LayerRule::Fill {
                                    level: sorted[i + 1],
                                    color: f[sorted[i + 1]],
                                    lake: zero_colors(s).contains(f[sorted[i + 1]]),
                                },
                            ),
                    decreases sorted.len() - j,
                {
                    let layer_height = sorted_heights[j];
                    assert(sorted.to_set().contains(sorted[j as int]));
                    let layer_color = *filtered_heights.get(&layer_height).unwrap();
                    let is_lake = height_0_colors.contains(&color_key_of(layer_color));
                    let layer_tiles = build_layer(
                        heightmap,
                        colormap,
                        LayerRule::Fill { level: layer_height, color: layer_color, lake: is_lake },
                    );
                    proof {
                        lemma_fresh_layer_sane(layer_tiles@, *heightmap, *colormap, LayerRule::Fill { level: layer_height, color: layer_color, lake: is_lake });
                    }
                    height_layers.push(layer_tiles);
                    j += 1;
                }
                proof {
                    lemma_fresh_layer_sane(first_layer_tiles@, *heightmap, *colormap, LayerRule::Capped { cap: min_filtered_height, color: min_color });
                }
                let q = QuadTree {
                    tiles: first_layer_tiles,
                    height_layers,
                    sorted_heights,
                    height_0_colors,
                    filtered_heights,
                    width,
                    height,
                };
                proof {
                    assert(q.spec_zero_colors() =~= zero_colors(s));
                    assert(q.spec_layers().len() == height_layers@.len());
                }
                return Ok(q);
            }
        }
        // Without fill layers: one plain layer of the cells as they are
        let tiles = build_layer(heightmap, colormap, LayerRule::Plain);
        proof {
            lemma_fresh_layer_sane(tiles@, *heightmap, *colormap, LayerRule::Plain);
        }
        let q = QuadTree {
            tiles,
            height_layers: Vec::new(),
            sorted_heights: Vec::new(),
            height_0_colors: HashSet::new(),
            filtered_heights: HashMap::new(),
            width,
            height,
        };
        proof {
            assert(q.spec_zero_colors() =~= Set::<[u8; 4]>::empty());
            assert(q.spec_layers() =~= Seq::<Seq<Tile>>::empty());
        }
        Ok(q)
    }

    // convert quadtree state into bricks
    pub fn into_bricks(&self, options: GenOptions, width: u32, height: u32) -> (r: Vec<Brick>)
        requires
            self.wf(),
            bricks_ok(*self, options, width, height),
        ensures
            r@ == stacked_bricks(*self, self.spec_layers().len() as int, options, width, height),
    {
        broadcast use vstd::std_specs::hash::group_hash_axioms;

        let mut all_bricks = Self::tiles_to_bricks(&self.tiles, &options, 0, width, height);

        // Each height layer stacks a solid fill for its band. The height
        // adjustment subtracts the height of the layer below so the fill only
        // spans the gap; lake layers reference the layer below the water.
        let mut i: usize = 0;
        while i < self.height_layers.len()
            invariant
                i <= self.height_layers@.len(),
                bricks_ok(*self, options, width, height),
                self.height_layers@.len() + 1 == self.sorted_heights@.len() || (
                self.sorted_heights@.len() == 0 && self.height_layers@.len() == 0),
                all_bricks@ == stacked_bricks(*self, i as int, options, width, height),
            decreases self.height_layers@.len() - i,
        {
            let height_adjustment = if self.sorted_heights.is_empty() {
                0
            } else if i < self.sorted_heights.len() {
                let current_height = self.sorted_heights[i];
                match self.filtered_heights.get(&current_height) {
                    Some(color) if self.height_0_colors.contains(&color_key_of(*color)) => {
                        // lake/water layer: fill down to the layer below it
                        if i > 0 {
                            self.sorted_heights[i - 1]
                        } else {
                            0
                        }
                    },
                    _ => self.sorted_heights[i],
                }
            } else {
                self.sorted_heights[i]
            };
            assert(height_adjustment == layer_adjustment(
                self.spec_sorted_heights(),
                self.spec_filtered(),
                self.spec_zero_colors(),
                i as int,
            ));
            assert(self.spec_layers()[i as int] == self.height_layers@[i as int]@);
            let mut layer = Self::tiles_to_bricks(
                &self.height_layers[i],
                &options,
                height_adjustment,
                width,
                height,
            );
            all_bricks.append(&mut layer);
            i += 1;
        }
        all_bricks
    }

    // merge tiles that are arranged in a line
    fn merge_line(tiles: &mut Vec<Tile>, start_i: usize, children: Vec<usize>)
        requires
            start_i < old(tiles)@.len(),
            forall|c: int| 0 <= c < children@.len() ==> #[trigger] children@[c] < old(tiles)@.len() && children@[c] != start_i,
            tiles_sane(old(tiles)@),
            merge_line_ok(views(old(tiles)@), start_i as int, children@.map_values(|i: usize| i as int)),
        ensures
            final(tiles)@.len() == old(tiles)@.len(),
            tiles_sane(final(tiles)@),
            views(final(tiles)@) == merge_line_view(
                views(old(tiles)@),
                start_i as int,
                children@.map_values(|i: usize| i as int),
            ),
    {
        // there is nothing to merge, return
        if children.is_empty() {
            return ;
        }
        let ghost v0 = views(tiles@);
        let ghost kids = children@.map_values(|i: usize| i as int);
        let ghost n = tiles@.len();

        // determine direction of this merge
        let is_vertical = tiles[children[0]].center.0 == tiles[start_i].center.0;
        assert(is_vertical == line_vertical(v0, start_i as int, kids));

        // determine the new size of the parent tile, make children point at the parent
        let mut new_size: u32 = 0;
        let mut c: usize = 0;
        proof {
            assert(kids.take(0) =~= Seq::<int>::empty());
            assert forall|j: int| 0 <= j < n implies (#[trigger] tiles@[j])@ == v0[j] && tiles@[j].neighbors@.no_duplicates() by {
                assert(tiles_sane(tiles@));
                assert(tiles@[j].size.0 >= 1);
            }
        }
        while c < children.len()
            invariant
                c <= children@.len(),
                n == tiles@.len(),
                kids == children@.map_values(|i: usize| i as int),
                start_i < n,
                forall|d: int| 0 <= d < children@.len() ==> #[trigger] children@[d] < n && children@[d] != start_i,
                merge_line_ok(v0, start_i as int, kids),
                is_vertical == line_vertical(v0, start_i as int, kids),
                new_size == line_extent(v0, kids.take(c as int), is_vertical),
                tiles_sane(tiles@),
                forall|j: int| 0 <= j < n ==> {
                    &&& (#[trigger] tiles@[j])@.parent == if kids.take(c as int).contains(j) {
                        Some(start_i)
                    } else {
                        v0[j].parent
                    }
                    &&& tiles@[j]@ == TileView { parent: tiles@[j]@.parent, ..v0[j] }
                    &&& tiles@[j].neighbors@.no_duplicates()
                },
            decreases children@.len() - c,
        {
            let i = children[c];
            let ghost before = tiles@;
            tiles[i].parent = Some(start_i);
            proof {
                assert(kids.take(c + 1) =~= kids.take(c as int).push(i as int));
                assert(kids.take(c + 1).drop_last() =~= kids.take(c as int));
                assert(line_extent_ok(v0, kids, is_vertical));
                lemma_extent_prefix_ok(v0, kids, is_vertical, c + 1);
                assert forall|j: int| 0 <= j < n implies kids.take(c + 1).contains(j) == (kids.take(c as int).contains(j) || j == i) by {
                    let p = kids.take(c as int);
                    let q = kids.take(c + 1);
                    if p.contains(j) {
                        let e = choose|e: int| 0 <= e < p.len() && p[e] == j;
                        assert(q[e] == j);
                    }
                    if q.contains(j) && j != i {
                        let e = choose|e: int| 0 <= e < q.len() && q[e] == j;
                        assert(p[e] == j);
                    }
                    assert(q[c as int] == i);
                }
                assert forall|t: int| 0 <= t < tiles@.len() implies {
                    &&& #[trigger] tiles@[t].size.0 >= 1
                    &&& tiles@[t].size.1 >= 1
                    &&& tiles@[t].neighbors@.no_duplicates()
                } by {
                    assert(before[t].size.0 >= 1);
                }
            }
            // sum size depending on merge direction
            new_size = new_size + if is_vertical {
                tiles[i].size.1
            } else {
                tiles[i].size.0
            };
            c += 1;
        }
        assert(kids.take(children@.len() as int) =~= kids);

        // the parent takes in the neighbors of its children
        let mut acc: Vec<u32> = Vec::new();
        std::mem::swap(&mut acc, &mut tiles[start_i].neighbors);
        let ghost base = acc@.to_set();
        assert(base == v0[start_i as int].neighbors);
        let mut c: usize = 0;
        while c < children.len()
            invariant
                c <= children@.len(),
                n == tiles@.len(),
                kids == children@.map_values(|i: usize| i as int),
                start_i < n,
                forall|d: int| 0 <= d < children@.len() ==> #[trigger] children@[d] < n && children@[d] != start_i,
                forall|j: int| 0 <= j < n && j != start_i ==> (#[trigger] tiles@[j]).neighbors@.to_set() == v0[j].neighbors,
                acc@.no_duplicates(),
                acc@.to_set() == base + line_neighbors(v0, kids.take(c as int)),
            decreases children@.len() - c,
        {
            let i = children[c];
            extend_unique(&mut acc, &tiles[i].neighbors);
            assert(kids.take(c + 1).drop_last() =~= kids.take(c as int));
            assert(acc@.to_set() =~= base + line_neighbors(v0, kids.take(c + 1)));
            c += 1;
        }
        std::mem::swap(&mut acc, &mut tiles[start_i].neighbors);

        // add the size to its respective dimension
        if is_vertical {
            tiles[start_i].size.1 = tiles[start_i].size.1 + new_size;
        } else {
            tiles[start_i].size.0 = tiles[start_i].size.0 + new_size;
        }
        proof {
            let target = merge_line_view(v0, start_i as int, kids);
            assert forall|j: int| 0 <= j < n implies views(tiles@)[j] == target[j] by {
                if j != start_i && kids.contains(j) {
                }
            }
            assert(views(tiles@) =~= target);
        }
    }

    // optimize bricks with size (level+1)
    pub fn quad_optimize_level(&mut self, level: u32) -> (count: usize)
        requires
            old(self).wf(),
            quad_optimize_ok(*old(self), level),
        ensures
            final(self).wf(),
            level_result(*old(self), *final(self), level, count as int),
            tree_roots(*final(self)) + count == tree_roots(*old(self)),
            keeps_layers(*old(self), *final(self)),
    {
        let space = pow2_u32(level);
        let step_amt = space as usize * 2;
        let ghost w = self.width as int;
        let ghost h = self.height as int;
        let ghost s = space as int;
        let ghost old_layers = self.spec_layers();
        let ghost old_tiles = self.tiles@;
        let ghost base = quad_pass(views(self.tiles@), w, h, s, 0).1;
        proof {
            assert forall|j: int| 0 <= j < old_layers.len() implies #[trigger] old_layers[j].len() == w * h by {
                assert(old_layers[j] == self.height_layers@[j]@);
            }
        }
        proof {
            lemma_quad_counts_prefix(old_layers, w, h, s, 0);
            vstd::arithmetic::power2::lemma_pow2_pos(level as nat);
        }
        let mut count = Self::quad_optimize_tiles(&mut self.tiles, self.width, self.height, space, step_amt);
        let ghost tiles_after = self.tiles@;
        let ghost sorted = self.sorted_heights@;
        let ghost filtered = self.filtered_heights@;
        let ghost zeros = self.height_0_colors@;
        let ghost width = self.width;
        let ghost height = self.height;
        let mut i: usize = 0;
        while i < self.height_layers.len()
            invariant
                i <= self.height_layers@.len(),
                self.tiles@ == tiles_after,
                self.sorted_heights@ == sorted,
                self.filtered_heights@ == filtered,
                self.height_0_colors@ == zeros,
                self.width == width,
                self.height == height,
                self.height_layers@.len() == old_layers.len(),
                w == self.width,
                h == self.height,
                s == space,
                s >= 1,
                step_amt == 2 * s,
                s <= w,
                w > s ==> s <= h,
                w * h <= u32::MAX,
                forall|j: int|
                    0 <= j < self.height_layers@.len() ==> {
                        &&& (#[trigger] self.height_layers@[j])@.len() == w * h
                        &&& tiles_sane(self.height_layers@[j]@)
                    },
                forall|j: int|
                    i <= j < self.height_layers@.len() ==> (#[trigger] self.height_layers@[j])@ == old_layers[j],
                forall|j: int|
                    0 <= j < i ==> views((#[trigger] self.height_layers@[j])@) == quad_pass(views(old_layers[j]), w, h, s, 0).0,
                forall|j: int|
                    0 <= j < old_layers.len() ==> quad_pass(views(#[trigger] old_layers[j]), w, h, s, 0).2,
                count == base + quad_counts(old_layers.take(i as int), w, h, s),
                base + quad_counts(old_layers, w, h, s) <= usize::MAX,
            decreases self.height_layers@.len() - i,
        {
            proof {
                lemma_quad_counts_prefix(old_layers, w, h, s, i + 1);
                assert(old_layers.take(i + 1).drop_last() =~= old_layers.take(i as int));
                assert(self.height_layers@[i as int]@ == old_layers[i as int]);
            }
            let c = Self::quad_optimize_tiles(&mut self.height_layers[i], self.width, self.height, space, step_amt);
            count += c;
            i += 1;
        }
        proof {
            assert(old_layers.take(i as int) =~= old_layers);
            assert forall|j: int| 0 <= j < self.spec_layers().len() implies #[trigger] self.spec_layers()[j] == self.height_layers@[j]@ by {
            }
            lemma_quad_pass_roots(views(old_tiles), w, h, s, 0);
            assert forall|j: int| 0 <= j < old_layers.len() implies root_count(views(#[trigger] self.spec_layers()[j])) + quad_pass(
                views(old_layers[j]),
                w,
                h,
                s,
                0,
            ).1 == root_count(views(old_layers[j])) by {
                assert(old_layers[j].len() == w * h);
                lemma_quad_pass_roots(views(old_layers[j]), w, h, s, 0);
            }
            lemma_layers_quad_roots(old_layers, self.spec_layers(), w, h, s);
            lemma_quad_pass_keeps(views(old_tiles), w, h, s, 0);
            assert forall|j: int| 0 <= j < old_layers.len() implies keeps_tiles(
                views(old_layers[j]),
                views(#[trigger] self.spec_layers()[j]),
            ) by {
                assert(old_layers[j].len() == w * h);
                lemma_quad_pass_keeps(views(old_layers[j]), w, h, s, 0);
            }
        }
        count
    }

    fn quad_optimize_tiles(
        tiles: &mut Vec<Tile>,
        width: u32,
        height: u32,
        space: u32,
        step_amt: usize,
    ) -> (count: usize)
        requires
            old(tiles)@.len() == width as int * height as int,
            width as int * height as int <= u32::MAX,
            tiles_sane(old(tiles)@),
            space >= 1,
            step_amt == 2 * space,
            space <= width,
            width > space ==> space <= height,
            quad_pass(views(old(tiles)@), width as int, height as int, space as int, 0).2,
            quad_pass(views(old(tiles)@), width as int, height as int, space as int, 0).1
                <= usize::MAX,
        ensures
            final(tiles)@.len() == old(tiles)@.len(),
            tiles_sane(final(tiles)@),
            views(final(tiles)@) == quad_pass(
                views(old(tiles)@),
                width as int,
                height as int,
                space as int,
                0,
            ).0,
            count == quad_pass(views(old(tiles)@), width as int, height as int, space as int, 0).1,
    {
        let ghost w = width as int;
        let ghost h = height as int;
        let ghost s = space as int;
        let ghost total = quad_pass(views(tiles@), w, h, s, 0);
        let mut count: usize = 0;
        let x_end = width - space;
        let mut x: u64 = 0;
        while x < x_end as u64
            invariant
                w == width,
                h == height,
                s == space,
                s >= 1,
                step_amt == 2 * s,
                x_end == w - s,
                x <= w + s,
                w * h <= u32::MAX,
                w > s ==> s <= h,
                tiles@.len() == w * h,
                tiles_sane(tiles@),
                quad_pass(views(tiles@), w, h, s, x as int).0 == total.0,
                count + quad_pass(views(tiles@), w, h, s, x as int).1 == total.1,
                quad_pass(views(tiles@), w, h, s, x as int).2,
                total.1 <= usize::MAX,
            decreases w + s - x,
        {
            let ghost cnt_x = count as int;
            let ghost col = quad_column(views(tiles@), h, s, x as int, 0);
            let ghost after = quad_pass(col.0, w, h, s, x + 2 * s);
            proof {
                lemma_quad_pass_nonneg(col.0, w, h, s, x + 2 * s);
            }
            let y_end = height - space;
            let mut y: u64 = 0;
            while y < y_end as u64
                invariant
                    w == width,
                    h == height,
                    s == space,
                    s >= 1,
                    step_amt == 2 * s,
                    y_end == h - s,
                    x < w - s,
                    y <= h + s,
                    w * h <= u32::MAX,
                    tiles@.len() == w * h,
                    tiles_sane(tiles@),
                    quad_column(views(tiles@), h, s, x as int, y as int).0 == col.0,
                    count - cnt_x + quad_column(views(tiles@), h, s, x as int, y as int).1 == col.1,
                    quad_column(views(tiles@), h, s, x as int, y as int).2,
                    cnt_x + col.1 + after.1 == total.1,
                    after.1 >= 0,
                    total.1 <= usize::MAX,
                decreases h + s - y,
            {
                let ghost v = views(tiles@);
                let ghost blk = quad_block(v, h, s, x as int, y as int);
                proof {
                    lemma_quad_column_nonneg(blk.0, h, s, x as int, y + 2 * s);
                    assert(0 <= pos(x as int, y as int, h) < w * h && 0 <= pos(x + s, y as int, h) < w * h
                        && 0 <= pos(x as int, y + s, h) < w * h && 0 <= pos(x + s, y + s, h) < w * h)
                        by (nonlinear_arith)
                        requires
                            0 <= x,
                            x + s < w,
                            0 <= y,
                            y + s < h,
                            s >= 1,
                    ;
                    assert(pos(x as int, y as int, h) < pos(x as int, y + s, h) < pos(x + s, y as int, h) < pos(x + s, y + s, h))
                        by (nonlinear_arith)
                        requires
                            0 <= y,
                            y + s < h,
                            s >= 1,
                    ;
                }
                let xi = x as u32;
                let yi = y as u32;
                let tl_i = (yi + xi * height) as usize;
                let tr_i = (yi + (xi + space) * height) as usize;
                let bl_i = (yi + space + xi * height) as usize;
                let br_i = (yi + space + (xi + space) * height) as usize;
                assert(tiles@[tl_i as int]@ == v[tl_i as int]);
                assert(tiles@[tr_i as int]@ == v[tr_i as int]);
                assert(tiles@[bl_i as int]@ == v[bl_i as int]);
                assert(tiles@[br_i as int]@ == v[br_i as int]);

                // if these are not similar tiles, skip them
                if tiles[tl_i].size.0 != space || !tiles[tl_i].similar_quad(&tiles[tr_i])
                    || !tiles[tl_i].similar_quad(&tiles[bl_i]) || !tiles[tl_i].similar_quad(
                    &tiles[br_i],
                ) {
                    assert(!block_merges(v, h, s, x as int, y as int));
                    y += step_amt as u64;
                    continue;
                }
                assert(block_merges(v, h, s, x as int, y as int));

                count += 3;

                // merge the tiles into the first one
                let ghost before = tiles@;
                let mut top_right = Tile::placeholder();
                let mut bottom_left = Tile::placeholder();
                let mut bottom_right = Tile::placeholder();
                std::mem::swap(&mut top_right, &mut tiles[tr_i]);
                std::mem::swap(&mut bottom_left, &mut tiles[bl_i]);
                std::mem::swap(&mut bottom_right, &mut tiles[br_i]);
                assert(tiles@[tl_i as int] == before[tl_i as int]);
                assert(tiles_sane(before));
                assert(before[tl_i as int].neighbors@.no_duplicates());
                tiles[tl_i].merge_quad(&mut top_right, &mut bottom_left, &mut bottom_right);
                std::mem::swap(&mut top_right, &mut tiles[tr_i]);
                std::mem::swap(&mut bottom_left, &mut tiles[bl_i]);
                std::mem::swap(&mut bottom_right, &mut tiles[br_i]);
                proof {
                    let target = merge_block(v, h, s, x as int, y as int);
                    assert forall|j: int| 0 <= j < tiles@.len() implies views(tiles@)[j] == target[j] by {
                        if j != tl_i && j != tr_i && j != bl_i && j != br_i {
                            assert(tiles@[j] == before[j]);
                        }
                    }
                    assert(views(tiles@) =~= target);
                    assert forall|t: int| 0 <= t < tiles@.len() implies {
                        &&& #[trigger] tiles@[t].size.0 >= 1
                        &&& tiles@[t].size.1 >= 1
                        &&& tiles@[t].neighbors@.no_duplicates()
                    } by {
                        assert(before[t].size.0 >= 1);
                        if t != tl_i && t != tr_i && t != bl_i && t != br_i {
                            assert(tiles@[t] == before[t]);
                        }
                    }
                }
                y += step_amt as u64;
            }
            x += step_amt as u64;
        }
        count
    }

    // optimize by nearby bricks in line
    pub fn line_optimize(&mut self, tile_scale: u32) -> (count: usize)
        requires
            old(self).wf(),
            line_optimize_ok(*old(self), tile_scale),
        ensures
            final(self).wf(),
            line_result(*old(self), *final(self), tile_scale, count as int),
            tree_roots(*final(self)) + count == tree_roots(*old(self)),
            keeps_layers(*old(self), *final(self)),
    {
        let ghost w = self.width as int;
        let ghost h = self.height as int;
        let ghost ts = tile_scale as int;
        let ghost old_layers = self.spec_layers();
        let ghost old_tiles = self.tiles@;
        let ghost base = line_pass(views(self.tiles@), w, h, ts, 0).1;
        proof {
            assert forall|j: int| 0 <= j < old_layers.len() implies tiles_sane(#[trigger] old_layers[j]) by {
                assert(old_layers[j] == self.height_layers@[j]@);
            }
        }
        proof {
            lemma_line_counts_prefix(old_layers, w, h, ts, 0);
        }
        let mut count = Self::line_optimize_tiles(&mut self.tiles, self.width, self.height, tile_scale);
        let ghost tiles_after = self.tiles@;
        let ghost sorted = self.sorted_heights@;
        let ghost filtered = self.filtered_heights@;
        let ghost zeros = self.height_0_colors@;
        let ghost width = self.width;
        let ghost height = self.height;
        let mut i: usize = 0;
        while i < self.height_layers.len()
            invariant
                i <= self.height_layers@.len(),
                self.tiles@ == tiles_after,
                self.sorted_heights@ == sorted,
                self.filtered_heights@ == filtered,
                self.height_0_colors@ == zeros,
                self.width == width,
                self.height == height,
                self.height_layers@.len() == old_layers.len(),
                w == self.width,
                h == self.height,
                ts == tile_scale,
                w * h <= u32::MAX,
                forall|j: int|
                    0 <= j < self.height_layers@.len() ==> {
                        &&& (#[trigger] self.height_layers@[j])@.len() == w * h
                        &&& tiles_sane(self.height_layers@[j]@)
                    },
                forall|j: int|
                    i <= j < self.height_layers@.len() ==> (#[trigger] self.height_layers@[j])@ == old_layers[j],
                forall|j: int|
                    0 <= j < i ==> views((#[trigger] self.height_layers@[j])@) == line_pass(views(old_layers[j]), w, h, ts, 0).0,
                forall|j: int|
                    0 <= j < old_layers.len() ==> line_pass(views(#[trigger] old_layers[j]), w, h, ts, 0).2,
                count == base + line_counts(old_layers.take(i as int), w, h, ts),
                base + line_counts(old_layers, w, h, ts) <= usize::MAX,
            decreases self.height_layers@.len() - i,
        {
            proof {
                lemma_line_counts_prefix(old_layers, w, h, ts, i + 1);
                assert(old_layers.take(i + 1).drop_last() =~= old_layers.take(i as int));
                assert(self.height_layers@[i as int]@ == old_layers[i as int]);
            }
            let c = Self::line_optimize_tiles(&mut self.height_layers[i], self.width, self.height, tile_scale);
            count += c;
            i += 1;
        }
        proof {
            assert(old_layers.take(i as int) =~= old_layers);
            assert forall|j: int| 0 <= j < self.spec_layers().len() implies #[trigger] self.spec_layers()[j] == self.height_layers@[j]@ by {
            }
            lemma_sane_sizes(old_tiles);
            lemma_line_pass_roots(views(old_tiles), w, h, ts, 0);
            assert forall|j: int| 0 <= j < old_layers.len() implies root_count(views(#[trigger] self.spec_layers()[j])) + line_pass(
                views(old_layers[j]),
                w,
                h,
                ts,
                0,
            ).1 == root_count(views(old_layers[j])) by {
                lemma_sane_sizes(old_layers[j]);
                lemma_line_pass_roots(views(old_layers[j]), w, h, ts, 0);
            }
            lemma_layers_line_roots(old_layers, self.spec_layers(), w, h, ts);
            lemma_line_pass_keeps(views(old_tiles), w, h, ts, 0);
            assert forall|j: int| 0 <= j < old_layers.len() implies keeps_tiles(
                views(old_layers[j]),
                views(#[trigger] self.spec_layers()[j]),
            ) by {
                lemma_line_pass_keeps(views(old_layers[j]), w, h, ts, 0);
            }
        }
        count
    }

    fn line_optimize_tiles(tiles: &mut Vec<Tile>, width: u32, height: u32, tile_scale: u32) -> (count:
        usize)
        requires
            old(tiles)@.len() == width as int * height as int,
            width as int * height as int <= u32::MAX,
            tiles_sane(old(tiles)@),
            line_pass(views(old(tiles)@), width as int, height as int, tile_scale as int, 0).2,
            line_pass(views(old(tiles)@), width as int, height as int, tile_scale as int, 0).1
                <= usize::MAX,
        ensures
            final(tiles)@.len() == old(tiles)@.len(),
            tiles_sane(final(tiles)@),
            views(final(tiles)@) == line_pass(
                views(old(tiles)@),
                width as int,
                height as int,
                tile_scale as int,
                0,
            ).0,
            count == line_pass(
                views(old(tiles)@),
                width as int,
                height as int,
                tile_scale as int,
                0,
            ).1,
    {
        let ghost w = width as int;
        let ghost h = height as int;
        let ghost ts = tile_scale as int;
        let ghost total = line_pass(views(tiles@), w, h, ts, 0);
        let mut count: usize = 0;
        let mut x: u32 = 0;
        while x < width
            invariant
                x <= width,
                w == width,
                h == height,
                ts == tile_scale,
                w * h <= u32::MAX,
                tiles@.len() == w * h,
                tiles_sane(tiles@),
                line_pass(views(tiles@), w, h, ts, x * h).0 == total.0,
                count + line_pass(views(tiles@), w, h, ts, x * h).1 == total.1,
                line_pass(views(tiles@), w, h, ts, x * h).2,
                total.1 <= usize::MAX,
            decreases width - x,
        {
            let mut y: u32 = 0;
            while y < height
                invariant
                    x < width,
                    y <= height,
                    w == width,
                    h == height,
                    ts == tile_scale,
                    w * h <= u32::MAX,
                    tiles@.len() == w * h,
                    tiles_sane(tiles@),
                    line_pass(views(tiles@), w, h, ts, x * h + y).0 == total.0,
                    count + line_pass(views(tiles@), w, h, ts, x * h + y).1 == total.1,
                    line_pass(views(tiles@), w, h, ts, x * h + y).2,
                    total.1 <= usize::MAX,
                decreases height - y,
            {
                let ghost k = x * h + y;
                let ghost v = views(tiles@);
                proof {
                    assert(0 <= x * h <= k < w * h) by (nonlinear_arith)
                        requires
                            k == x * h + y,
                            0 <= x < w,
                            0 <= y < h,
                    ;
                    vstd::arithmetic::div_mod::lemma_fundamental_div_mod_converse(k, h, x as int, y as int);
                    lemma_line_pass_nonneg(line_step(v, w, h, ts, k).0, w, h, ts, k + 1);
                }
                let start_i = (y + x * height) as usize;
                assert(start_i == k);
                let ghost step = line_step(v, w, h, ts, k);
                assert(line_pass(v, w, h, ts, k).0 == line_pass(step.0, w, h, ts, k + 1).0);
                if tiles[start_i].parent.is_some() {
                    y += 1;
                    continue;
                }
                let ghost s = v[k];
                let ghost lines = lines_at(v, w, h, ts, k);
                let start = &tiles[start_i];
                let shift = start.size;
                let mut sx = shift.0;
                let mut horiz_tiles: Vec<usize> = Vec::new();
                assert(tiles@[k]@ == s);

                // determine longest horizontal merge
                while x + sx < width
                    invariant
                        x < width,
                        y < height,
                        w == width,
                        h == height,
                        ts == tile_scale,
                        w * h <= u32::MAX,
                        tiles@.len() == w * h,
                        v == views(tiles@),
                        start@ == s,
                        horiz_tiles@.map_values(|i: usize| i as int) + scan_right(
                            v,
                            s,
                            x as int,
                            y as int,
                            w,
                            h,
                            ts,
                            sx as int,
                        ).0 == lines.0.0,
                        scan_right(v, s, x as int, y as int, w, h, ts, sx as int).1,
                    ensures
                        horiz_tiles@.map_values(|i: usize| i as int) == lines.0.0,
                    decreases if x + sx < width {
                        width - x - sx
                    } else {
                        0
                    },
                {
                    proof {
                        assert(0 <= (x + sx) * h + y < w * h) by (nonlinear_arith)
                            requires
                                0 <= x + sx < w,
                                0 <= y < h,
                        ;
                    }
                    let i = (y + (x + sx) * height) as usize;
                    let t = &tiles[i];
                    assert(t@ == v[i as int]);
                    if (sx + t.size.0) * tile_scale > 500 || !start.similar_line(t) {
                        break;
                    }
                    let ghost before = horiz_tiles@;
                    horiz_tiles.push(i);
                    sx += t.size.0;
                    proof {
                        assert(horiz_tiles@.map_values(|i: usize| i as int) =~= before.map_values(|i: usize| i as int).push(i as int));
                        let r = scan_right(v, s, x as int, y as int, w, h, ts, sx as int);
                        assert(horiz_tiles@.map_values(|i: usize| i as int) + r.0 =~= before.map_values(|i: usize| i as int) + (seq![i as int] + r.0));
                    }
                }

                // determine longest vertical merge
                let mut sy = shift.1;
                let mut vert_tiles: Vec<usize> = Vec::new();
                while y + sy < height
                    invariant
                        x < width,
                        y < height,
                        w == width,
                        h == height,
                        ts == tile_scale,
                        w * h <= u32::MAX,
                        tiles@.len() == w * h,
                        v == views(tiles@),
                        start@ == s,
                        vert_tiles@.map_values(|i: usize| i as int) + scan_down(
                            v,
                            s,
                            x as int,
                            y as int,
                            w,
                            h,
                            ts,
                            sy as int,
                        ).0 == lines.1.0,
                        scan_down(v, s, x as int, y as int, w, h, ts, sy as int).1,
                    ensures
                        vert_tiles@.map_values(|i: usize| i as int) == lines.1.0,
                    decreases if y + sy < height {
                        height - y - sy
                    } else {
                        0
                    },
                {
                    proof {
                        assert(0 <= x * h + y + sy < w * h) by (nonlinear_arith)
                            requires
                                0 <= x < w,
                                0 <= y + sy < h,
                        ;
                    }
                    let i = (y + sy + x * height) as usize;
                    let t = &tiles[i];
                    assert(t@ == v[i as int]);
                    if (sy + t.size.1) * tile_scale > 500 || !start.similar_line(t) {
                        break;
                    }
                    let ghost before = vert_tiles@;
                    vert_tiles.push(i);
                    sy += t.size.1;
                    proof {
                        assert(vert_tiles@.map_values(|i: usize| i as int) =~= before.map_values(|i: usize| i as int).push(i as int));
                        let r = scan_down(v, s, x as int, y as int, w, h, ts, sy as int);
                        assert(vert_tiles@.map_values(|i: usize| i as int) + r.0 =~= before.map_values(|i: usize| i as int) + (seq![i as int] + r.0));
                    }
                }

                proof {
                    assert(tiles_sane(tiles@));
                    assert(tiles@[k].size.0 >= 1);
                    lemma_scan_right_bounds(v, s, x as int, y as int, w, h, ts, s.size.0 as int);
                    lemma_scan_down_bounds(v, s, x as int, y as int, w, h, ts, s.size.1 as int);
                    let hz = horiz_tiles@.map_values(|i: usize| i as int);
                    let vt = vert_tiles@.map_values(|i: usize| i as int);
                    assert forall|c: int| 0 <= c < horiz_tiles@.len() implies #[trigger] horiz_tiles@[c] < tiles@.len() && horiz_tiles@[c] != start_i by {
                        assert(hz[c] == horiz_tiles@[c]);
                    }
                    assert forall|c: int| 0 <= c < vert_tiles@.len() implies #[trigger] vert_tiles@[c] < tiles@.len() && vert_tiles@[c] != start_i by {
                        assert(vt[c] == vert_tiles@[c]);
                    }
                }
                count += if horiz_tiles.len() >= vert_tiles.len() {
                    horiz_tiles.len()
                } else {
                    vert_tiles.len()
                };

                // merge whichever is largest
                Self::merge_line(
                    tiles,
                    start_i,
                    if horiz_tiles.len() > vert_tiles.len() {
                        horiz_tiles
                    } else {
                        vert_tiles
                    },
                );
                y += 1;
            }
            assert(x * h + h == (x + 1) * h) by (nonlinear_arith);
            x += 1;
        }
        count
    }

    /// The bricks of a layer of tiles over a `width` by `height` map, centered
    /// by whole tiles.
    fn tiles_to_bricks(
        tiles: &Vec<Tile>,
        options: &GenOptions,
        height_adjustment: u32,
        width: u32,
        height: u32,
    ) -> (r: Vec<Brick>)
        requires
            tiles_ok(tiles@, *options, height_adjustment, width, height),
        ensures
            r@ == tiles_bricks(tiles@, *options, height_adjustment, width, height),
    {
        // Center the bricks, but only ever by a whole tile. A tile spans
        // `2 * size` units, so an odd dimension would otherwise put every brick
        // edge off the grid by `size`.
        let offset_x = -((width as i32 / 2) * 2 * options.size as i32);
        let offset_y = -((height as i32 / 2) * 2 * options.size as i32);

        // Fill layers (adjustment > 0) are lifted slightly so stacked layers
        // sit flush instead of z-fighting / floating.
        let pos_adjust: i32 = if height_adjustment == 0 {
            0
        } else {
            4
        };

        let ghost ox = center_offset(width, options.size);
        let ghost oy = center_offset(height, options.size);
        let mut out: Vec<Brick> = Vec::new();
        let mut i: usize = 0;
        while i < tiles.len()
            invariant
                i <= tiles@.len(),
                offset_x == ox,
                offset_y == oy,
                pos_adjust == crate::opt::layout::pos_adjust(height_adjustment),
                tiles_ok(tiles@, *options, height_adjustment, width, height),
                out@ == layer_bricks(tiles@.take(i as int), *options, height_adjustment, ox, oy),
                ox == center_offset(width, options.size),
                oy == center_offset(height, options.size),
            decreases tiles@.len() - i,
        {
            assert(tile_ok(tiles@[i as int], *options, height_adjustment, ox, oy));
            push_tile_bricks(&mut out, &tiles[i], options, height_adjustment, pos_adjust, offset_x, offset_y);
            assert(tiles@.take(i + 1).drop_last() =~= tiles@.take(i as int));
            i += 1;
        }
        assert(tiles@.take(i as int) =~= tiles@);
        out
    }
}

} // verus!
