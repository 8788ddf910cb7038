//! Where the bricks of a tile go: the columns of bricks that fill a tile
//! from the layer below up to its height.
use vstd::prelude::*;

use crate::brick::{Brick, BrickSize, Collision, Color, Material, Position};
use crate::opt::quad::{in_i32, max_int, min_int, tdiv, trem, Tile};
use crate::util::GenOptions;

verus! {

/// Height step of bricks: 5 for stud bricks, 2 otherwise.
pub open spec fn height_step(stud: bool) -> int {
    if stud {
        5
    } else {
        2
    }
}

/// Height of the next brick of a column that has `desired` units left to
/// fill: at least one step, at most 250, then raised by its own remainder.
pub open spec fn piece_height(desired: int, stud: bool) -> int {
    let k = height_step(stud);
    let c = min_int(max_int(desired, k), 250);
    c + c % k
}

/// Each brick of a column is between one step and 254 units high.
pub proof fn lemma_piece_height(desired: int, stud: bool)
    ensures
        height_step(stud) <= piece_height(desired, stud) <= 254,
{
    let k = height_step(stud);
    let c = min_int(max_int(desired, k), 250);
    assert(0 <= c % k < k);
}

/// `dim / 2 * 2 * size` as `i32` arithmetic computes it, before negation.
pub open spec fn half_span(dim: u32, size: u16) -> int {
    tdiv((dim as i32) as int, 2) * 2 * size
}

/// Shift that centers `dim` tiles of half-extent `size`, by whole tiles only.
pub open spec fn center_offset(dim: u32, size: u16) -> int {
    -half_span(dim, size)
}

/// The centering shift is computed without overflow.
pub open spec fn center_offset_ok(dim: u32, size: u16) -> bool {
    in_i32(half_span(dim, size)) && in_i32(-half_span(dim, size))
}

/// Fill layers (adjustment above zero) are lifted by four units.
pub open spec fn pos_adjust(height_adjustment: u32) -> int {
    if height_adjustment == 0 {
        0
    } else {
        4
    }
}

/// A tile that yields no bricks: merged into another one, or culled as
/// fully transparent.
pub open spec fn skipped(t: Tile, o: GenOptions) -> bool {
    t.parent is Some || o.cull && t.color[3] == 0
}

/// Center coordinate of a tile's bricks along one axis, before the shift.
pub open spec fn axis_center(corner: u32, extent: u32, size: u16) -> int {
    ((corner as i32) * 2 + (extent as i32)) * size
}

/// The axis center is computed without overflow.
pub open spec fn axis_center_ok(corner: u32, extent: u32, size: u16, offset: int) -> bool {
    &&& in_i32((corner as i32) * 2)
    &&& in_i32((corner as i32) * 2 + (extent as i32))
    &&& in_i32(axis_center(corner, extent, size))
    &&& in_i32(axis_center(corner, extent, size) + offset)
}

/// The brick of height `hu` whose top lies at `z`.
pub open spec fn column_brick(
    t: Tile,
    o: GenOptions,
    pa: int,
    offx: int,
    offy: int,
    z: int,
    hu: int,
) -> Brick {
    Brick {
        asset: o.asset,
        size: BrickSize {
            x: ((t.size.0 as u16) * o.size) as u16,
            y: ((t.size.1 as u16) * o.size) as u16,
            z: if o.img && o.micro {
                o.size
            } else if hu >= pa {
                (hu - pa) as u16
            } else {
                0
            },
        },
        position: Position {
            x: (axis_center(t.center.0, t.size.0, o.size) + offx) as i32,
            y: (axis_center(t.center.1, t.size.1, o.size) + offy) as i32,
            z: if o.img {
                0
            } else {
                (z - hu + pa) as i32
            },
        },
        collision: Collision {
            player: !o.nocollide,
            weapon: !o.nocollide,
            interact: !o.nocollide,
            tool: !o.nocollide,
        },
        color: Color { r: t.color[0], g: t.color[1], b: t.color[2] },
        material: if o.glow {
            Material::Glow
        } else {
            Material::Plastic
        },
        material_intensity: 0,
    }
}

/// The bricks that fill `desired` units below the top `z`, topmost first.
pub open spec fn column(
    t: Tile,
    o: GenOptions,
    pa: int,
    offx: int,
    offy: int,
    z: int,
    desired: int,
) -> Seq<Brick>
    decreases max_int(desired, 0),
{
    if desired <= 0 {
        seq![]
    } else {
        let hu = piece_height(desired, o.stud);
        proof {
            lemma_piece_height(desired, o.stud);
        }
        seq![column_brick(t, o, pa, offx, offy, z, hu)] + column(
            t,
            o,
            pa,
            offx,
            offy,
            z - 2 * hu,
            desired - hu,
        )
    }
}

/// Building `column` stays within `i32`.
pub open spec fn column_ok(o: GenOptions, pa: int, z: int, desired: int) -> bool
    decreases max_int(desired, 0),
{
    desired <= 0 || {
        let hu = piece_height(desired, o.stud);
        proof {
            lemma_piece_height(desired, o.stud);
        }
        &&& (o.img || (in_i32(z - hu) && in_i32(z - hu + pa)))
        &&& in_i32(z - 2 * hu)
        &&& column_ok(o, pa, z - 2 * hu, desired - hu)
    }
}

/// Top of a tile's column before snapping.
pub open spec fn raw_top(t: Tile, o: GenOptions) -> int {
    (((o.scale * t.height) as u32) as i32) as int
}

/// Column height in layer steps: from the layer below up to the tile, at
/// least 2.
pub open spec fn raw_height(t: Tile, adj: u32) -> int {
    max_int((t.height as i32) - (adj as i32) + 1, 2)
}

/// Units to fill before snapping.
pub open spec fn raw_desired(t: Tile, o: GenOptions, adj: u32) -> int {
    max_int(tdiv(raw_height(t, adj) * (o.scale as i32), 2), 2)
}

/// Rounds up to the next multiple of four, as `i32` arithmetic does.
pub open spec fn snap4(v: int) -> int {
    v + trem(4 - trem(v, 4), 4)
}

/// Top of a tile's column.
pub open spec fn tile_top(t: Tile, o: GenOptions) -> int {
    if o.snap {
        snap4(raw_top(t, o))
    } else {
        raw_top(t, o)
    }
}

/// Units of height a tile's column fills.
pub open spec fn tile_desired(t: Tile, o: GenOptions, adj: u32) -> int {
    if o.snap {
        snap4(raw_desired(t, o, adj))
    } else {
        raw_desired(t, o, adj)
    }
}

/// The bricks of one tile.
pub open spec fn tile_bricks(t: Tile, o: GenOptions, adj: u32, offx: int, offy: int) -> Seq<
    Brick,
> {
    if skipped(t, o) {
        seq![]
    } else {
        column(t, o, pos_adjust(adj), offx, offy, tile_top(t, o), tile_desired(t, o, adj))
    }
}

/// Laying out the bricks of one tile stays within the integer types used.
pub open spec fn tile_ok(t: Tile, o: GenOptions, adj: u32, offx: int, offy: int) -> bool {
    skipped(t, o) || {
        &&& o.scale * t.height <= u32::MAX
        &&& in_i32((t.height as i32) - (adj as i32))
        &&& in_i32((t.height as i32) - (adj as i32) + 1)
        &&& in_i32(raw_height(t, adj) * (o.scale as i32))
        &&& (o.snap ==> in_i32(snap4(raw_top(t, o))) && in_i32(snap4(raw_desired(t, o, adj))))
        &&& axis_center_ok(t.center.0, t.size.0, o.size, offx)
        &&& axis_center_ok(t.center.1, t.size.1, o.size, offy)
        &&& (t.size.0 as u16) * o.size <= u16::MAX
        &&& (t.size.1 as u16) * o.size <= u16::MAX
        &&& column_ok(o, pos_adjust(adj), tile_top(t, o), tile_desired(t, o, adj))
    }
}

/// The bricks of a sequence of tiles, in order.
pub open spec fn layer_bricks(
    tiles: Seq<Tile>,
    o: GenOptions,
    adj: u32,
    offx: int,
    offy: int,
) -> Seq<Brick>
    decreases tiles.len(),
{
    if tiles.len() == 0 {
        seq![]
    } else {
        layer_bricks(tiles.drop_last(), o, adj, offx, offy) + tile_bricks(
            tiles.last(),
            o,
            adj,
            offx,
            offy,
        )
    }
}

/// The bricks of a layer of tiles over a `width` by `height` map, centered.
pub open spec fn tiles_bricks(
    tiles: Seq<Tile>,
    o: GenOptions,
    adj: u32,
    width: u32,
    height: u32,
) -> Seq<Brick> {
    layer_bricks(tiles, o, adj, center_offset(width, o.size), center_offset(height, o.size))
}

/// Laying out a layer stays within the integer types used.
pub open spec fn tiles_ok(
    tiles: Seq<Tile>,
    o: GenOptions,
    adj: u32,
    width: u32,
    height: u32,
) -> bool {
    &&& center_offset_ok(width, o.size)
    &&& center_offset_ok(height, o.size)
    &&& forall|i: int|
        0 <= i < tiles.len() ==> #[trigger] tile_ok(
            tiles[i],
            o,
            adj,
            center_offset(width, o.size),
            center_offset(height, o.size),
        )
}

/// The low edges of a brick lie on the tile grid: a whole number of tiles
/// (`2 * size` units) from the origin, along x and along y.
pub open spec fn on_grid(b: Brick, size: u16) -> bool {
    &&& (b.position.x - b.size.x) % (2 * size as int) == 0
    &&& (b.position.y - b.size.y) % (2 * size as int) == 0
}

/// `b` covers the horizontal footprint of the tile `t`.
pub open spec fn footprint(b: Brick, t: Tile, o: GenOptions, offx: int, offy: int) -> bool {
    let c = column_brick(t, o, 0, offx, offy, 0, 0);
    &&& b.position.x == c.position.x
    &&& b.position.y == c.position.y
    &&& b.size.x == c.size.x
    &&& b.size.y == c.size.y
}

/// Every brick of a column covers the tile's footprint.
proof fn lemma_column_footprint(
    t: Tile,
    o: GenOptions,
    pa: int,
    offx: int,
    offy: int,
    z: int,
    desired: int,
)
    ensures
        forall|k: int|
            0 <= k < column(t, o, pa, offx, offy, z, desired).len() ==> footprint(
                #[trigger] column(t, o, pa, offx, offy, z, desired)[k],
                t,
                o,
                offx,
                offy,
            ),
    decreases max_int(desired, 0),
{
    if desired > 0 {
        let hu = piece_height(desired, o.stud);
        lemma_piece_height(desired, o.stud);
        lemma_column_footprint(t, o, pa, offx, offy, z - 2 * hu, desired - hu);
        let rest = column(t, o, pa, offx, offy, z - 2 * hu, desired - hu);
        let all = column(t, o, pa, offx, offy, z, desired);
        assert(all == seq![column_brick(t, o, pa, offx, offy, z, hu)] + rest);
        assert forall|k: int| 0 <= k < all.len() implies footprint(#[trigger] all[k], t, o, offx, offy) by {
            if k > 0 {
                assert(all[k] == rest[k - 1]);
            }
        }
    }
}

/// Every brick of a layer covers the footprint of one of its unskipped
/// tiles.
pub proof fn lemma_layer_footprint(tiles: Seq<Tile>, o: GenOptions, adj: u32, offx: int, offy: int)
    ensures
        forall|k: int|
            0 <= k < layer_bricks(tiles, o, adj, offx, offy).len() ==> exists|i: int|
                0 <= i < tiles.len() && !skipped(tiles[i], o) && footprint(
                    #[trigger] layer_bricks(tiles, o, adj, offx, offy)[k],
                    #[trigger] tiles[i],
                    o,
                    offx,
                    offy,
                ),
    decreases tiles.len(),
{
    if tiles.len() > 0 {
        let init = tiles.drop_last();
        let t = tiles.last();
        lemma_layer_footprint(init, o, adj, offx, offy);
        let front = layer_bricks(init, o, adj, offx, offy);
        let back = tile_bricks(t, o, adj, offx, offy);
        let all = layer_bricks(tiles, o, adj, offx, offy);
        assert(all == front + back);
        if !skipped(t, o) {
            lemma_column_footprint(
                t,
                o,
                pos_adjust(adj),
                offx,
                offy,
                tile_top(t, o),
                tile_desired(t, o, adj),
            );
        }
        assert forall|k: int| 0 <= k < all.len() implies exists|i: int|
            0 <= i < tiles.len() && !skipped(tiles[i], o) && footprint(
                #[trigger] all[k],
                #[trigger] tiles[i],
                o,
                offx,
                offy,
            ) by {
            if k < front.len() {
                assert(all[k] == front[k]);
                let i = choose|i: int|
                    0 <= i < init.len() && !skipped(init[i], o) && footprint(
                        #[trigger] front[k],
                        #[trigger] init[i],
                        o,
                        offx,
                        offy,
                    );
                assert(tiles[i] == init[i]);
            } else {
                assert(all[k] == back[k - front.len()]);
                assert(!skipped(t, o));
                assert(tiles[tiles.len() - 1] == t);
                assert(footprint(back[k - front.len()], t, o, offx, offy));
            }
        }
    }
}

/// The brick of an unskipped tile that `tile_ok` admits, with extents that
/// fit in `u16`, lies on the tile grid of the centered layout.
proof fn lemma_footprint_on_grid(b: Brick, t: Tile, o: GenOptions, adj: u32, width: u32, height: u32)
    requires
        o.size > 0,
        !skipped(t, o),
        t.size.0 <= u16::MAX,
        t.size.1 <= u16::MAX,
        tile_ok(t, o, adj, center_offset(width, o.size), center_offset(height, o.size)),
        footprint(b, t, o, center_offset(width, o.size), center_offset(height, o.size)),
    ensures
        on_grid(b, o.size),
{
    let size = o.size as int;
    let offx = center_offset(width, o.size);
    let offy = center_offset(height, o.size);
    let cx = (t.center.0 as i32) as int;
    let cy = (t.center.1 as i32) as int;
    let sx = t.size.0 as int;
    let sy = t.size.1 as int;
    assert((t.size.0 as u16) as int == sx);
    assert((t.size.0 as i32) as int == sx);
    assert((t.size.1 as u16) as int == sy);
    assert((t.size.1 as i32) as int == sy);
    let hx = tdiv((width as i32) as int, 2);
    let hy = tdiv((height as i32) as int, 2);
    assert(b.position.x - b.size.x == (cx - hx) * (2 * size)) by (nonlinear_arith)
        requires
            b.position.x == (cx * 2 + sx) * size + offx,
            b.size.x == sx * size,
            offx == -(hx * 2 * size),
    ;
    assert(b.position.y - b.size.y == (cy - hy) * (2 * size)) by (nonlinear_arith)
        requires
            b.position.y == (cy * 2 + sy) * size + offy,
            b.size.y == sy * size,
            offy == -(hy * 2 * size),
    ;
    vstd::arithmetic::div_mod::lemma_mod_multiples_basic(cx - hx, 2 * size);
    vstd::arithmetic::div_mod::lemma_mod_multiples_basic(cy - hy, 2 * size);
}

/// Brick edges lie on the tile grid: centering shifts a layer by whole
/// tiles only, so the low edges of every brick of a centered layer are a
/// whole number of tiles from the origin, for odd map dimensions too.
pub proof fn lemma_layer_on_grid(tiles: Seq<Tile>, o: GenOptions, adj: u32, width: u32, height: u32)
    requires
        o.size > 0,
        tiles_ok(tiles, o, adj, width, height),
        forall|i: int|
            0 <= i < tiles.len() ==> (#[trigger] tiles[i]).size.0 <= u16::MAX && tiles[i].size.1
                <= u16::MAX,
    ensures
        forall|k: int|
            0 <= k < tiles_bricks(tiles, o, adj, width, height).len() ==> on_grid(
                #[trigger] tiles_bricks(tiles, o, adj, width, height)[k],
                o.size,
            ),
{
    let offx = center_offset(width, o.size);
    let offy = center_offset(height, o.size);
    lemma_layer_footprint(tiles, o, adj, offx, offy);
    let all = tiles_bricks(tiles, o, adj, width, height);
    assert forall|k: int| 0 <= k < all.len() implies on_grid(#[trigger] all[k], o.size) by {
        let i = choose|i: int|
            0 <= i < tiles.len() && !skipped(tiles[i], o) && footprint(
                #[trigger] layer_bricks(tiles, o, adj, offx, offy)[k],
                #[trigger] tiles[i],
                o,
                offx,
                offy,
            );
        assert(tile_ok(tiles[i], o, adj, offx, offy));
        lemma_footprint_on_grid(all[k], tiles[i], o, adj, width, height);
    }
}

/// Two columns that fill the same units below the same top have bricks of
/// the same heights at the same levels.
proof fn lemma_columns_match(
    t1: Tile,
    t2: Tile,
    o: GenOptions,
    pa: int,
    offx1: int,
    offy1: int,
    offx2: int,
    offy2: int,
    z: int,
    desired: int,
)
    ensures
        column(t1, o, pa, offx1, offy1, z, desired).len() == column(
            t2,
            o,
            pa,
            offx2,
            offy2,
            z,
            desired,
        ).len(),
        forall|k: int|
            0 <= k < column(t1, o, pa, offx1, offy1, z, desired).len() ==> {
                &&& (#[trigger] column(t1, o, pa, offx1, offy1, z, desired)[k]).size.z == column(
                    t2,
                    o,
                    pa,
                    offx2,
                    offy2,
                    z,
                    desired,
                )[k].size.z
                &&& column(t1, o, pa, offx1, offy1, z, desired)[k].position.z == column(
                    t2,
                    o,
                    pa,
                    offx2,
                    offy2,
                    z,
                    desired,
                )[k].position.z
            },
    decreases max_int(desired, 0),
{
    if desired > 0 {
        let hu = piece_height(desired, o.stud);
        lemma_piece_height(desired, o.stud);
        lemma_columns_match(t1, t2, o, pa, offx1, offy1, offx2, offy2, z - 2 * hu, desired - hu);
        let r1 = column(t1, o, pa, offx1, offy1, z - 2 * hu, desired - hu);
        let r2 = column(t2, o, pa, offx2, offy2, z - 2 * hu, desired - hu);
        let c1 = column(t1, o, pa, offx1, offy1, z, desired);
        let c2 = column(t2, o, pa, offx2, offy2, z, desired);
        assert(c1 == seq![column_brick(t1, o, pa, offx1, offy1, z, hu)] + r1);
        assert(c2 == seq![column_brick(t2, o, pa, offx2, offy2, z, hu)] + r2);
        assert forall|k: int| 0 <= k < c1.len() implies (#[trigger] c1[k]).size.z == c2[k].size.z
            && c1[k].position.z == c2[k].position.z by {
            if k > 0 {
                assert(c1[k] == r1[k - 1]);
                assert(c2[k] == r2[k - 1]);
            }
        }
    }
}

/// A tile's column depends on its height alone, not on its neighbors or
/// where it lies: two tiles of the same height that yield bricks get bricks
/// of the same heights at the same levels.
pub proof fn lemma_column_by_height(
    t1: Tile,
    t2: Tile,
    o: GenOptions,
    adj: u32,
    offx1: int,
    offy1: int,
    offx2: int,
    offy2: int,
)
    requires
        t1.height == t2.height,
        !skipped(t1, o),
        !skipped(t2, o),
    ensures
        tile_bricks(t1, o, adj, offx1, offy1).len() == tile_bricks(t2, o, adj, offx2, offy2).len(),
        forall|k: int|
            0 <= k < tile_bricks(t1, o, adj, offx1, offy1).len() ==> {
                &&& (#[trigger] tile_bricks(t1, o, adj, offx1, offy1)[k]).size.z == tile_bricks(
                    t2,
                    o,
                    adj,
                    offx2,
                    offy2,
                )[k].size.z
                &&& tile_bricks(t1, o, adj, offx1, offy1)[k].position.z == tile_bricks(
                    t2,
                    o,
                    adj,
                    offx2,
                    offy2,
                )[k].position.z
            },
{
    assert(tile_top(t1, o) == tile_top(t2, o));
    assert(tile_desired(t1, o, adj) == tile_desired(t2, o, adj));
    lemma_columns_match(
        t1,
        t2,
        o,
        pos_adjust(adj),
        offx1,
        offy1,
        offx2,
        offy2,
        tile_top(t1, o),
        tile_desired(t1, o, adj),
    );
}

/// Every column fills at least two units.
pub proof fn lemma_tile_desired_pos(t: Tile, o: GenOptions, adj: u32)
    ensures
        tile_desired(t, o, adj) >= 2,
{
    let v = raw_desired(t, o, adj);
    assert(v >= 2);
    assert(0 <= trem(v, 4) < 4);
    assert(0 <= trem(4 - trem(v, 4), 4));
}

/// The column of every unskipped tile is among the bricks of the layer:
/// some brick covers the tile's footprint.
pub proof fn lemma_layer_has_columns(tiles: Seq<Tile>, o: GenOptions, adj: u32, offx: int, offy: int)
    ensures
        forall|i: int|
            0 <= i < tiles.len() && !skipped(#[trigger] tiles[i], o) ==> exists|k: int|
                0 <= k < layer_bricks(tiles, o, adj, offx, offy).len() && footprint(
                    #[trigger] layer_bricks(tiles, o, adj, offx, offy)[k],
                    tiles[i],
                    o,
                    offx,
                    offy,
                ),
    decreases tiles.len(),
{
    if tiles.len() > 0 {
        let init = tiles.drop_last();
        let t = tiles.last();
        lemma_layer_has_columns(init, o, adj, offx, offy);
        let front = layer_bricks(init, o, adj, offx, offy);
        let back = tile_bricks(t, o, adj, offx, offy);
        let all = layer_bricks(tiles, o, adj, offx, offy);
        assert(all == front + back);
        assert forall|i: int| 0 <= i < tiles.len() && !skipped(#[trigger] tiles[i], o) implies exists|k: int|
            0 <= k < all.len() && footprint(#[trigger] all[k], tiles[i], o, offx, offy) by {
            if i < tiles.len() - 1 {
                assert(tiles[i] == init[i]);
                let k = choose|k: int| 0 <= k < front.len() && footprint(#[trigger] front[k], init[i], o, offx, offy);
                assert(all[k] == front[k]);
            } else {
                assert(tiles[i] == t);
                lemma_tile_desired_pos(t, o, adj);
                let d = tile_desired(t, o, adj);
                let hu = piece_height(d, o.stud);
                lemma_piece_height(d, o.stud);
                let z = tile_top(t, o);
                let pa = pos_adjust(adj);
                assert(back == seq![column_brick(t, o, pa, offx, offy, z, hu)] + column(
                    t,
                    o,
                    pa,
                    offx,
                    offy,
                    z - 2 * hu,
                    d - hu,
                ));
                assert(all[front.len() as int] == back[0]);
                assert(footprint(all[front.len() as int], t, o, offx, offy));
            }
        }
    }
}

/// The brick `b` stands over cell `(x, y)` of a map of tiles of half-extent
/// `size` shifted by `offx`, `offy`: its footprint holds the cell's square,
/// `2 * size` units on a side.
pub open spec fn brick_covers(b: Brick, size: u16, offx: int, offy: int, x: int, y: int) -> bool {
    &&& b.position.x - b.size.x <= 2 * size * x + offx
    &&& 2 * size * (x + 1) + offx <= b.position.x + b.size.x
    &&& b.position.y - b.size.y <= 2 * size * y + offy
    &&& 2 * size * (y + 1) + offy <= b.position.y + b.size.y
}

/// Over the tile `t` that `tile_ok` admits, with extents that fit in `u16`
/// and a corner within `i32`, a brick with its footprint stands over exactly
/// the cells that `t` spans.
pub proof fn lemma_footprint_covers(b: Brick, t: Tile, o: GenOptions, adj: u32, offx: int, offy: int, x: int, y: int)
    requires
        o.size > 0,
        !skipped(t, o),
        t.size.0 <= u16::MAX,
        t.size.1 <= u16::MAX,
        t.center.0 <= i32::MAX,
        t.center.1 <= i32::MAX,
        tile_ok(t, o, adj, offx, offy),
        footprint(b, t, o, offx, offy),
    ensures
        brick_covers(b, o.size, offx, offy, x, y) <==> (t.center.0 <= x < t.center.0 + t.size.0
            && t.center.1 <= y < t.center.1 + t.size.1),
{
    let size = o.size as int;
    let cx = t.center.0 as int;
    let cy = t.center.1 as int;
    let sx = t.size.0 as int;
    let sy = t.size.1 as int;
    assert((t.size.0 as u16) as int == sx);
    assert((t.size.0 as i32) as int == sx);
    assert((t.size.1 as u16) as int == sy);
    assert((t.size.1 as i32) as int == sy);
    assert((t.center.0 as i32) as int == cx);
    assert((t.center.1 as i32) as int == cy);
    assert(b.position.x - b.size.x == 2 * size * cx + offx) by (nonlinear_arith)
        requires
            b.position.x == (cx * 2 + sx) * size + offx,
            b.size.x == sx * size,
    ;
    assert(b.position.x + b.size.x == 2 * size * (cx + sx) + offx) by (nonlinear_arith)
        requires
            b.position.x == (cx * 2 + sx) * size + offx,
            b.size.x == sx * size,
    ;
    assert(b.position.y - b.size.y == 2 * size * cy + offy) by (nonlinear_arith)
        requires
            b.position.y == (cy * 2 + sy) * size + offy,
            b.size.y == sy * size,
    ;
    assert(b.position.y + b.size.y == 2 * size * (cy + sy) + offy) by (nonlinear_arith)
        requires
            b.position.y == (cy * 2 + sy) * size + offy,
            b.size.y == sy * size,
    ;
    assert(2 * size * cx <= 2 * size * x <==> cx <= x) by (nonlinear_arith)
        requires
            size > 0,
    ;
    assert(2 * size * (x + 1) <= 2 * size * (cx + sx) <==> x < cx + sx) by (nonlinear_arith)
        requires
            size > 0,
    ;
    assert(2 * size * cy <= 2 * size * y <==> cy <= y) by (nonlinear_arith)
        requires
            size > 0,
    ;
    assert(2 * size * (y + 1) <= 2 * size * (cy + sy) <==> y < cy + sy) by (nonlinear_arith)
        requires
            size > 0,
    ;
}

/// Every brick of a column has the tile's color: red, green and blue are
/// channels 0, 1 and 2 of the tile's color.
proof fn lemma_column_color(t: Tile, o: GenOptions, pa: int, offx: int, offy: int, z: int, desired: int)
    ensures
        forall|k: int|
            0 <= k < column(t, o, pa, offx, offy, z, desired).len() ==> {
                let b = #[trigger] column(t, o, pa, offx, offy, z, desired)[k];
                b.color.r == t.color[0] && b.color.g == t.color[1] && b.color.b == t.color[2]
            },
    decreases max_int(desired, 0),
{
    if desired > 0 {
        let hu = piece_height(desired, o.stud);
        lemma_piece_height(desired, o.stud);
        lemma_column_color(t, o, pa, offx, offy, z - 2 * hu, desired - hu);
        let rest = column(t, o, pa, offx, offy, z - 2 * hu, desired - hu);
        let all = column(t, o, pa, offx, offy, z, desired);
        assert(all == seq![column_brick(t, o, pa, offx, offy, z, hu)] + rest);
        assert forall|k: int| 0 <= k < all.len() implies {
            let b = #[trigger] all[k];
            b.color.r == t.color[0] && b.color.g == t.color[1] && b.color.b == t.color[2]
        } by {
            if k > 0 {
                assert(all[k] == rest[k - 1]);
            }
        }
    }
}

/// Every brick laid out for a tile has the tile's color: red, green and
/// blue are channels 0, 1 and 2 of the tile's color.
pub proof fn lemma_tile_bricks_color(t: Tile, o: GenOptions, adj: u32, offx: int, offy: int)
    ensures
        forall|k: int|
            0 <= k < tile_bricks(t, o, adj, offx, offy).len() ==> {
                let b = #[trigger] tile_bricks(t, o, adj, offx, offy)[k];
                b.color.r == t.color[0] && b.color.g == t.color[1] && b.color.b == t.color[2]
            },
{
    if !skipped(t, o) {
        lemma_column_color(t, o, pos_adjust(adj), offx, offy, tile_top(t, o), tile_desired(t, o, adj));
    }
}

/// Every brick of a layer has the color of an unskipped tile of the layer
/// whose footprint it covers.
pub proof fn lemma_layer_colors(tiles: Seq<Tile>, o: GenOptions, adj: u32, offx: int, offy: int)
    ensures
        forall|k: int|
            0 <= k < layer_bricks(tiles, o, adj, offx, offy).len() ==> exists|i: int|
                0 <= i < tiles.len() && !skipped(tiles[i], o) && footprint(
                    #[trigger] layer_bricks(tiles, o, adj, offx, offy)[k],
                    tiles[i],
                    o,
                    offx,
                    offy,
                ) && layer_bricks(tiles, o, adj, offx, offy)[k].color.r == tiles[i].color[0]
                    && layer_bricks(tiles, o, adj, offx, offy)[k].color.g == tiles[i].color[1]
                    && layer_bricks(tiles, o, adj, offx, offy)[k].color.b == tiles[i].color[2],
    decreases tiles.len(),
{
    if tiles.len() > 0 {
        let init = tiles.drop_last();
        let t = tiles.last();
        lemma_layer_colors(init, o, adj, offx, offy);
        let front = layer_bricks(init, o, adj, offx, offy);
        let back = tile_bricks(t, o, adj, offx, offy);
        let all = layer_bricks(tiles, o, adj, offx, offy);
        assert(all == front + back);
        lemma_tile_bricks_color(t, o, adj, offx, offy);
        if !skipped(t, o) {
            lemma_column_footprint(t, o, pos_adjust(adj), offx, offy, tile_top(t, o), tile_desired(t, o, adj));
        }
        assert forall|k: int| 0 <= k < all.len() implies exists|i: int|
            0 <= i < tiles.len() && !skipped(tiles[i], o) && footprint(#[trigger] all[k], tiles[i], o, offx, offy)
                && all[k].color.r == tiles[i].color[0] && all[k].color.g == tiles[i].color[1]
                && all[k].color.b == tiles[i].color[2] by {
            if k < front.len() {
                assert(all[k] == front[k]);
                let i = choose|i: int|
                    0 <= i < init.len() && !skipped(init[i], o) && footprint(#[trigger] front[k], init[i], o, offx, offy)
                        && front[k].color.r == init[i].color[0] && front[k].color.g == init[i].color[1]
                        && front[k].color.b == init[i].color[2];
                assert(tiles[i] == init[i]);
            } else {
                assert(all[k] == back[k - front.len()]);
                assert(!skipped(t, o));
                assert(tiles[tiles.len() - 1] == t);
                assert(footprint(back[k - front.len()], t, o, offx, offy));
            }
        }
    }
}

/// Every brick of a column has the options' asset, material and collision,
/// and no material intensity.
proof fn lemma_column_fields(t: Tile, o: GenOptions, pa: int, offx: int, offy: int, z: int, desired: int)
    ensures
        forall|k: int|
            0 <= k < column(t, o, pa, offx, offy, z, desired).len() ==> {
                let b = #[trigger] column(t, o, pa, offx, offy, z, desired)[k];
                &&& b.asset == o.asset
                &&& b.material == (if o.glow {
                    Material::Glow
                } else {
                    Material::Plastic
                })
                &&& b.material_intensity == 0
                &&& b.collision.player == !o.nocollide
                &&& b.collision.weapon == !o.nocollide
                &&& b.collision.interact == !o.nocollide
                &&& b.collision.tool == !o.nocollide
                &&& (o.img ==> b.position.z == 0)
                &&& (o.img && o.micro ==> b.size.z == o.size)
            },
    decreases max_int(desired, 0),
{
    if desired > 0 {
        let hu = piece_height(desired, o.stud);
        lemma_piece_height(desired, o.stud);
        lemma_column_fields(t, o, pa, offx, offy, z - 2 * hu, desired - hu);
        let rest = column(t, o, pa, offx, offy, z - 2 * hu, desired - hu);
        let all = column(t, o, pa, offx, offy, z, desired);
        assert(all == seq![column_brick(t, o, pa, offx, offy, z, hu)] + rest);
        assert forall|k: int| 0 <= k < all.len() implies {
            let b = #[trigger] all[k];
            &&& b.asset == o.asset
            &&& b.material == (if o.glow {
                Material::Glow
            } else {
                Material::Plastic
            })
            &&& b.material_intensity == 0
            &&& b.collision.player == !o.nocollide
            &&& b.collision.weapon == !o.nocollide
            &&& b.collision.interact == !o.nocollide
            &&& b.collision.tool == !o.nocollide
            &&& (o.img ==> b.position.z == 0)
            &&& (o.img && o.micro ==> b.size.z == o.size)
        } by {
            if k > 0 {
                assert(all[k] == rest[k - 1]);
            }
        }
    }
}

/// Every brick laid out for a tile has the options' asset, the glow or
/// plastic material as the options ask, no material intensity, and
/// collides exactly when the options do not turn collision off; in image
/// mode it lies at level 0, and microbrick images are cubes of the tile
/// size.
pub proof fn lemma_tile_bricks_fields(t: Tile, o: GenOptions, adj: u32, offx: int, offy: int)
    ensures
        forall|k: int|
            0 <= k < tile_bricks(t, o, adj, offx, offy).len() ==> {
                let b = #[trigger] tile_bricks(t, o, adj, offx, offy)[k];
                &&& b.asset == o.asset
                &&& b.material == (if o.glow {
                    Material::Glow
                } else {
                    Material::Plastic
                })
                &&& b.material_intensity == 0
                &&& b.collision.player == !o.nocollide
                &&& b.collision.weapon == !o.nocollide
                &&& b.collision.interact == !o.nocollide
                &&& b.collision.tool == !o.nocollide
                &&& (o.img ==> b.position.z == 0)
                &&& (o.img && o.micro ==> b.size.z == o.size)
            },
{
    if !skipped(t, o) {
        lemma_column_fields(t, o, pos_adjust(adj), offx, offy, tile_top(t, o), tile_desired(t, o, adj));
    }
}

/// The column of a tile that yields bricks is topped at the tile's height
/// scaled: the first brick's top (center plus half-height) lies at
/// `scale * height`, rounded up to a multiple of four when snapping, in the
/// first layer and in fill layers too (where a brick is not flattened to
/// nothing by the lift); a tile that is merged away or culled as
/// transparent yields none.
pub proof fn lemma_tile_bricks_top(t: Tile, o: GenOptions, adj: u32, offx: int, offy: int)
    requires
        tile_ok(t, o, adj, offx, offy),
        !o.img,
        o.scale * t.height <= i32::MAX,
    ensures
        (t.parent is Some || (o.cull && t.color[3] == 0)) <==> tile_bricks(t, o, adj, offx, offy).len() == 0,
        tile_bricks(t, o, adj, offx, offy).len() > 0 && (adj == 0 || tile_bricks(t, o, adj, offx, offy)[0].size.z > 0) ==> {
            let b = tile_bricks(t, o, adj, offx, offy)[0];
            let top = b.position.z + b.size.z;
            let raw = o.scale * t.height;
            if o.snap {
                &&& top % 4 == 0
                &&& raw <= top < raw + 4
            } else {
                top == raw
            }
        },
{
    if !skipped(t, o) {
        lemma_tile_desired_pos(t, o, adj);
        let d = tile_desired(t, o, adj);
        let hu = piece_height(d, o.stud);
        lemma_piece_height(d, o.stud);
        let z = tile_top(t, o);
        let pa = pos_adjust(adj);
        let bs = tile_bricks(t, o, adj, offx, offy);
        assert(bs == seq![column_brick(t, o, pa, offx, offy, z, hu)] + column(
            t,
            o,
            pa,
            offx,
            offy,
            z - 2 * hu,
            d - hu,
        ));
        assert(bs[0] == column_brick(t, o, pa, offx, offy, z, hu));
        assert(raw_top(t, o) == o.scale * t.height);
        if hu >= pa {
            assert(bs[0].size.z == hu - pa);
            assert(bs[0].position.z == z - hu + pa);
        }
    }
}

/// `r` is `v` rounded up to a multiple of four when `snap`, and `v` itself
/// otherwise.
pub open spec fn rounded(r: int, v: int, snap: bool) -> bool {
    if snap {
        &&& r % 4 == 0
        &&& v <= r < v + 4
    } else {
        r == v
    }
}

/// `c` is a column of bricks topped at `top` that fills `fill` units below
/// it, lifted by `pa`: as many bricks as 250-unit pieces it takes, all but
/// the last 250 units high and stacked one right under the other, the last
/// one the rest, at least one height step (5 for stud bricks, 2 otherwise)
/// and raised by its remainder to that step; each brick's height and center
/// shrink and rise by the lift.
pub open spec fn column_shape(c: Seq<Brick>, top: int, fill: int, pa: int, stud: bool) -> bool {
    let n = c.len() as int;
    let step = height_step(stud);
    let rest = max_int(fill - 250 * (n - 1), step);
    let last = rest + rest % step;
    &&& n >= 1
    &&& 250 * (n - 1) < fill <= 250 * n
    &&& forall|k: int|
        0 <= k < n - 1 ==> (#[trigger] c[k]).size.z == 250 - pa && c[k].position.z == top - 500 * k
            - 250 + pa
    &&& c[n - 1].size.z == (if last >= pa {
        last - pa
    } else {
        0
    })
    &&& c[n - 1].position.z == top - 500 * (n - 1) - last + pa
}

/// The shape of a column, from its top and the units it fills.
proof fn lemma_column_shape(t: Tile, o: GenOptions, pa: int, offx: int, offy: int, z: int, d: int)
    requires
        d > 0,
        !o.img,
        pa == 0 || pa == 4,
        column_ok(o, pa, z, d),
    ensures
        column_shape(column(t, o, pa, offx, offy, z, d), z, d, pa, o.stud),
    decreases d,
{
    let hu = piece_height(d, o.stud);
    lemma_piece_height(d, o.stud);
    let rest = column(t, o, pa, offx, offy, z - 2 * hu, d - hu);
    let c = column(t, o, pa, offx, offy, z, d);
    assert(c == seq![column_brick(t, o, pa, offx, offy, z, hu)] + rest);
    let step = height_step(o.stud);
    if d <= 250 {
        assert(hu >= d);
        assert(rest.len() == 0);
        assert(c.len() == 1);
        assert(max_int(d - 250 * 0, step) == max_int(d, step));
    } else {
        assert(hu == 250);
        lemma_column_shape(t, o, pa, offx, offy, z - 500, d - 250);
        let n = c.len() as int;
        assert(n == rest.len() + 1);
        assert forall|k: int| 0 <= k < n - 1 implies (#[trigger] c[k]).size.z == 250 - pa
            && c[k].position.z == z - 500 * k - 250 + pa by {
            if k > 0 {
                assert(c[k] == rest[k - 1]);
            }
        }
        assert(c[n - 1] == rest[n - 2]);
        assert(d - 250 - 250 * (rest.len() - 1) == d - 250 * (n - 1));
    }
}

/// Rounding up to a multiple of four, as `i32` arithmetic does it on a
/// value that is not negative, rounds.
proof fn lemma_snap4(v: int)
    requires
        v >= 0,
    ensures
        rounded(snap4(v), v, true),
        forall|r: int| #[trigger] rounded(r, v, true) ==> r == snap4(v),
{
}

/// The column of a tile that yields bricks, outside image mode, has the
/// shape of a column topped at `scale * height` (rounded up to a multiple
/// of four when snapping) that fills half of `scale` times the layers from
/// the one below up to the tile's own, at least two of them, and at least
/// two units (rounded up the same way), lifted by four units in fill layers.
pub proof fn lemma_tile_bricks_column(t: Tile, o: GenOptions, adj: u32, offx: int, offy: int)
    requires
        tile_ok(t, o, adj, offx, offy),
        !skipped(t, o),
        !o.img,
        o.scale <= i32::MAX,
        t.height <= i32::MAX,
        adj <= i32::MAX,
        o.scale * t.height <= i32::MAX,
    ensures
        forall|top: int, fill: int|
            #[trigger] rounded(top, o.scale * t.height, o.snap) && #[trigger] rounded(
                fill,
                max_int((max_int(t.height - adj + 1, 2) * o.scale) / 2, 2),
                o.snap,
            ) ==> column_shape(
                tile_bricks(t, o, adj, offx, offy),
                top,
                fill,
                if adj == 0 {
                    0
                } else {
                    4
                },
                o.stud,
            ),
{
    let v = o.scale * t.height;
    assert(raw_top(t, o) == v);
    assert(raw_height(t, adj) == max_int(t.height - adj + 1, 2));
    let rh = raw_height(t, adj);
    assert(rh * o.scale >= 0) by (nonlinear_arith)
        requires
            rh >= 2,
            o.scale >= 0,
    ;
    assert((o.scale as i32) as int == o.scale as int);
    assert(raw_desired(t, o, adj) == max_int((rh * o.scale) / 2, 2));
    lemma_snap4(v);
    lemma_snap4(raw_desired(t, o, adj));
    lemma_tile_desired_pos(t, o, adj);
    lemma_column_shape(t, o, pos_adjust(adj), offx, offy, tile_top(t, o), tile_desired(t, o, adj));
}

} // verus!
