//! The parts of greedy meshing that do not depend on the mesher itself: the
//! planes to mesh, one per distinct height and color, and the bricks that
//! fill each meshed rectangle.
use vstd::prelude::*;

use std::collections::{HashMap, HashSet};

use crate::brick::{Brick, BrickSize, Collision, Color, Material, Position};
use crate::map::{Colormap, Heightmap};
use crate::opt::construct::{color_key, color_key_of, lemma_color_key_injective, sort_keys};
use crate::opt::model::scan;
use crate::opt::layout::{
    center_offset, center_offset_ok, column_shape, height_step, lemma_piece_height, on_grid,
    piece_height,
};
use crate::opt::quad::{in_i32, max_int, tdiv};
use crate::util::GenOptions;

use vstd::arithmetic::div_mod::lemma_fundamental_div_mod_converse;

verus! {

broadcast use vstd::std_specs::hash::group_hash_axioms;

/// A rectangle of a meshed plane: corner `(x, y)`, `w` columns by `h` rows.
#[derive(Clone, Copy, Debug, PartialEq, Eq, Structural)]
pub struct GreedyQuad {
    pub x: u32,
    pub y: u32,
    pub w: u32,
    pub h: u32,
}

/// Whether a cell of height `h` and color `c` is meshed at all: with
/// culling, only cells above ground that are not fully transparent.
pub open spec fn meshed(cull: bool, h: u32, c: [u8; 4]) -> bool {
    !cull || (h > 0 && c[3] > 0)
}

/// A (height, color) pair as one number; pairs order as their keys do:
/// by height, then by the color's channels in turn.
pub open spec fn pair_key(h: u32, c: [u8; 4]) -> u64 {
    (h as int * 0x100000000 + color_key(c) as int) as u64
}

/// The (height, color) pairs of the meshed cells of the map.
pub open spec fn meshed_pairs(hm: Heightmap, cm: Colormap, cull: bool) -> Set<(u32, [u8; 4])> {
    Set::new(
        |p: (u32, [u8; 4])|
            exists|x: int, y: int|
                0 <= x < hm.spec_width() && 0 <= y < hm.spec_height() && #[trigger] hm.spec_at(x, y)
                    == p.0 && cm.spec_at(x, y) == p.1 && meshed(cull, p.0, p.1),
    )
}

/// The key of a pair.
fn pair_key_of(h: u32, c: [u8; 4]) -> (r: u64)
    ensures
        r == pair_key(h, c),
{
    let k = color_key_of(c);
    h as u64 * 0x100000000 + k as u64
}

/// The pair of a key.
fn pair_of_key(k: u64) -> (r: (u32, [u8; 4]))
    ensures
        pair_key(r.0, r.1) == k,
{
    let h = (k / 0x100000000) as u32;
    let rest = (k % 0x100000000) as u32;
    let c0 = (rest / 0x1000000) as u8;
    let c1 = (rest / 0x10000 % 0x100) as u8;
    let c2 = (rest / 0x100 % 0x100) as u8;
    let c3 = (rest % 0x100) as u8;
    (h, [c0, c1, c2, c3])
}

/// Different pairs have different keys, and smaller pairs smaller keys.
pub proof fn lemma_pair_key_injective(h1: u32, c1: [u8; 4], h2: u32, c2: [u8; 4])
    ensures
        pair_key(h1, c1) == pair_key(h2, c2) <==> (h1 == h2 && c1 == c2),
{
    lemma_color_key_injective(c1, c2);
}

/// Keys of the meshed pairs among the first `n` cells of the scan.
pub open spec fn scanned_keys(s: Seq<(u32, [u8; 4])>, cull: bool, n: int) -> Set<u64> {
    Set::new(
        |k: u64|
            exists|j: int|
                0 <= j < n && meshed(cull, s[j].0, s[j].1) && k == pair_key(
                    #[trigger] s[j].0,
                    s[j].1,
                ),
    )
}

/// The distinct (height, color) pairs of the meshed cells, in increasing
/// order: by height, then by color.
pub fn height_color_pairs(hm: &Heightmap, cm: &Colormap, cull: bool) -> (r: Vec<(u32, [u8; 4])>)
    requires
        cm.spec_width() == hm.spec_width(),
        cm.spec_height() == hm.spec_height(),
    ensures
        forall|i: int, j: int|
            0 <= i < j < r@.len() ==> pair_key(r@[i].0, r@[i].1) < pair_key(r@[j].0, r@[j].1),
        forall|p: (u32, [u8; 4])| r@.contains(p) <==> meshed_pairs(*hm, *cm, cull).contains(p),
{
    let (width, height) = hm.size();
    let ghost s = scan(*hm, *cm);
    let ghost h = height as int;
    let mut seen: HashSet<u64> = HashSet::new();
    let mut keys: Vec<u64> = Vec::new();
    let mut x: u32 = 0;
    while x < width
        invariant
            x <= width,
            width == hm.spec_width(),
            height == hm.spec_height(),
            cm.spec_width() == hm.spec_width(),
            cm.spec_height() == hm.spec_height(),
            s == scan(*hm, *cm),
            h == height,
            seen@ == scanned_keys(s, cull, x * h),
            keys@.to_set() == seen@,
            keys@.no_duplicates(),
        decreases width - x,
    {
        let mut y: u32 = 0;
        while y < height
            invariant
                x < width,
                y <= height,
                width == hm.spec_width(),
                height == hm.spec_height(),
                cm.spec_width() == hm.spec_width(),
                cm.spec_height() == hm.spec_height(),
                s == scan(*hm, *cm),
                h == height,
                seen@ == scanned_keys(s, cull, x * h + y),
                keys@.to_set() == seen@,
                keys@.no_duplicates(),
            decreases height - y,
        {
            let ghost k = x * h + y;
            proof {
                assert(0 <= k < width * h) by (nonlinear_arith)
                    requires
                        k == x * h + y,
                        0 <= x < width,
                        0 <= y < h,
                ;
                lemma_fundamental_div_mod_converse(k, h, x as int, y as int);
            }
            let v = hm.at(x, y);
            let c = cm.at(x, y);
            assert(s[k] == (v, c));
            // Only add non-transparent pixels (or all if not culling)
            if !cull || (v > 0 && c[3] > 0) {
                let key = pair_key_of(v, c);
                let ghost before = keys@;
                if seen.insert(key) {
                    keys.push(key);
                    proof {
                        assert(!before.contains(key)) by {
                            if before.contains(key) {
                                assert(before.to_set().contains(key));
                            }
                        }
                        assert forall|a: u64| keys@.to_set().contains(a) <==> before.to_set().insert(key).contains(a) by {
                            assert(keys@.to_set().contains(a) <==> keys@.contains(a));
                            assert(before.to_set().contains(a) <==> before.contains(a));
                            if before.contains(a) {
                                let j = choose|j: int| 0 <= j < before.len() && before[j] == a;
                                assert(keys@[j] == a);
                            }
                            if keys@.contains(a) && a != key {
                                let j = choose|j: int| 0 <= j < keys@.len() && keys@[j] == a;
                                assert(before[j] == a);
                            }
                            assert(keys@[keys@.len() - 1] == key);
                        }
                        assert(keys@.to_set() =~= before.to_set().insert(key));
                    }
                }
            }
            proof {
                assert(scanned_keys(s, cull, k + 1) =~= if meshed(cull, v, c) {
                    scanned_keys(s, cull, k).insert(pair_key(v, c))
                } else {
                    scanned_keys(s, cull, k)
                }) by {
                    assert forall|key: u64| #[trigger] scanned_keys(s, cull, k + 1).contains(key) implies (if meshed(cull, v, c) {
                        scanned_keys(s, cull, k).insert(pair_key(v, c))
                    } else {
                        scanned_keys(s, cull, k)
                    }).contains(key) by {
                        let j = choose|j: int| 0 <= j < k + 1 && meshed(cull, s[j].0, s[j].1) && key == pair_key(#[trigger] s[j].0, s[j].1);
                        if j < k {
                            assert(scanned_keys(s, cull, k).contains(key));
                        }
                    }
                    assert forall|key: u64| scanned_keys(s, cull, k).contains(key) implies scanned_keys(s, cull, k + 1).contains(key) by {
                        let j = choose|j: int| 0 <= j < k && meshed(cull, s[j].0, s[j].1) && key == pair_key(#[trigger] s[j].0, s[j].1);
                    }
                    if meshed(cull, v, c) {
                        assert(meshed(cull, s[k].0, s[k].1) && pair_key(v, c) == pair_key(s[k].0, s[k].1) && 0 <= k < k + 1);
                        assert(scanned_keys(s, cull, k + 1).contains(pair_key(v, c)));
                    }
                }
                assert(keys@.to_set() =~= seen@);
            }
            y += 1;
        }
        assert(x * h + h == (x + 1) * h) by (nonlinear_arith);
        x += 1;
    }
    sort_keys(&mut keys);
    let ghost all = scanned_keys(s, cull, width * h);
    let mut r: Vec<(u32, [u8; 4])> = Vec::new();
    let mut i: usize = 0;
    while i < keys.len()
        invariant
            i <= keys@.len(),
            forall|a: int, b: int| 0 <= a < b < keys@.len() ==> keys@[a] < keys@[b],
            r@.len() == i,
            forall|j: int| 0 <= j < i ==> pair_key(#[trigger] r@[j].0, r@[j].1) == keys@[j],
        decreases keys@.len() - i,
    {
        r.push(pair_of_key(keys[i]));
        i += 1;
    }
    proof {
        assert forall|a: int, b: int| 0 <= a < b < r@.len() implies pair_key(r@[a].0, r@[a].1) < pair_key(r@[b].0, r@[b].1) by {
            assert(pair_key(r@[a].0, r@[a].1) == keys@[a]);
            assert(pair_key(r@[b].0, r@[b].1) == keys@[b]);
        }
        assert forall|p: (u32, [u8; 4])| r@.contains(p) <==> meshed_pairs(*hm, *cm, cull).contains(p) by {
            if r@.contains(p) {
                let j = choose|j: int| 0 <= j < r@.len() && r@[j] == p;
                assert(pair_key(r@[j].0, r@[j].1) == keys@[j]);
                assert(keys@.to_set().contains(keys@[j]));
                assert(all.contains(pair_key(p.0, p.1)));
                let m = choose|m: int| 0 <= m < width * h && meshed(cull, s[m].0, s[m].1) && pair_key(p.0, p.1) == pair_key(#[trigger] s[m].0, s[m].1);
                lemma_pair_key_injective(p.0, p.1, s[m].0, s[m].1);
                vstd::arithmetic::div_mod::lemma_fundamental_div_mod(m, h);
                let xx = m / h;
                let yy = m % h;
                assert(0 <= xx < width) by (nonlinear_arith)
                    requires
                        m == h * xx + yy,
                        0 <= yy < h,
                        0 <= m < width * h,
                ;
                assert(hm.spec_at(xx, yy) == p.0);
            }
            if meshed_pairs(*hm, *cm, cull).contains(p) {
                let (xx, yy) = choose|xx: int, yy: int|
                    0 <= xx < hm.spec_width() && 0 <= yy < hm.spec_height() && #[trigger] hm.spec_at(xx, yy)
                        == p.0 && cm.spec_at(xx, yy) == p.1 && meshed(cull, p.0, p.1);
                let m = xx * h + yy;
                assert(0 <= m < width * h) by (nonlinear_arith)
                    requires
                        m == xx * h + yy,
                        0 <= xx < width,
                        0 <= yy < h,
                ;
                lemma_fundamental_div_mod_converse(m, h, xx, yy);
                assert(s[m] == p);
                assert(all.contains(pair_key(p.0, p.1)));
                assert(keys@.to_set().contains(pair_key(p.0, p.1)));
                let j = choose|j: int| 0 <= j < keys@.len() && keys@[j] == pair_key(p.0, p.1);
                lemma_pair_key_injective(p.0, p.1, r@[j].0, r@[j].1);
                assert(r@[j] == p);
            }
        }
    }
    r
}

/// The plane of pair `p`: for each cell, column by column, whether it is a
/// meshed cell of that height and color.
pub open spec fn plane_of(hm: Heightmap, cm: Colormap, cull: bool, p: (u32, [u8; 4])) -> Seq<bool> {
    let h = hm.spec_height() as int;
    Seq::new(
        (hm.spec_width() as int * h) as nat,
        |k: int|
            {
                let v = hm.spec_at(k / h, k % h);
                let c = cm.spec_at(k / h, k % h);
                meshed(cull, v, c) && (v, c) == p
            },
    )
}

/// One plane per pair, built in a single pass over the map: cell `(x, y)`
/// of a plane, at `x * height + y`, is set where the cell is meshed and has
/// the plane's height and color.
pub fn build_planes(
    hm: &Heightmap,
    cm: &Colormap,
    cull: bool,
    pairs: &Vec<(u32, [u8; 4])>,
) -> (r: Vec<Vec<bool>>)
    requires
        cm.spec_width() == hm.spec_width(),
        cm.spec_height() == hm.spec_height(),
        hm.spec_width() as int * hm.spec_height() as int <= usize::MAX,
        forall|i: int, j: int|
            0 <= i < j < pairs@.len() ==> pair_key(pairs@[i].0, pairs@[i].1) < pair_key(
                pairs@[j].0,
                pairs@[j].1,
            ),
        forall|p: (u32, [u8; 4])| pairs@.contains(p) <==> meshed_pairs(*hm, *cm, cull).contains(p),
    ensures
        r@.len() == pairs@.len(),
        forall|i: int| 0 <= i < pairs@.len() ==> (#[trigger] r@[i])@ == plane_of(*hm, *cm, cull, pairs@[i]),
{
    let (width, height) = hm.size();
    let ghost h = height as int;
    let ghost n = width as int * h;
    let cells = width as usize * height as usize;

    // Create a map from (h, color) to plane index
    let mut plane_map: HashMap<u64, usize> = HashMap::new();
    let mut all_planes: Vec<Vec<bool>> = Vec::new();
    let mut idx: usize = 0;
    while idx < pairs.len()
        invariant
            idx <= pairs@.len(),
            cells == n,
            all_planes@.len() == idx,
            forall|i: int| 0 <= i < idx ==> (#[trigger] all_planes@[i])@ == Seq::new(n as nat, |k: int| false),
            forall|key: u64|
                #[trigger] plane_map@.contains_key(key) <==> exists|i: int| 0 <= i < idx && key == pair_key(#[trigger] pairs@[i].0, pairs@[i].1),
            forall|i: int| 0 <= i < idx ==> plane_map@.contains_key(pair_key(#[trigger] pairs@[i].0, pairs@[i].1)) && plane_map@[pair_key(pairs@[i].0, pairs@[i].1)] == i,
            forall|i: int, j: int|
                0 <= i < j < pairs@.len() ==> pair_key(pairs@[i].0, pairs@[i].1) < pair_key(
                    pairs@[j].0,
                    pairs@[j].1,
                ),
        decreases pairs@.len() - idx,
    {
        let (v, c) = pairs[idx];
        plane_map.insert(pair_key_of(v, c), idx);
        let mut plane: Vec<bool> = Vec::new();
        let mut k: usize = 0;
        while k < cells
            invariant
                k <= cells,
                plane@ == Seq::new(k as nat, |k: int| false),
            decreases cells - k,
        {
            plane.push(false);
            assert(plane@ =~= Seq::new((k + 1) as nat, |k: int| false));
            k += 1;
        }
        all_planes.push(plane);
        proof {
            assert forall|key: u64| #[trigger] plane_map@.contains_key(key) <==> exists|i: int| 0 <= i < idx + 1 && key == pair_key(#[trigger] pairs@[i].0, pairs@[i].1) by {
                if plane_map@.contains_key(key) && key != pair_key(v, c) {
                    let i = choose|i: int| 0 <= i < idx && key == pair_key(#[trigger] pairs@[i].0, pairs@[i].1);
                }
                if exists|i: int| 0 <= i < idx + 1 && key == pair_key(#[trigger] pairs@[i].0, pairs@[i].1) {
                    let i = choose|i: int| 0 <= i < idx + 1 && key == pair_key(#[trigger] pairs@[i].0, pairs@[i].1);
                    if i < idx {
                        assert(plane_map@.contains_key(key));
                    }
                }
            }
            assert forall|i: int| 0 <= i < idx + 1 implies plane_map@.contains_key(pair_key(#[trigger] pairs@[i].0, pairs@[i].1)) && plane_map@[pair_key(pairs@[i].0, pairs@[i].1)] == i by {
                if i < idx {
                    assert(pair_key(pairs@[i].0, pairs@[i].1) < pair_key(v, c));
                }
            }
        }
        idx += 1;
    }

    // Single pass over the image to populate all planes at once
    let ghost s = scan(*hm, *cm);
    let mut x: u32 = 0;
    while x < width
        invariant
            x <= width,
            width == hm.spec_width(),
            height == hm.spec_height(),
            cm.spec_width() == hm.spec_width(),
            cm.spec_height() == hm.spec_height(),
            h == height,
            n == width * h,
            cells == n,
            s == scan(*hm, *cm),
            all_planes@.len() == pairs@.len(),
            forall|p: (u32, [u8; 4])| pairs@.contains(p) <==> meshed_pairs(*hm, *cm, cull).contains(p),
            forall|key: u64|
                #[trigger] plane_map@.contains_key(key) <==> exists|i: int| 0 <= i < pairs@.len() && key == pair_key(#[trigger] pairs@[i].0, pairs@[i].1),
            forall|i: int| 0 <= i < pairs@.len() ==> plane_map@.contains_key(pair_key(#[trigger] pairs@[i].0, pairs@[i].1)) && plane_map@[pair_key(pairs@[i].0, pairs@[i].1)] == i,
            forall|i: int| 0 <= i < pairs@.len() ==> (#[trigger] all_planes@[i])@.len() == n,
            forall|i: int, k: int|
                0 <= i < pairs@.len() && 0 <= k < n ==> #[trigger] all_planes@[i]@[k] == (k < x * h && plane_of(*hm, *cm, cull, pairs@[i])[k]),
        decreases width - x,
    {
        let mut y: u32 = 0;
        while y < height
            invariant
                x < width,
                y <= height,
                width == hm.spec_width(),
                height == hm.spec_height(),
                cm.spec_width() == hm.spec_width(),
                cm.spec_height() == hm.spec_height(),
                h == height,
                n == width * h,
                cells == n,
                s == scan(*hm, *cm),
                all_planes@.len() == pairs@.len(),
                forall|p: (u32, [u8; 4])| pairs@.contains(p) <==> meshed_pairs(*hm, *cm, cull).contains(p),
                forall|key: u64|
                    #[trigger] plane_map@.contains_key(key) <==> exists|i: int| 0 <= i < pairs@.len() && key == pair_key(#[trigger] pairs@[i].0, pairs@[i].1),
                forall|i: int| 0 <= i < pairs@.len() ==> plane_map@.contains_key(pair_key(#[trigger] pairs@[i].0, pairs@[i].1)) && plane_map@[pair_key(pairs@[i].0, pairs@[i].1)] == i,
                forall|i: int| 0 <= i < pairs@.len() ==> (#[trigger] all_planes@[i])@.len() == n,
                forall|i: int, k: int|
                    0 <= i < pairs@.len() && 0 <= k < n ==> #[trigger] all_planes@[i]@[k] == (k < x * h + y && plane_of(*hm, *cm, cull, pairs@[i])[k]),
            decreases height - y,
        {
            let ghost k = x * h + y;
            proof {
                assert(0 <= k < width * h) by (nonlinear_arith)
                    requires
                        k == x * h + y,
                        0 <= x < width,
                        0 <= y < h,
                ;
                lemma_fundamental_div_mod_converse(k, h, x as int, y as int);
            }
            let v = hm.at(x, y);
            let c = cm.at(x, y);
            if !cull || (v > 0 && c[3] > 0) {
                let key = pair_key_of(v, c);
                proof {
                    assert(meshed_pairs(*hm, *cm, cull).contains((v, c))) by {
                        assert(hm.spec_at(x as int, y as int) == v);
                    }
                    assert(pairs@.contains((v, c)));
                    let i = choose|i: int| 0 <= i < pairs@.len() && pairs@[i] == (v, c);
                    assert(plane_map@.contains_key(pair_key(pairs@[i].0, pairs@[i].1)));
                }
                if let Some(plane_idx) = plane_map.get(&key) {
                    let pi = *plane_idx;
                    let ghost before = all_planes@;
                    proof {
                        let i = choose|i: int| 0 <= i < pairs@.len() && key == pair_key(#[trigger] pairs@[i].0, pairs@[i].1);
                        assert(plane_map@[pair_key(pairs@[i].0, pairs@[i].1)] == i);
                        lemma_pair_key_injective(v, c, pairs@[i].0, pairs@[i].1);
                        assert(pi == i);
                        assert(all_planes@[pi as int]@.len() == n);
                    }
                    let k_exec = x as usize * height as usize + y as usize;
                    all_planes[pi].set(k_exec, true);
                    proof {
                        assert forall|i: int, kk: int| 0 <= i < pairs@.len() && 0 <= kk < n implies #[trigger] all_planes@[i]@[kk] == (kk < k + 1 && plane_of(*hm, *cm, cull, pairs@[i])[kk]) by {
                            if i != pi {
                                assert(all_planes@[i] == before[i]);
                                if kk == k {
                                    assert(pairs@[i] != (v, c)) by {
                                        if pairs@[i] == (v, c) {
                                            lemma_pair_key_injective(v, c, pairs@[i].0, pairs@[i].1);
                                        }
                                    }
                                }
                            } else {
                                if kk == k {
                                    assert(pairs@[i] == (v, c)) by {
                                        lemma_pair_key_injective(v, c, pairs@[i].0, pairs@[i].1);
                                    }
                                }
                            }
                        }
                    }
                }
            } else {
                proof {
                    assert forall|i: int, kk: int| 0 <= i < pairs@.len() && 0 <= kk < n implies #[trigger] all_planes@[i]@[kk] == (kk < k + 1 && plane_of(*hm, *cm, cull, pairs@[i])[kk]) by {
                    }
                }
            }
            y += 1;
        }
        assert(x * h + h == (x + 1) * h) by (nonlinear_arith);
        x += 1;
    }
    proof {
        assert forall|i: int| 0 <= i < pairs@.len() implies (#[trigger] all_planes@[i])@ == plane_of(*hm, *cm, cull, pairs@[i]) by {
            assert(all_planes@[i]@ =~= plane_of(*hm, *cm, cull, pairs@[i]));
        }
    }
    all_planes
}

/// The brick of height `bh` whose top lies at `z`, over rectangle `q` of
/// the plane at height `h` in color `color`.
pub open spec fn greedy_brick(
    q: GreedyQuad,
    color: [u8; 4],
    o: GenOptions,
    offx: int,
    offy: int,
    z: int,
    bh: int,
) -> Brick {
    Brick {
        asset: o.asset,
        size: BrickSize {
            x: ((q.w as u16) * o.size) as u16,
            y: ((q.h as u16) * o.size) as u16,
            z: if o.img && o.micro {
                o.size
            } else {
                bh as u16
            },
        },
        position: Position {
            x: (greedy_center(q.x, q.w, o.size) + offx) as i32,
            y: (greedy_center(q.y, q.h, o.size) + offy) as i32,
            z: if o.img {
                0
            } else {
                (z - bh) as i32
            },
        },
        collision: Collision {
            player: !o.nocollide,
            weapon: !o.nocollide,
            interact: !o.nocollide,
            tool: true,
        },
        color: Color { r: color[0], g: color[1], b: color[2] },
        material: if o.glow {
            Material::Glow
        } else {
            Material::Plastic
        },
        material_intensity: if o.glow {
            0
        } else {
            5
        },
    }
}

/// Center of a rectangle's bricks along one axis, before the shift.
pub open spec fn greedy_center(corner: u32, extent: u32, size: u16) -> int {
    (corner as i32) * (size as i32) * 2 + (extent as i32) * (size as i32)
}

/// The center is computed without overflow.
pub open spec fn greedy_center_ok(corner: u32, extent: u32, size: u16, offset: int) -> bool {
    &&& in_i32((corner as i32) * (size as i32))
    &&& in_i32((corner as i32) * (size as i32) * 2)
    &&& in_i32((extent as i32) * (size as i32))
    &&& in_i32(greedy_center(corner, extent, size))
    &&& in_i32(greedy_center(corner, extent, size) + offset)
}

/// The bricks that fill `desired` units below the top `z`, topmost first.
pub open spec fn greedy_column(
    q: GreedyQuad,
    color: [u8; 4],
    o: GenOptions,
    offx: int,
    offy: int,
    z: int,
    desired: int,
) -> Seq<Brick>
    decreases max_int(desired, 0),
{
    if desired <= 0 {
        seq![]
    } else {
        let bh = piece_height(desired, o.stud);
        proof {
            lemma_piece_height(desired, o.stud);
        }
        seq![greedy_brick(q, color, o, offx, offy, z, bh)] + greedy_column(
            q,
            color,
            o,
            offx,
            offy,
            z - 2 * bh,
            desired - bh,
        )
    }
}

/// Building `greedy_column` stays within `i32`.
pub open spec fn greedy_column_ok(o: GenOptions, z: int, desired: int) -> bool
    decreases max_int(desired, 0),
{
    desired <= 0 || {
        let bh = piece_height(desired, o.stud);
        proof {
            lemma_piece_height(desired, o.stud);
        }
        &&& (o.img || in_i32(z - bh))
        &&& in_i32(z - 2 * bh)
        &&& greedy_column_ok(o, z - 2 * bh, desired - bh)
    }
}

/// The bricks of one meshed rectangle of the plane at height `h`: a slab two
/// layers thick with its top at the plane's height.
pub open spec fn quad_bricks(
    q: GreedyQuad,
    h: u32,
    color: [u8; 4],
    o: GenOptions,
    offx: int,
    offy: int,
) -> Seq<Brick> {
    greedy_column(
        q,
        color,
        o,
        offx,
        offy,
        (((o.scale * h) as u32) as i32) as int,
        (((o.scale * 2) as u32) as i32) as int,
    )
}

/// Laying out one rectangle stays within the integer types used.
pub open spec fn quad_bricks_ok(q: GreedyQuad, h: u32, o: GenOptions, offx: int, offy: int) -> bool {
    &&& o.scale * h <= u32::MAX
    &&& o.scale * 2 <= u32::MAX
    &&& greedy_center_ok(q.x, q.w, o.size, offx)
    &&& greedy_center_ok(q.y, q.h, o.size, offy)
    &&& (q.w as u16) * o.size <= u16::MAX
    &&& (q.h as u16) * o.size <= u16::MAX
    &&& greedy_column_ok(
        o,
        (((o.scale * h) as u32) as i32) as int,
        (((o.scale * 2) as u32) as i32) as int,
    )
}

/// Appends the bricks of one meshed rectangle of the plane at height `h` in
/// color `color`.
pub fn push_quad_bricks(
    out: &mut Vec<Brick>,
    quad: GreedyQuad,
    h: u32,
    color: [u8; 4],
    options: &GenOptions,
    offset_x: i32,
    offset_y: i32,
)
    requires
        quad_bricks_ok(quad, h, *options, offset_x as int, offset_y as int),
    ensures
        final(out)@ == old(out)@ + quad_bricks(quad, h, color, *options, offset_x as int, offset_y as int),
{
    let mut z = (options.scale * h) as i32;
    let mut desired_height = (options.scale * 2) as i32;
    let step: u16 = if options.stud {
        5
    } else {
        2
    };
    let size_x = quad.w as u16 * options.size;
    let size_y = quad.h as u16 * options.size;
    let pos_x = quad.x as i32 * options.size as i32 * 2 + quad.w as i32 * options.size as i32 + offset_x;
    let pos_y = quad.y as i32 * options.size as i32 * 2 + quad.h as i32 * options.size as i32 + offset_y;
    let ghost ox = offset_x as int;
    let ghost oy = offset_y as int;
    let ghost z0 = z as int;
    let ghost d0 = desired_height as int;

    // Create vertical bricks if needed
    while desired_height > 0
        invariant
            step == crate::opt::layout::height_step(options.stud),
            size_x == (quad.w as u16) * options.size,
            size_y == (quad.h as u16) * options.size,
            pos_x == greedy_center(quad.x, quad.w, options.size) + ox,
            pos_y == greedy_center(quad.y, quad.h, options.size) + oy,
            greedy_column_ok(*options, z as int, desired_height as int),
            out@ + greedy_column(quad, color, *options, ox, oy, z as int, desired_height as int)
                == old(out)@ + greedy_column(quad, color, *options, ox, oy, z0, d0),
        decreases if desired_height > 0 {
            desired_height as int
        } else {
            0
        },
    {
        proof {
            lemma_piece_height(desired_height as int, options.stud);
        }
        let lower = if desired_height >= step as i32 {
            desired_height
        } else {
            step as i32
        };
        let capped = if lower <= 250 {
            lower
        } else {
            250
        };
        let brick_height = capped as u16;
        let brick_height = brick_height + brick_height % step;
        assert(brick_height == piece_height(desired_height as int, options.stud));

        let ghost before = out@;
        out.push(
            Brick {
                asset: options.asset.clone(),
                size: BrickSize {
                    x: size_x,
                    y: size_y,
                    z: if options.img && options.micro {
                        options.size
                    } else {
                        brick_height
                    },
                },
                position: Position {
                    x: pos_x,
                    y: pos_y,
                    z: if options.img {
                        0
                    } else {
                        z - brick_height as i32
                    },
                },
                collision: Collision {
                    player: !options.nocollide,
                    weapon: !options.nocollide,
                    interact: !options.nocollide,
                    tool: true,
                },
                color: Color { r: color[0], g: color[1], b: color[2] },
                material: if options.glow {
                    Material::Glow
                } else {
                    Material::Plastic
                },
                material_intensity: if options.glow {
                    0
                } else {
                    5
                },
            },
        );
        assert(out@ == before.push(
            greedy_brick(quad, color, *options, ox, oy, z as int, brick_height as int),
        ));
        let ghost zz = z as int;
        let ghost dd = desired_height as int;
        desired_height -= brick_height as i32;
        z -= brick_height as i32 * 2;
        assert(greedy_column(quad, color, *options, ox, oy, zz, dd) == seq![
            greedy_brick(quad, color, *options, ox, oy, zz, brick_height as int),
        ] + greedy_column(quad, color, *options, ox, oy, z as int, desired_height as int));
        assert(out@ + greedy_column(quad, color, *options, ox, oy, z as int, desired_height as int)
            =~= before + greedy_column(quad, color, *options, ox, oy, zz, dd));
    }
    assert(out@ + greedy_column(quad, color, *options, ox, oy, z as int, desired_height as int)
        =~= out@);
}

/// The bricks of meshed rectangles, each with the height and color of its
/// plane, in order.
pub open spec fn quads_bricks(
    quads: Seq<(GreedyQuad, u32, [u8; 4])>,
    o: GenOptions,
    offx: int,
    offy: int,
) -> Seq<Brick>
    decreases quads.len(),
{
    if quads.len() == 0 {
        seq![]
    } else {
        quads_bricks(quads.drop_last(), o, offx, offy) + quad_bricks(
            quads.last().0,
            quads.last().1,
            quads.last().2,
            o,
            offx,
            offy,
        )
    }
}

/// Converts meshed rectangles of a `width` by `height` map to bricks,
/// centered by whole tiles.
pub fn quads_to_bricks(
    quads: &Vec<(GreedyQuad, u32, [u8; 4])>,
    options: &GenOptions,
    width: u32,
    height: u32,
) -> (r: Vec<Brick>)
    requires
        center_offset_ok(width, options.size),
        center_offset_ok(height, options.size),
        forall|i: int|
            0 <= i < quads@.len() ==> quad_bricks_ok(
                (#[trigger] quads@[i]).0,
                quads@[i].1,
                *options,
                center_offset(width, options.size),
                center_offset(height, options.size),
            ),
    ensures
        r@ == quads_bricks(
            quads@,
            *options,
            center_offset(width, options.size),
            center_offset(height, options.size),
        ),
{
    // Center the bricks by a whole tile only: an odd dimension otherwise
    // shifts every brick edge off the grid by `size`.
    let offset_x = -((width as i32 / 2) * 2 * options.size as i32);
    let offset_y = -((height as i32 / 2) * 2 * options.size as i32);
    let ghost ox = center_offset(width, options.size);
    let ghost oy = center_offset(height, options.size);
    let mut all_bricks: Vec<Brick> = Vec::new();
    let mut i: usize = 0;
    while i < quads.len()
        invariant
            i <= quads@.len(),
            offset_x == ox,
            offset_y == oy,
            ox == center_offset(width, options.size),
            oy == center_offset(height, options.size),
            forall|j: int|
                0 <= j < quads@.len() ==> quad_bricks_ok(
                    (#[trigger] quads@[j]).0,
                    quads@[j].1,
                    *options,
                    ox,
                    oy,
                ),
            all_bricks@ == quads_bricks(quads@.take(i as int), *options, ox, oy),
        decreases quads@.len() - i,
    {
        let (quad, h, color) = quads[i];
        assert(quad_bricks_ok(quads@[i as int].0, quads@[i as int].1, *options, ox, oy));
        push_quad_bricks(&mut all_bricks, quad, h, color, options, offset_x, offset_y);
        assert(quads@.take(i + 1).drop_last() =~= quads@.take(i as int));
        i += 1;
    }
    assert(quads@.take(i as int) =~= quads@);
    all_bricks
}

/// `b` covers the horizontal footprint of the rectangle `q`.
pub open spec fn quad_footprint(b: Brick, q: GreedyQuad, o: GenOptions, offx: int, offy: int) -> bool {
    let c = greedy_brick(q, [0u8, 0u8, 0u8, 0u8], o, offx, offy, 0, 0);
    &&& b.position.x == c.position.x
    &&& b.position.y == c.position.y
    &&& b.size.x == c.size.x
    &&& b.size.y == c.size.y
}

/// Every brick of a column over `q` covers the footprint of `q`.
proof fn lemma_greedy_column_footprint(
    q: GreedyQuad,
    color: [u8; 4],
    o: GenOptions,
    offx: int,
    offy: int,
    z: int,
    desired: int,
)
    ensures
        forall|k: int|
            0 <= k < greedy_column(q, color, o, offx, offy, z, desired).len() ==> quad_footprint(
                #[trigger] greedy_column(q, color, o, offx, offy, z, desired)[k],
                q,
                o,
                offx,
                offy,
            ),
    decreases max_int(desired, 0),
{
    if desired > 0 {
        let bh = piece_height(desired, o.stud);
        lemma_piece_height(desired, o.stud);
        lemma_greedy_column_footprint(q, color, o, offx, offy, z - 2 * bh, desired - bh);
        let rest = greedy_column(q, color, o, offx, offy, z - 2 * bh, desired - bh);
        let all = greedy_column(q, color, o, offx, offy, z, desired);
        assert(all == seq![greedy_brick(q, color, o, offx, offy, z, bh)] + rest);
        assert forall|k: int| 0 <= k < all.len() implies quad_footprint(#[trigger] all[k], q, o, offx, offy) by {
            if k > 0 {
                assert(all[k] == rest[k - 1]);
            }
        }
    }
}

/// Every brick of a sequence of rectangles covers the footprint of one of
/// them.
proof fn lemma_quads_footprint(
    quads: Seq<(GreedyQuad, u32, [u8; 4])>,
    o: GenOptions,
    offx: int,
    offy: int,
)
    ensures
        forall|k: int|
            0 <= k < quads_bricks(quads, o, offx, offy).len() ==> exists|i: int|
                0 <= i < quads.len() && quad_footprint(
                    #[trigger] quads_bricks(quads, o, offx, offy)[k],
                    (#[trigger] quads[i]).0,
                    o,
                    offx,
                    offy,
                ),
    decreases quads.len(),
{
    if quads.len() > 0 {
        let init = quads.drop_last();
        let last = quads.last();
        lemma_quads_footprint(init, o, offx, offy);
        let front = quads_bricks(init, o, offx, offy);
        let back = quad_bricks(last.0, last.1, last.2, o, offx, offy);
        let all = quads_bricks(quads, o, offx, offy);
        assert(all == front + back);
        lemma_greedy_column_footprint(
            last.0,
            last.2,
            o,
            offx,
            offy,
            (((o.scale * last.1) as u32) as i32) as int,
            (((o.scale * 2) as u32) as i32) as int,
        );
        assert forall|k: int| 0 <= k < all.len() implies exists|i: int|
            0 <= i < quads.len() && quad_footprint(#[trigger] all[k], (#[trigger] quads[i]).0, o, offx, offy) by {
            if k < front.len() {
                assert(all[k] == front[k]);
                let i = choose|i: int|
                    0 <= i < init.len() && quad_footprint(
                        #[trigger] front[k],
                        (#[trigger] init[i]).0,
                        o,
                        offx,
                        offy,
                    );
                assert(quads[i] == init[i]);
            } else {
                assert(all[k] == back[k - front.len()]);
                assert(quads[quads.len() - 1] == last);
                assert(quad_footprint(back[k - front.len()], last.0, o, offx, offy));
            }
        }
    }
}

/// A brick over a rectangle that `quad_bricks_ok` admits, with extents that
/// fit in `u16`, lies on the tile grid of the centered layout.
proof fn lemma_quad_footprint_on_grid(
    b: Brick,
    q: GreedyQuad,
    h: u32,
    o: GenOptions,
    width: u32,
    height: u32,
)
    requires
        o.size > 0,
        q.w <= u16::MAX,
        q.h <= u16::MAX,
        quad_bricks_ok(q, h, o, center_offset(width, o.size), center_offset(height, o.size)),
        quad_footprint(b, q, o, center_offset(width, o.size), center_offset(height, o.size)),
    ensures
        on_grid(b, o.size),
{
    let size = o.size as int;
    let offx = center_offset(width, o.size);
    let offy = center_offset(height, o.size);
    let cx = (q.x as i32) as int;
    let cy = (q.y as i32) as int;
    let sx = q.w as int;
    let sy = q.h as int;
    assert((q.w as u16) as int == sx);
    assert((q.w as i32) as int == sx);
    assert((q.h as u16) as int == sy);
    assert((q.h as i32) as int == sy);
    assert((o.size as i32) as int == size);
    let hx = tdiv((width as i32) as int, 2);
    let hy = tdiv((height as i32) as int, 2);
    assert(b.position.x - b.size.x == (cx - hx) * (2 * size)) by (nonlinear_arith)
        requires
            b.position.x == cx * size * 2 + sx * size + offx,
            b.size.x == sx * size,
            offx == -(hx * 2 * size),
    ;
    assert(b.position.y - b.size.y == (cy - hy) * (2 * size)) by (nonlinear_arith)
        requires
            b.position.y == cy * size * 2 + sy * size + offy,
            b.size.y == sy * size,
            offy == -(hy * 2 * size),
    ;
    vstd::arithmetic::div_mod::lemma_mod_multiples_basic(cx - hx, 2 * size);
    vstd::arithmetic::div_mod::lemma_mod_multiples_basic(cy - hy, 2 * size);
}

/// Brick edges of meshed rectangles lie on the tile grid: the rectangles
/// are centered by whole tiles only, so the low edges of every brick are a
/// whole number of tiles (`2 * size` units) from the origin.
pub proof fn lemma_quads_on_grid(
    quads: Seq<(GreedyQuad, u32, [u8; 4])>,
    o: GenOptions,
    width: u32,
    height: u32,
)
    requires
        o.size > 0,
        forall|i: int|
            0 <= i < quads.len() ==> quad_bricks_ok(
                (#[trigger] quads[i]).0,
                quads[i].1,
                o,
                center_offset(width, o.size),
                center_offset(height, o.size),
            ),
        forall|i: int| 0 <= i < quads.len() ==> (#[trigger] quads[i]).0.w <= u16::MAX && quads[i].0.h <= u16::MAX,
    ensures
        forall|k: int|
            0 <= k < quads_bricks(quads, o, center_offset(width, o.size), center_offset(height, o.size)).len()
                ==> on_grid(
                #[trigger] quads_bricks(
                    quads,
                    o,
                    center_offset(width, o.size),
                    center_offset(height, o.size),
                )[k],
                o.size,
            ),
{
    let offx = center_offset(width, o.size);
    let offy = center_offset(height, o.size);
    lemma_quads_footprint(quads, o, offx, offy);
    let all = quads_bricks(quads, o, offx, offy);
    assert forall|k: int| 0 <= k < all.len() implies on_grid(#[trigger] all[k], o.size) by {
        let i = choose|i: int|
            0 <= i < quads.len() && quad_footprint(#[trigger] all[k], (#[trigger] quads[i]).0, o, offx, offy);
        lemma_quad_footprint_on_grid(all[k], quads[i].0, quads[i].1, o, width, height);
    }
}

/// Every brick of a column over a rectangle has the plane's color: red,
/// green and blue are channels 0, 1 and 2 of `color`.
proof fn lemma_greedy_column_color(
    q: GreedyQuad,
    color: [u8; 4],
    o: GenOptions,
    offx: int,
    offy: int,
    z: int,
    desired: int,
)
    ensures
        forall|k: int|
            0 <= k < greedy_column(q, color, o, offx, offy, z, desired).len() ==> {
                let b = #[trigger] greedy_column(q, color, o, offx, offy, z, desired)[k];
                b.color.r == color[0] && b.color.g == color[1] && b.color.b == color[2]
            },
    decreases max_int(desired, 0),
{
    if desired > 0 {
        let bh = piece_height(desired, o.stud);
        lemma_piece_height(desired, o.stud);
        lemma_greedy_column_color(q, color, o, offx, offy, z - 2 * bh, desired - bh);
        let rest = greedy_column(q, color, o, offx, offy, z - 2 * bh, desired - bh);
        let all = greedy_column(q, color, o, offx, offy, z, desired);
        assert(all == seq![greedy_brick(q, color, o, offx, offy, z, bh)] + rest);
        assert forall|k: int| 0 <= k < all.len() implies {
            let b = #[trigger] all[k];
            b.color.r == color[0] && b.color.g == color[1] && b.color.b == color[2]
        } by {
            if k > 0 {
                assert(all[k] == rest[k - 1]);
            }
        }
    }
}

/// Every brick of a meshed rectangle has its plane's color: red, green and
/// blue are channels 0, 1 and 2 of `color`.
pub proof fn lemma_quad_bricks_color(
    q: GreedyQuad,
    h: u32,
    color: [u8; 4],
    o: GenOptions,
    offx: int,
    offy: int,
)
    ensures
        forall|k: int|
            0 <= k < quad_bricks(q, h, color, o, offx, offy).len() ==> {
                let b = #[trigger] quad_bricks(q, h, color, o, offx, offy)[k];
                b.color.r == color[0] && b.color.g == color[1] && b.color.b == color[2]
            },
{
    lemma_greedy_column_color(
        q,
        color,
        o,
        offx,
        offy,
        (((o.scale * h) as u32) as i32) as int,
        (((o.scale * 2) as u32) as i32) as int,
    );
}

/// Every brick of a sequence of meshed rectangles covers the footprint of
/// one of them and has the color of its plane.
pub proof fn lemma_quads_colors(
    quads: Seq<(GreedyQuad, u32, [u8; 4])>,
    o: GenOptions,
    offx: int,
    offy: int,
)
    ensures
        forall|k: int|
            0 <= k < quads_bricks(quads, o, offx, offy).len() ==> exists|i: int|
                0 <= i < quads.len() && quad_footprint(
                    #[trigger] quads_bricks(quads, o, offx, offy)[k],
                    quads[i].0,
                    o,
                    offx,
                    offy,
                ) && quads_bricks(quads, o, offx, offy)[k].color.r == quads[i].2[0]
                    && quads_bricks(quads, o, offx, offy)[k].color.g == quads[i].2[1]
                    && quads_bricks(quads, o, offx, offy)[k].color.b == quads[i].2[2],
    decreases quads.len(),
{
    if quads.len() > 0 {
        let init = quads.drop_last();
        let last = quads.last();
        lemma_quads_colors(init, o, offx, offy);
        let front = quads_bricks(init, o, offx, offy);
        let back = quad_bricks(last.0, last.1, last.2, o, offx, offy);
        let all = quads_bricks(quads, o, offx, offy);
        assert(all == front + back);
        lemma_quad_bricks_color(last.0, last.1, last.2, o, offx, offy);
        lemma_greedy_column_footprint(
            last.0,
            last.2,
            o,
            offx,
            offy,
            (((o.scale * last.1) as u32) as i32) as int,
            (((o.scale * 2) as u32) as i32) as int,
        );
        assert forall|k: int| 0 <= k < all.len() implies exists|i: int|
            0 <= i < quads.len() && quad_footprint(#[trigger] all[k], quads[i].0, o, offx, offy)
                && all[k].color.r == quads[i].2[0] && all[k].color.g == quads[i].2[1]
                && all[k].color.b == quads[i].2[2] by {
            if k < front.len() {
                assert(all[k] == front[k]);
                let i = choose|i: int|
                    0 <= i < init.len() && quad_footprint(#[trigger] front[k], init[i].0, o, offx, offy)
                        && front[k].color.r == init[i].2[0] && front[k].color.g == init[i].2[1]
                        && front[k].color.b == init[i].2[2];
                assert(quads[i] == init[i]);
            } else {
                assert(all[k] == back[k - front.len()]);
                assert(quads[quads.len() - 1] == last);
                assert(quad_footprint(back[k - front.len()], last.0, o, offx, offy));
            }
        }
    }
}

/// Every brick of a column over a rectangle has the options' asset,
/// material, intensity and collision.
proof fn lemma_greedy_column_fields(
    q: GreedyQuad,
    color: [u8; 4],
    o: GenOptions,
    offx: int,
    offy: int,
    z: int,
    desired: int,
)
    ensures
        forall|k: int|
            0 <= k < greedy_column(q, color, o, offx, offy, z, desired).len() ==> {
                let b = #[trigger] greedy_column(q, color, o, offx, offy, z, desired)[k];
                &&& b.asset == o.asset
                &&& b.material == (if o.glow {
                    Material::Glow
                } else {
                    Material::Plastic
                })
                &&& b.material_intensity == (if o.glow {
                    0u8
                } else {
                    5u8
                })
                &&& b.collision.player == !o.nocollide
                &&& b.collision.weapon == !o.nocollide
                &&& b.collision.interact == !o.nocollide
                &&& b.collision.tool
                &&& (o.img ==> b.position.z == 0)
                &&& (o.img && o.micro ==> b.size.z == o.size)
            },
    decreases max_int(desired, 0),
{
    if desired > 0 {
        let bh = piece_height(desired, o.stud);
        lemma_piece_height(desired, o.stud);
        lemma_greedy_column_fields(q, color, o, offx, offy, z - 2 * bh, desired - bh);
        let rest = greedy_column(q, color, o, offx, offy, z - 2 * bh, desired - bh);
        let all = greedy_column(q, color, o, offx, offy, z, desired);
        assert(all == seq![greedy_brick(q, color, o, offx, offy, z, bh)] + rest);
        assert forall|k: int| 0 <= k < all.len() implies {
            let b = #[trigger] all[k];
            &&& b.asset == o.asset
            &&& b.material == (if o.glow {
                Material::Glow
                } else {
                Material::Plastic
            })
            &&& b.material_intensity == (if o.glow {
                0u8
                } else {
                5u8
            })
            &&& b.collision.player == !o.nocollide
            &&& b.collision.weapon == !o.nocollide
            &&& b.collision.interact == !o.nocollide
            &&& b.collision.tool
            &&& (o.img ==> b.position.z == 0)
            &&& (o.img && o.micro ==> b.size.z == o.size)
        } by {
            if k > 0 {
                assert(all[k] == rest[k - 1]);
            }
        }
    }
}

/// Every brick of a meshed rectangle has the options' asset, the glow or
/// plastic material as they ask, intensity 0 when glowing and 5 otherwise,
/// collides with tools always and with players, weapons and interaction
/// exactly when collision is not turned off; image bricks lie at level 0,
/// microbrick image bricks are cubes of the tile size. Outside image mode,
/// with a positive scale, the slab's first brick is topped at
/// `scale * height`.
pub proof fn lemma_quad_bricks_fields(
    q: GreedyQuad,
    h: u32,
    color: [u8; 4],
    o: GenOptions,
    offx: int,
    offy: int,
)
    ensures
        forall|k: int|
            0 <= k < quad_bricks(q, h, color, o, offx, offy).len() ==> {
                let b = #[trigger] quad_bricks(q, h, color, o, offx, offy)[k];
                &&& b.asset == o.asset
                &&& b.material == (if o.glow {
                    Material::Glow
                } else {
                    Material::Plastic
                })
                &&& b.material_intensity == (if o.glow {
                    0u8
                } else {
                    5u8
                })
                &&& b.collision.player == !o.nocollide
                &&& b.collision.weapon == !o.nocollide
                &&& b.collision.interact == !o.nocollide
                &&& b.collision.tool
                &&& (o.img ==> b.position.z == 0)
                &&& (o.img && o.micro ==> b.size.z == o.size)
            },
        (0 < o.scale && o.scale * h <= i32::MAX && o.scale * 2 <= i32::MAX && !o.img) ==> {
            &&& quad_bricks(q, h, color, o, offx, offy).len() > 0
            &&& quad_bricks(q, h, color, o, offx, offy)[0].position.z + quad_bricks(
                q,
                h,
                color,
                o,
                offx,
                offy,
            )[0].size.z == o.scale * h
        },
{
    let z = (((o.scale * h) as u32) as i32) as int;
    let d = (((o.scale * 2) as u32) as i32) as int;
    lemma_greedy_column_fields(q, color, o, offx, offy, z, d);
    if 0 < o.scale && o.scale * h <= i32::MAX && o.scale * 2 <= i32::MAX && !o.img {
        assert(z == o.scale * h);
        assert(d == o.scale * 2);
        let bh = piece_height(d, o.stud);
        lemma_piece_height(d, o.stud);
        let bs = quad_bricks(q, h, color, o, offx, offy);
        assert(bs == seq![greedy_brick(q, color, o, offx, offy, z, bh)] + greedy_column(
            q,
            color,
            o,
            offx,
            offy,
            z - 2 * bh,
            d - bh,
        ));
        assert(bs[0] == greedy_brick(q, color, o, offx, offy, z, bh));
    }
}

/// The pairs that get a plane, said over the cells: a pair gets a plane
/// exactly when some cell has that height and color and, with culling, is
/// above ground and not fully transparent.
pub proof fn lemma_pairs_by_cells(hm: Heightmap, cm: Colormap, cull: bool, p: (u32, [u8; 4]))
    ensures
        meshed_pairs(hm, cm, cull).contains(p) <==> exists|x: int, y: int|
            0 <= x < hm.spec_width() && 0 <= y < hm.spec_height() && #[trigger] hm.spec_at(x, y) == p.0
                && cm.spec_at(x, y) == p.1 && (!cull || (p.0 > 0 && p.1[3] > 0)),
{
}

/// What the plane of a pair marks, said over the cells: cell `(x, y)`, at
/// `x * height + y`, is marked exactly when it has the pair's height and
/// color and, with culling, is above ground and not fully transparent.
pub proof fn lemma_plane_cell(hm: Heightmap, cm: Colormap, cull: bool, p: (u32, [u8; 4]), x: int, y: int)
    requires
        0 <= x < hm.spec_width(),
        0 <= y < hm.spec_height(),
    ensures
        plane_of(hm, cm, cull, p).len() == hm.spec_width() as int * hm.spec_height() as int,
        0 <= x * hm.spec_height() + y < plane_of(hm, cm, cull, p).len(),
        plane_of(hm, cm, cull, p)[x * hm.spec_height() + y] <==> (hm.spec_at(x, y) == p.0 && cm.spec_at(
            x,
            y,
        ) == p.1 && (!cull || (p.0 > 0 && p.1[3] > 0))),
{
    let h = hm.spec_height() as int;
    let w = hm.spec_width() as int;
    let k = x * h + y;
    assert(0 <= k < w * h) by (nonlinear_arith)
        requires
            k == x * h + y,
            0 <= x < w,
            0 <= y < h,
    ;
    lemma_fundamental_div_mod_converse(k, h, x, y);
}

/// The shape of a column over a rectangle, from its top and the units it
/// fills.
proof fn lemma_greedy_column_shape(
    q: GreedyQuad,
    color: [u8; 4],
    o: GenOptions,
    offx: int,
    offy: int,
    z: int,
    d: int,
)
    requires
        d > 0,
        !o.img,
        greedy_column_ok(o, z, d),
    ensures
        column_shape(greedy_column(q, color, o, offx, offy, z, d), z, d, 0, o.stud),
    decreases d,
{
    let bh = piece_height(d, o.stud);
    lemma_piece_height(d, o.stud);
    let rest = greedy_column(q, color, o, offx, offy, z - 2 * bh, d - bh);
    let c = greedy_column(q, color, o, offx, offy, z, d);
    assert(c == seq![greedy_brick(q, color, o, offx, offy, z, bh)] + rest);
    let step = height_step(o.stud);
    if d <= 250 {
        assert(bh >= d);
        assert(rest.len() == 0);
        assert(c.len() == 1);
        assert(max_int(d - 250 * 0, step) == max_int(d, step));
    } else {
        assert(bh == 250);
        lemma_greedy_column_shape(q, color, o, offx, offy, z - 500, d - 250);
        let n = c.len() as int;
        assert(n == rest.len() + 1);
        assert forall|k: int| 0 <= k < n - 1 implies (#[trigger] c[k]).size.z == 250 - 0
            && c[k].position.z == z - 500 * k - 250 + 0 by {
            if k > 0 {
                assert(c[k] == rest[k - 1]);
            }
        }
        assert(c[n - 1] == rest[n - 2]);
        assert(d - 250 - 250 * (rest.len() - 1) == d - 250 * (n - 1));
    }
}

/// Outside image mode, with a positive scale, the bricks of a meshed
/// rectangle of the plane at height `h` have the shape of a column topped at
/// `scale * h` that fills `2 * scale` units: a slab two layers thick.
pub proof fn lemma_quad_bricks_shape(
    q: GreedyQuad,
    h: u32,
    color: [u8; 4],
    o: GenOptions,
    offx: int,
    offy: int,
)
    requires
        quad_bricks_ok(q, h, o, offx, offy),
        !o.img,
        0 < o.scale,
        o.scale * h <= i32::MAX,
        o.scale * 2 <= i32::MAX,
    ensures
        column_shape(quad_bricks(q, h, color, o, offx, offy), o.scale * h, 2 * o.scale, 0, o.stud),
{
    let z = (((o.scale * h) as u32) as i32) as int;
    let d = (((o.scale * 2) as u32) as i32) as int;
    assert(z == o.scale * h);
    assert(d == 2 * o.scale);
    lemma_greedy_column_shape(q, color, o, offx, offy, z, d);
}

} // verus!
