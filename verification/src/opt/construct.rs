//! Building the tile layers of a quadtree from a heightmap and a colormap.
use vstd::prelude::*;

use std::collections::{HashMap, HashSet};

use crate::map::{Colormap, Heightmap};
use crate::opt::model::{
    filter_heights, fresh_layer, fresh_tile, has_at_or_below, highest_at_or_below, last_colors,
    neighbor_heights, rule_color, rule_height, scan, strictly_increasing, zero_colors, LayerRule,
};
use crate::opt::quad::{color_eq, Tile};

use vstd::arithmetic::div_mod::lemma_fundamental_div_mod_converse;

verus! {

broadcast use vstd::std_specs::hash::group_hash_axioms;

/// A color as one number, red in the highest byte.
pub open spec fn color_key(c: [u8; 4]) -> u32 {
    (c[0] as int * 0x1000000 + c[1] as int * 0x10000 + c[2] as int * 0x100 + c[3] as int) as u32
}

/// Different colors have different keys.
pub proof fn lemma_color_key_injective(a: [u8; 4], b: [u8; 4])
    ensures
        color_key(a) == color_key(b) <==> a == b,
{
    if color_key(a) == color_key(b) {
        assert(a =~= b);
    }
}

/// The key of a color.
pub fn color_key_of(c: [u8; 4]) -> (r: u32)
    ensures
        r == color_key(c),
{
    c[0] as u32 * 0x1000000 + c[1] as u32 * 0x10000 + c[2] as u32 * 0x100 + c[3] as u32
}

/// First pass over the map: each height mapped to the color of its last
/// cell, the heights that occur (each once), and the keys of the colors at
/// height 0.
pub fn survey(hm: &Heightmap, cm: &Colormap) -> (r: (HashMap<u32, [u8; 4]>, Vec<u32>, HashSet<u32>))
    requires
        cm.spec_width() == hm.spec_width(),
        cm.spec_height() == hm.spec_height(),
    ensures
        r.0@ == last_colors(scan(*hm, *cm)),
        r.1@.to_set() == r.0@.dom(),
        r.1@.no_duplicates(),
        forall|c: [u8; 4]| r.2@.contains(color_key(c)) <==> #[trigger] zero_colors(scan(*hm, *cm)).contains(c),
{
    let (width, height) = hm.size();
    let ghost s = scan(*hm, *cm);
    let ghost h = height as int;
    let mut all_heights: HashMap<u32, [u8; 4]> = HashMap::new();
    let mut heights: Vec<u32> = Vec::new();
    let mut height_0_colors: HashSet<u32> = HashSet::new();
    let mut x: u32 = 0;
    while x < width
        invariant
            x <= width,
            width == hm.spec_width(),
            height == hm.spec_height(),
            cm.spec_width() == hm.spec_width(),
            cm.spec_height() == hm.spec_height(),
            s == scan(*hm, *cm),
            h == height,
            all_heights@ == last_colors(s.take(x * h)),
            heights@.to_set() == all_heights@.dom(),
            heights@.no_duplicates(),
            forall|c: [u8; 4]|
                height_0_colors@.contains(color_key(c)) <==> #[trigger] zero_colors(s.take(x * h)).contains(c),
        decreases width - x,
    {
        let mut y: u32 = 0;
        while y < height
            invariant
                x < width,
                y <= height,
                width == hm.spec_width(),
                height == hm.spec_height(),
                cm.spec_width() == hm.spec_width(),
                cm.spec_height() == hm.spec_height(),
                s == scan(*hm, *cm),
                h == height,
                all_heights@ == last_colors(s.take(x * h + y)),
                heights@.to_set() == all_heights@.dom(),
                heights@.no_duplicates(),
                forall|c: [u8; 4]|
                    height_0_colors@.contains(color_key(c)) <==> #[trigger] zero_colors(s.take(x * h + y)).contains(c),
            decreases height - y,
        {
            let ghost k = x * h + y;
            proof {
                assert(0 <= k < width * h) by (nonlinear_arith)
                    requires
                        k == x * h + y,
                        0 <= x < width,
                        0 <= y < h,
                ;
                lemma_fundamental_div_mod_converse(k, h, x as int, y as int);
            }
            let v = hm.at(x, y);
            let color = cm.at(x, y);
            assert(s[k] == (v, color));
            assert(s.take(k + 1).drop_last() =~= s.take(k));
            if v == 0 {
                height_0_colors.insert(color_key_of(color));
            }
            let ghost old_heights = heights@;
            if !all_heights.contains_key(&v) {
                assert(!old_heights.to_set().contains(v));
                assert(!old_heights.contains(v));
                heights.push(v);
                assert(heights@ =~= old_heights.push(v));
            }
            all_heights.insert(v, color);
            assert forall|c: [u8; 4]|
                height_0_colors@.contains(color_key(c)) <==> #[trigger] zero_colors(s.take(k + 1)).contains(c) by {
                lemma_color_key_injective(c, color);
                let t = s.take(k + 1);
                if zero_colors(t).contains(c) {
                    let j = choose|j: int| 0 <= j < t.len() && #[trigger] t[j] == (0u32, c);
                    if j < k {
                        assert(s.take(k)[j] == (0u32, c));
                    }
                }
                if zero_colors(s.take(k)).contains(c) {
                    let j = choose|j: int| 0 <= j < k && #[trigger] s.take(k)[j] == (0u32, c);
                    assert(t[j] == (0u32, c));
                }
                if v == 0 && c == color {
                    assert(t[k] == (0u32, c));
                }
            }
            assert forall|e: u32| heights@.to_set().contains(e) <==> all_heights@.dom().contains(e) by {
                assert(old_heights.to_set().contains(e) <==> old_heights.contains(e));
                assert(heights@.to_set().contains(e) <==> heights@.contains(e));
                if e == v {
                    if heights@ != old_heights {
                        assert(heights@[heights@.len() - 1] == v);
                    }
                }
                if old_heights.contains(e) {
                    let j = choose|j: int| 0 <= j < old_heights.len() && old_heights[j] == e;
                    assert(heights@[j] == e);
                }
            }
            proof {
                assert(heights@.to_set() =~= all_heights@.dom());
            }
            y += 1;
        }
        assert(x * h + h == (x + 1) * h) by (nonlinear_arith);
        x += 1;
    }
    assert(s.take(width * h) =~= s);
    (all_heights, heights, height_0_colors)
}

/// The heights that get a layer of their own, with their colors: all above
/// `g`, and only the highest at or below it; and those heights, each once.
pub fn filter_layer_heights(all: &HashMap<u32, [u8; 4]>, heights: &Vec<u32>, g: u32) -> (r: (
    HashMap<u32, [u8; 4]>,
    Vec<u32>,
))
    requires
        g > 0,
        heights@.to_set() == all@.dom(),
        heights@.no_duplicates(),
    ensures
        r.0@ == filter_heights(all@, g),
        r.1@.to_set() == r.0@.dom(),
        r.1@.no_duplicates(),
{
    let mut result: HashMap<u32, [u8; 4]> = HashMap::new();
    let mut keys: Vec<u32> = Vec::new();
    let mut best: Option<u32> = None;
    let mut i: usize = 0;
    while i < heights.len()
        invariant
            i <= heights@.len(),
            heights@.to_set() == all@.dom(),
            heights@.no_duplicates(),
            keys@.to_set() == result@.dom(),
            keys@.no_duplicates(),
            forall|e: u32|
                #![trigger result@.dom().contains(e)]
                result@.dom().contains(e) <==> (heights@.take(i as int).contains(e) && e > g),
            forall|e: u32| #[trigger] result@.dom().contains(e) ==> result@[e] == all@[e],
            best is Some <==> exists|j: int| 0 <= j < i && heights@[j] <= g,
            best matches Some(b) ==> {
                &&& heights@.take(i as int).contains(b)
                &&& b <= g
                &&& forall|j: int| 0 <= j < i && heights@[j] <= g ==> heights@[j] <= b
            },
        decreases heights@.len() - i,
    {
        let h = heights[i];
        let ghost prefix = heights@.take(i as int);
        let ghost next = heights@.take(i + 1);
        assert(next =~= prefix.push(h));
        assert forall|e: u32| next.contains(e) <==> (prefix.contains(e) || e == h) by {
            if prefix.contains(e) {
                let j = choose|j: int| 0 <= j < prefix.len() && prefix[j] == e;
                assert(next[j] == e);
            }
            if next.contains(e) && e != h {
                let j = choose|j: int| 0 <= j < next.len() && next[j] == e;
                assert(prefix[j] == e);
            }
            assert(next[i as int] == h);
        }
        assert(heights@.to_set().contains(h));
        if h > g {
            let c = *all.get(&h).unwrap();
            assert(!heights@.take(i as int).contains(h)) by {
                if heights@.take(i as int).contains(h) {
                    let j = choose|j: int| 0 <= j < i && heights@.take(i as int)[j] == h;
                    assert(heights@[j] == heights@[i as int]);
                }
            }
            let ghost old_keys = keys@;
            result.insert(h, c);
            keys.push(h);
            assert forall|e: u32| keys@.to_set().contains(e) <==> result@.dom().contains(e) by {
                assert(old_keys.to_set().contains(e) <==> old_keys.contains(e));
                assert(keys@.to_set().contains(e) <==> keys@.contains(e));
                if old_keys.contains(e) {
                    let j = choose|j: int| 0 <= j < old_keys.len() && old_keys[j] == e;
                    assert(keys@[j] == e);
                }
                if keys@.contains(e) && e != h {
                    let j = choose|j: int| 0 <= j < keys@.len() && keys@[j] == e;
                    assert(old_keys[j] == e);
                }
                assert(keys@[keys@.len() - 1] == h);
            }
            assert(keys@.to_set() =~= result@.dom());
        } else {
            match best {
                Some(b) => {
                    if h > b {
                        best = Some(h);
                    }
                },
                None => {
                    best = Some(h);
                },
            }
        }
        assert(forall|j: int| 0 <= j < i ==> next[j] == heights@[j]);
        i += 1;
    }
    assert(heights@.take(i as int) =~= heights@);
    if let Some(b) = best {
        let c = *all.get(&b).unwrap();
        assert(!result@.dom().contains(b));
        let ghost old_keys = keys@;
        result.insert(b, c);
        keys.push(b);
        assert forall|e: u32| keys@.to_set().contains(e) <==> result@.dom().contains(e) by {
            assert(old_keys.to_set().contains(e) <==> old_keys.contains(e));
            assert(keys@.to_set().contains(e) <==> keys@.contains(e));
            if old_keys.contains(e) {
                let j = choose|j: int| 0 <= j < old_keys.len() && old_keys[j] == e;
                assert(keys@[j] == e);
            }
            if keys@.contains(e) && e != b {
                let j = choose|j: int| 0 <= j < keys@.len() && keys@[j] == e;
                assert(old_keys[j] == e);
            }
            assert(keys@[keys@.len() - 1] == b);
        }
        assert(keys@.to_set() =~= result@.dom());
    }
    proof {
        let m = all@;
        let above = m.restrict(m.dom().filter(|h: u32| h > g));
        assert(forall|e: u32| heights@.contains(e) <==> m.dom().contains(e)) by {
            assert(forall|e: u32| heights@.to_set().contains(e) <==> heights@.contains(e));
        }
        if has_at_or_below(m, g) {
            let w = choose|w: u32| m.dom().contains(w) && w <= g;
            assert(heights@.to_set().contains(w));
            let j = choose|j: int| 0 <= j < heights@.len() && heights@[j] == w;
            let b = best->0;
            let hb = highest_at_or_below(m, g);
            assert(m.dom().contains(b) && b <= g && forall|k: u32|
                m.dom().contains(k) && k <= g ==> k <= b) by {
                assert forall|k: u32| m.dom().contains(k) && k <= g implies k <= b by {
                    assert(heights@.to_set().contains(k));
                    let jk = choose|jk: int| 0 <= jk < heights@.len() && heights@[jk] == k;
                }
            }
            assert(hb == b);
            assert(result@ =~= above.insert(b, m[b]));
        } else {
            assert(best is None) by {
                if best is Some {
                    let j = choose|j: int| 0 <= j < i && heights@[j] <= g;
                    assert(heights@.to_set().contains(heights@[j]));
                }
            }
            assert(result@ =~= above);
        }
    }
    (result, keys)
}

/// `slice::sort` on `u64`s. Its documentation says that it sorts the
/// slice in ascending order; what it returns is a rearrangement of what it
/// was given.
#[verifier::external_body]
fn sort_u64(v: &mut Vec<u64>)
    ensures
        final(v)@.to_multiset() == old(v)@.to_multiset(),
        forall|i: int, j: int| 0 <= i <= j < final(v)@.len() ==> final(v)@[i] <= final(v)@[j],
{
    v.sort();
}

/// Sorts distinct keys into strictly increasing order.
pub fn sort_keys(v: &mut Vec<u64>)
    requires
        old(v)@.no_duplicates(),
    ensures
        forall|i: int, j: int| 0 <= i < j < final(v)@.len() ==> final(v)@[i] < final(v)@[j],
        final(v)@.to_set() == old(v)@.to_set(),
        final(v)@.no_duplicates(),
        final(v)@.len() == old(v)@.len(),
{
    broadcast use vstd::seq_lib::group_to_multiset_ensures;

    let ghost before = v@;
    sort_u64(v);
    proof {
        before.lemma_multiset_has_no_duplicates();
        assert forall|e: u64| v@.to_multiset().contains(e) implies v@.to_multiset().count(e) == 1 by {
        }
        v@.lemma_multiset_has_no_duplicates_conv();
        assert forall|e: u64| v@.to_set().contains(e) <==> before.to_set().contains(e) by {
            assert(v@.to_set().contains(e) <==> v@.contains(e));
            assert(before.to_set().contains(e) <==> before.contains(e));
            assert(v@.contains(e) <==> v@.to_multiset().count(e) > 0);
            assert(before.contains(e) <==> before.to_multiset().count(e) > 0);
        }
        assert(v@.to_set() =~= before.to_set());
        assert(v@.len() == v@.to_multiset().len());
        assert(before.len() == before.to_multiset().len());
        assert forall|i: int, j: int| 0 <= i < j < v@.len() implies v@[i] < v@[j] by {
            assert(v@[i] <= v@[j]);
            assert(v@[i] != v@[j]);
        }
    }
}

/// Sorts distinct heights into strictly increasing order.
pub fn sort_heights(v: &mut Vec<u32>)
    requires
        old(v)@.no_duplicates(),
    ensures
        strictly_increasing(final(v)@),
        final(v)@.to_set() == old(v)@.to_set(),
        final(v)@.no_duplicates(),
        final(v)@.len() == old(v)@.len(),
{
    let ghost before = v@;
    let mut wide: Vec<u64> = Vec::new();
    let mut i: usize = 0;
    while i < v.len()
        invariant
            i <= v@.len(),
            v@ == before,
            before.no_duplicates(),
            wide@.len() == i,
            forall|j: int| 0 <= j < i ==> #[trigger] wide@[j] == before[j] as u64,
        decreases v@.len() - i,
    {
        wide.push(v[i] as u64);
        i += 1;
    }
    let ghost unsorted = wide@;
    assert(unsorted.no_duplicates()) by {
        assert forall|a: int, b: int| 0 <= a < unsorted.len() && 0 <= b < unsorted.len() && a != b implies unsorted[a] != unsorted[b] by {
            assert(before[a] != before[b]);
        }
    }
    sort_keys(&mut wide);
    let mut out: Vec<u32> = Vec::new();
    let mut i: usize = 0;
    while i < wide.len()
        invariant
            i <= wide@.len(),
            wide@.len() == before.len(),
            forall|a: int, b: int| 0 <= a < b < wide@.len() ==> wide@[a] < wide@[b],
            wide@.to_set() == unsorted.to_set(),
            forall|j: int| 0 <= j < unsorted.len() ==> #[trigger] unsorted[j] == before[j] as u64,
            out@.len() == i,
            forall|j: int| 0 <= j < i ==> #[trigger] out@[j] as u64 == wide@[j],
        decreases wide@.len() - i,
    {
        proof {
            assert(wide@.to_set().contains(wide@[i as int]));
            assert(unsorted.contains(wide@[i as int]));
            let j = choose|j: int| 0 <= j < unsorted.len() && unsorted[j] == wide@[i as int];
            assert(wide@[i as int] <= u32::MAX);
        }
        out.push(wide[i] as u32);
        i += 1;
    }
    *v = out;
    proof {
        assert forall|a: int, b: int| 0 <= a < b < v@.len() implies v@[a] < v@[b] by {
            assert(v@[a] as u64 == wide@[a]);
            assert(v@[b] as u64 == wide@[b]);
        }
        assert forall|e: u32| v@.to_set().contains(e) <==> before.to_set().contains(e) by {
            assert(v@.to_set().contains(e) <==> v@.contains(e));
            assert(before.to_set().contains(e) <==> before.contains(e));
            if v@.contains(e) {
                let a = choose|a: int| 0 <= a < v@.len() && v@[a] == e;
                assert(wide@.to_set().contains(wide@[a]));
                assert(unsorted.contains(wide@[a]));
                let j = choose|j: int| 0 <= j < unsorted.len() && unsorted[j] == wide@[a];
                assert(before[j] == e);
            }
            if before.contains(e) {
                let j = choose|j: int| 0 <= j < before.len() && before[j] == e;
                assert(unsorted.contains(unsorted[j]));
                assert(wide@.to_set().contains(e as u64));
                let a = choose|a: int| 0 <= a < wide@.len() && wide@[a] == e as u64;
                assert(v@[a] == e);
            }
        }
        assert(v@.to_set() =~= before.to_set());
        assert(v@.no_duplicates()) by {
            assert forall|a: int, b: int| 0 <= a < v@.len() && 0 <= b < v@.len() && a != b implies v@[a] != v@[b] by {
                if a < b {
                    assert(v@[a] < v@[b]);
                } else {
                    assert(v@[b] < v@[a]);
                }
            }
        }
    }
}

/// Adds `e` to a list of distinct values unless it is already there.
pub fn push_unique(v: &mut Vec<u32>, e: u32)
    requires
        old(v)@.no_duplicates(),
    ensures
        final(v)@.to_set() == old(v)@.to_set().insert(e),
        final(v)@.no_duplicates(),
{
    let mut i: usize = 0;
    while i < v.len()
        invariant
            i <= v@.len(),
            v@ == old(v)@,
            old(v)@.no_duplicates(),
            forall|j: int| 0 <= j < i ==> v@[j] != e,
        decreases v@.len() - i,
    {
        if v[i] == e {
            assert(v@.to_set().contains(e));
            assert(v@.to_set().insert(e) =~= v@.to_set());
            return ;
        }
        i += 1;
    }
    let ghost before = v@;
    v.push(e);
    assert forall|a: u32| v@.to_set().contains(a) <==> before.to_set().insert(e).contains(a) by {
        assert(v@.to_set().contains(a) <==> v@.contains(a));
        assert(before.to_set().contains(a) <==> before.contains(a));
        if before.contains(a) {
            let j = choose|j: int| 0 <= j < before.len() && before[j] == a;
            assert(v@[j] == a);
        }
        if v@.contains(a) && a != e {
            let j = choose|j: int| 0 <= j < v@.len() && v@[j] == a;
            assert(before[j] == a);
        }
        assert(v@[v@.len() - 1] == e);
    }
    assert(v@.to_set() =~= before.to_set().insert(e));
}

/// Adds the values of `src` that `dst` lacks to `dst`.
pub fn extend_unique(dst: &mut Vec<u32>, src: &Vec<u32>)
    requires
        old(dst)@.no_duplicates(),
    ensures
        final(dst)@.to_set() == old(dst)@.to_set() + src@.to_set(),
        final(dst)@.no_duplicates(),
{
    let mut i: usize = 0;
    while i < src.len()
        invariant
            i <= src@.len(),
            dst@.no_duplicates(),
            dst@.to_set() == old(dst)@.to_set() + src@.take(i as int).to_set(),
        decreases src@.len() - i,
    {
        let ghost before = dst@;
        push_unique(dst, src[i]);
        assert(src@.take(i + 1) =~= src@.take(i as int).push(src@[i as int]));
        assert(src@.take(i + 1).to_set() =~= src@.take(i as int).to_set().insert(src@[i as int])) by {
            assert forall|a: u32| src@.take(i + 1).to_set().contains(a) <==> src@.take(i as int).to_set().insert(src@[i as int]).contains(a) by {
                let p = src@.take(i as int);
                let n = src@.take(i + 1);
                assert(n.to_set().contains(a) <==> n.contains(a));
                assert(p.to_set().contains(a) <==> p.contains(a));
                if p.contains(a) {
                    let j = choose|j: int| 0 <= j < p.len() && p[j] == a;
                    assert(n[j] == a);
                }
                if n.contains(a) && a != src@[i as int] {
                    let j = choose|j: int| 0 <= j < n.len() && n[j] == a;
                    assert(p[j] == a);
                }
                assert(n[i as int] == src@[i as int]);
            }
        }
        assert(dst@.to_set() =~= old(dst)@.to_set() + src@.take(i + 1).to_set());
        i += 1;
    }
    assert(src@.take(i as int) =~= src@);
}

/// The heights of the cells next to `(x, y)` that lie on the map, each once.
fn neighbor_list(hm: &Heightmap, x: u32, y: u32) -> (r: Vec<u32>)
    requires
        x < hm.spec_width(),
        y < hm.spec_height(),
    ensures
        r@.to_set() == neighbor_heights(*hm, x as int, y as int),
        r@.no_duplicates(),
{
    let (width, height) = hm.size();
    let mut r: Vec<u32> = Vec::new();
    let ghost mut s: Set<u32> = Set::empty();
    assert(r@.to_set() =~= s);
    if x > 0 {
        push_unique(&mut r, hm.at(x - 1, y));
    }
    if x + 1 < width {
        push_unique(&mut r, hm.at(x + 1, y));
    }
    if y > 0 {
        push_unique(&mut r, hm.at(x, y - 1));
    }
    if y + 1 < height {
        push_unique(&mut r, hm.at(x, y + 1));
    }
    assert(r@.to_set() =~= neighbor_heights(*hm, x as int, y as int));
    r
}

/// Tile indices and centers are computed in `i32` without overflow.
pub open spec fn grid_fits(width: u32, height: u32) -> bool {
    &&& width as int * height as int <= u32::MAX
    &&& width <= i32::MAX
    &&& height <= i32::MAX
    &&& (width > 0 && height > 0 ==> (width - 1) + (height - 1) * height <= i32::MAX)
}

/// One fresh tile for every cell, column by column, under `rule`.
pub fn build_layer(hm: &Heightmap, cm: &Colormap, rule: LayerRule) -> (r: Vec<Tile>)
    requires
        cm.spec_width() == hm.spec_width(),
        cm.spec_height() == hm.spec_height(),
        grid_fits(hm.spec_width(), hm.spec_height()),
    ensures
        fresh_layer(r@, *hm, *cm, rule),
{
    let (width, height) = hm.size();
    let ghost h = height as int;
    let mut tiles: Vec<Tile> = Vec::with_capacity((width * height) as usize);
    let w32 = width as i32;
    let h32 = height as i32;
    let mut x: i32 = 0;
    while x < w32
        invariant
            0 <= x <= w32,
            w32 == width,
            h32 == height,
            h == height,
            width == hm.spec_width(),
            height == hm.spec_height(),
            cm.spec_width() == hm.spec_width(),
            cm.spec_height() == hm.spec_height(),
            grid_fits(width, height),
            tiles@.len() == x * h,
            forall|k: int| 0 <= k < tiles@.len() ==> fresh_tile(#[trigger] tiles@[k], *hm, *cm, rule, k / h, k % h),
        decreases w32 - x,
    {
        let mut y: i32 = 0;
        while y < h32
            invariant
                0 <= x < w32,
                0 <= y <= h32,
                w32 == width,
                h32 == height,
                h == height,
                width == hm.spec_width(),
                height == hm.spec_height(),
                cm.spec_width() == hm.spec_width(),
                cm.spec_height() == hm.spec_height(),
                grid_fits(width, height),
                tiles@.len() == x * h + y,
                forall|k: int| 0 <= k < tiles@.len() ==> fresh_tile(#[trigger] tiles@[k], *hm, *cm, rule, k / h, k % h),
            decreases h32 - y,
        {
            proof {
                assert(0 <= y * h <= (h - 1) * h) by (nonlinear_arith)
                    requires
                        0 <= y < h,
                ;
                lemma_fundamental_div_mod_converse(x * h + y, h, x as int, y as int);
            }
            let index = (x + y * h32) as usize;
            let cx = x as u32;
            let cy = y as u32;
            let original_height = hm.at(cx, cy);
            let (tile_height, color) = match rule {
                LayerRule::Plain => (original_height, cm.at(cx, cy)),
                LayerRule::Capped { cap, color } => {
                    // keep the original height if it's at most the cap,
                    // otherwise cut it down to the cap
                    let capped_height = if original_height > cap {
                        cap
                    } else {
                        original_height
                    };
                    (capped_height, if capped_height == cap {
                        color
                    } else {
                        cm.at(cx, cy)
                    })
                },
                LayerRule::Fill { level, color, lake } => {
                    let pixel_color = cm.at(cx, cy);
                    // Lake layers only fill where color and height both match the layer;
                    // land layers fill everywhere at or above the layer height.
                    let tile_height = if lake {
                        if color_eq(pixel_color, color) && original_height == level {
                            level
                        } else {
                            0
                        }
                    } else if original_height >= level {
                        level
                    } else {
                        0
                    };
                    (tile_height, color)
                },
            };
            let ghost before = tiles@;
            tiles.push(
                Tile {
                    index,
                    center: (cx, cy),
                    // store a set of the neighbor's heights with each tile
                    // they will be joined when the tiles merge
                    neighbors: neighbor_list(hm, cx, cy),
                    size: (1, 1),
                    color,
                    height: tile_height,
                    parent: None,
                },
            );
            assert forall|k: int| 0 <= k < tiles@.len() implies fresh_tile(#[trigger] tiles@[k], *hm, *cm, rule, k / h, k % h) by {
                if k < before.len() {
                    assert(tiles@[k] == before[k]);
                }
            }
            y += 1;
        }
        assert(x * h + h == (x + 1) * h) by (nonlinear_arith);
        x += 1;
    }
    assert forall|xx: int, yy: int| 0 <= xx < width && 0 <= yy < h implies fresh_tile(
        #[trigger] tiles@[xx * h + yy],
        *hm,
        *cm,
        rule,
        xx,
        yy,
    ) by {
        assert(0 <= xx * h + yy < width * h) by (nonlinear_arith)
            requires
                0 <= xx < width,
                0 <= yy < h,
        ;
        lemma_fundamental_div_mod_converse(xx * h + yy, h, xx, yy);
    }
    tiles
}

} // verus!
