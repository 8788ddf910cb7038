use heightmap::brick::{Brick, BrickSize, Collision, Color, Material, Position};
use heightmap::map::{Colormap, Heightmap};
use heightmap::opt::generate::{level_fits, rest_on_ground, QuadGen, QuadStep};
use heightmap::opt::greedy::{build_planes, height_color_pairs, push_quad_bricks, quads_to_bricks, GreedyQuad};
use heightmap::opt::quad::{color_eq, pow2_u32, QuadTree};
use heightmap::util::GenOptions;

fn opts() -> GenOptions {
    GenOptions {
        size: 5,
        scale: 10,
        asset: "PB_DefaultMicroBrick".to_string(),
        cull: false,
        micro: false,
        stud: false,
        snap: false,
        img: false,
        glow: false,
        hdmap: false,
        lrgb: false,
        nocollide: false,
        quadtree: true,
        greedy: false,
        gen_full_layers_above_height: 0,
    }
}

fn grids(width: u32, height: u32, heights: Vec<u32>, colors: Vec<[u8; 4]>) -> (Heightmap, Colormap) {
    (
        Heightmap::new(width, height, heights).unwrap(),
        Colormap::new(width, height, colors).unwrap(),
    )
}

const RED: [u8; 4] = [255, 0, 0, 255];
const BLUE: [u8; 4] = [0, 0, 255, 255];
const CLEAR: [u8; 4] = [0, 0, 0, 0];

fn brick_at(z: i32, size_z: u16) -> Brick {
    Brick {
        asset: "B".to_string(),
        size: BrickSize { x: 5, y: 5, z: size_z },
        position: Position { x: 1, y: 2, z },
        collision: Collision { player: true, weapon: true, interact: true, tool: true },
        color: Color { r: 1, g: 2, b: 3 },
        material: Material::Plastic,
        material_intensity: 5,
    }
}

#[test]
fn pow2_and_level_limit() {
    assert_eq!(pow2_u32(0), 1);
    assert_eq!(pow2_u32(5), 32);
    // 2 * 5 = 10 < 500
    assert!(level_fits(0, 5));
    // 64 * 5 = 320 < 500, 128 * 5 = 640
    assert!(level_fits(5, 5));
    assert!(!level_fits(6, 5));
    // 2 * 250 = 500 is not under 500
    assert!(!level_fits(0, 250));
}

#[test]
fn colors_compare_all_channels() {
    assert!(color_eq(RED, RED));
    assert!(!color_eq(RED, [255, 0, 0, 254]));
}

#[test]
fn rest_on_ground_lifts_lowest_bottom_to_zero() {
    // bottoms at 10 - 20 = -10 and 30 - 5 = 25
    let mut bricks = vec![brick_at(10, 20), brick_at(30, 5)];
    rest_on_ground(&mut bricks);
    assert_eq!(bricks[0].position.z, 20);
    assert_eq!(bricks[1].position.z, 40);
    // everything else stays
    assert_eq!((bricks[0].position.x, bricks[0].position.y), (1, 2));
    assert_eq!(bricks[0].size.z, 20);
}

#[test]
fn rest_on_ground_lowers_floating_save() {
    let mut bricks = vec![brick_at(50, 10), brick_at(60, 5)];
    rest_on_ground(&mut bricks);
    // lowest bottom was 40
    assert_eq!(bricks[0].position.z, 10);
    assert_eq!(bricks[1].position.z, 20);
}

#[test]
fn rest_on_ground_keeps_grounded_and_empty_saves() {
    let mut bricks = vec![brick_at(10, 10), brick_at(30, 5)];
    rest_on_ground(&mut bricks);
    assert_eq!(bricks[0].position.z, 10);
    assert_eq!(bricks[1].position.z, 30);
    let mut none: Vec<Brick> = Vec::new();
    rest_on_ground(&mut none);
    assert!(none.is_empty());
}

#[test]
fn quad_gen_rejects_mismatched_maps() {
    let hm = Heightmap::new(2, 2, vec![1; 4]).unwrap();
    let cm = Colormap::new(1, 2, vec![RED; 2]).unwrap();
    match QuadGen::start(&hm, &cm, &opts()) {
        Err(e) => assert_eq!(e, "Heightmap and colormap must have same dimensions"),
        Ok(_) => panic!("maps of different sizes were accepted"),
    }
}

#[test]
fn quad_gen_runs_levels_then_lines() {
    let (hm, cm) = grids(2, 2, vec![1; 4], vec![RED; 4]);
    let mut g = QuadGen::start(&hm, &cm, &opts()).unwrap();
    assert_eq!(g.step(), QuadStep::Level(0));
    assert_eq!(g.advance(), 3);
    // 4 * 5 < 500: the next level is tried
    assert_eq!(g.step(), QuadStep::Level(1));
    assert_eq!(g.advance(), 0);
    assert_eq!(g.step(), QuadStep::Lines);
    assert_eq!(g.advance(), 0);
    assert_eq!(g.step(), QuadStep::Done);
    let bricks = g.into_bricks(opts());
    assert_eq!(bricks.len(), 1);
    assert_eq!((bricks[0].size.x, bricks[0].size.y, bricks[0].size.z), (10, 10, 10));
    assert_eq!((bricks[0].position.x, bricks[0].position.y, bricks[0].position.z), (0, 0, 0));
}

#[test]
fn quad_gen_without_quadtree_starts_with_lines() {
    let (hm, cm) = grids(3, 1, vec![2; 3], vec![BLUE; 3]);
    let mut o = opts();
    o.quadtree = false;
    let mut g = QuadGen::start(&hm, &cm, &o).unwrap();
    assert_eq!(g.step(), QuadStep::Lines);
    assert_eq!(g.advance(), 2);
    assert_eq!(g.step(), QuadStep::Lines);
    assert_eq!(g.advance(), 0);
    assert_eq!(g.step(), QuadStep::Done);
    let bricks = g.into_bricks(o);
    assert_eq!(bricks.len(), 1);
    assert_eq!((bricks[0].size.x, bricks[0].size.y), (15, 5));
}

#[test]
fn quad_gen_matches_tree_steps() {
    let heights = vec![1, 1, 2, 2, 1, 1, 2, 2, 3, 3, 3, 3, 3, 3, 3, 3];
    let colors = vec![RED; 16];
    let (hm, cm) = grids(4, 4, heights, colors);
    let mut g = QuadGen::start(&hm, &cm, &opts()).unwrap();
    let mut total = 0;
    while g.step() != QuadStep::Done {
        total += g.advance();
    }
    let bricks = g.into_bricks(opts());
    let mut q = QuadTree::new(&hm, &cm, 0).unwrap();
    let mut by_hand = q.quad_optimize_level(0);
    by_hand += q.quad_optimize_level(1);
    loop {
        let c = q.line_optimize(5);
        by_hand += c;
        if c == 0 {
            break;
        }
    }
    let expected = q.into_bricks(opts(), 4, 4);
    assert_eq!(total, by_hand);
    // every merged tile is one brick fewer
    assert_eq!(bricks.len(), 16 - total);
    assert_eq!(bricks.len(), expected.len());
    for (a, b) in bricks.iter().zip(expected.iter()) {
        assert_eq!(a.position, b.position);
        assert_eq!(a.size, b.size);
    }
}

#[test]
fn pairs_are_sorted_and_distinct() {
    // row-major: (0,0)=1 RED, (1,0)=0 BLUE, (0,1)=1 RED, (1,1)=2 CLEAR
    let (hm, cm) = grids(2, 2, vec![1, 0, 1, 2], vec![RED, BLUE, RED, CLEAR]);
    let pairs = height_color_pairs(&hm, &cm, false);
    assert_eq!(pairs, vec![(0, BLUE), (1, RED), (2, CLEAR)]);
    // culling drops cells at height 0 and fully transparent ones
    let culled = height_color_pairs(&hm, &cm, true);
    assert_eq!(culled, vec![(1, RED)]);
}

#[test]
fn pairs_order_colors_within_a_height() {
    let (hm, cm) = grids(3, 1, vec![4, 4, 4], vec![[0, 0, 1, 1], [0, 0, 0, 9], [0, 0, 1, 1]]);
    let pairs = height_color_pairs(&hm, &cm, false);
    assert_eq!(pairs, vec![(4, [0, 0, 0, 9]), (4, [0, 0, 1, 1])]);
}

#[test]
fn planes_mark_cells_column_by_column() {
    let (hm, cm) = grids(2, 2, vec![1, 0, 1, 2], vec![RED, BLUE, RED, CLEAR]);
    let pairs = height_color_pairs(&hm, &cm, false);
    let planes = build_planes(&hm, &cm, false, &pairs);
    assert_eq!(planes.len(), 3);
    // cell (x, y) at x * 2 + y
    assert_eq!(planes[0], vec![false, false, true, false]);
    assert_eq!(planes[1], vec![true, true, false, false]);
    assert_eq!(planes[2], vec![false, false, false, true]);
}

#[test]
fn quad_bricks_one_slab() {
    let quads = vec![(GreedyQuad { x: 0, y: 0, w: 2, h: 1 }, 3, RED)];
    let bricks = quads_to_bricks(&quads, &opts(), 2, 1);
    assert_eq!(bricks.len(), 1);
    let b = &bricks[0];
    // offset_x = -(2 / 2 * 2 * 5) = -10, offset_y = 0
    assert_eq!((b.position.x, b.position.y), (0, 5));
    // top at 3 * 10 = 30, slab of 2 * 10 = 20 units
    assert_eq!((b.size.x, b.size.y, b.size.z), (10, 5, 20));
    assert_eq!(b.position.z, 10);
    assert_eq!((b.color.r, b.color.g, b.color.b), (255, 0, 0));
    assert_eq!(b.material, Material::Plastic);
    assert_eq!(b.material_intensity, 5);
    assert!(b.collision.player && b.collision.tool);
}

#[test]
fn quad_bricks_split_tall_slab() {
    let mut o = opts();
    o.scale = 200;
    let mut out = Vec::new();
    push_quad_bricks(&mut out, GreedyQuad { x: 1, y: 0, w: 1, h: 1 }, 2, BLUE, &o, 0, 0);
    // top at 400, 400 units: 250 then 150
    assert_eq!(out.len(), 2);
    assert_eq!((out[0].size.z, out[0].position.z), (250, 150));
    assert_eq!((out[1].size.z, out[1].position.z), (150, -250));
    // x = 1 * 5 * 2 + 1 * 5
    assert_eq!(out[0].position.x, 15);
}

#[test]
fn quad_bricks_stud_heights() {
    let mut o = opts();
    o.stud = true;
    o.scale = 3;
    let mut out = Vec::new();
    push_quad_bricks(&mut out, GreedyQuad { x: 0, y: 0, w: 1, h: 1 }, 1, RED, &o, 0, 0);
    // desired 6: max(6, 5) = 6, 6 + 6 % 5 = 7
    assert_eq!(out.len(), 1);
    assert_eq!((out[0].size.z, out[0].position.z), (7, -4));
}

#[test]
fn quad_bricks_image_glow() {
    let mut o = opts();
    o.img = true;
    o.micro = true;
    o.glow = true;
    o.nocollide = true;
    let quads = vec![
        (GreedyQuad { x: 0, y: 0, w: 1, h: 1 }, 1, RED),
        (GreedyQuad { x: 1, y: 0, w: 1, h: 1 }, 2, BLUE),
    ];
    let bricks = quads_to_bricks(&quads, &o, 2, 1);
    assert_eq!(bricks.len(), 2);
    for b in &bricks {
        assert_eq!(b.position.z, 0);
        assert_eq!(b.size.z, 5);
        assert_eq!(b.material, Material::Glow);
        assert_eq!(b.material_intensity, 0);
        assert!(!b.collision.player && !b.collision.weapon && !b.collision.interact);
        assert!(b.collision.tool);
    }
    assert_eq!(bricks[1].color.b, 255);
}

fn run_quad_gen(hm: &Heightmap, cm: &Colormap, o: &GenOptions) -> Vec<Brick> {
    let mut g = QuadGen::start(hm, cm, o).unwrap();
    while g.step() != QuadStep::Done {
        g.advance();
    }
    let o2 = GenOptions { asset: o.asset.clone(), ..*o };
    g.into_bricks(o2)
}

#[test]
fn bricks_sit_on_tile_grid_for_odd_maps() {
    // 3 by 3, odd both ways: a shift of -(3 * 5) would put edges on 5 mod 10
    let heights = vec![1, 1, 2, 1, 1, 2, 3, 3, 3];
    let (hm, cm) = grids(3, 3, heights, vec![RED; 9]);
    let bricks = run_quad_gen(&hm, &cm, &opts());
    assert!(!bricks.is_empty());
    for b in &bricks {
        assert_eq!((b.position.x - b.size.x as i32).rem_euclid(10), 0);
        assert_eq!((b.position.y - b.size.y as i32).rem_euclid(10), 0);
    }
    let quads = vec![
        (GreedyQuad { x: 0, y: 0, w: 3, h: 1 }, 1, RED),
        (GreedyQuad { x: 1, y: 1, w: 1, h: 2 }, 2, BLUE),
    ];
    for b in quads_to_bricks(&quads, &opts(), 3, 3) {
        assert_eq!((b.position.x - b.size.x as i32).rem_euclid(10), 0);
        assert_eq!((b.position.y - b.size.y as i32).rem_euclid(10), 0);
    }
}

#[test]
fn merged_tiles_cover_the_map_once() {
    // at a low scale every tile is one brick; the bricks' footprints add up
    // to the whole map
    let heights = vec![1, 1, 2, 2, 1, 1, 2, 2, 3, 3, 3, 4, 3, 3, 3, 4, 5, 5, 5, 5];
    let colors = vec![RED; 20];
    let (hm, cm) = grids(4, 5, heights, colors);
    let mut o = opts();
    o.scale = 2;
    let bricks = run_quad_gen(&hm, &cm, &o);
    let area: i64 = bricks.iter().map(|b| (b.size.x as i64 / 5) * (b.size.y as i64 / 5)).sum();
    assert_eq!(area, 4 * 5);
    // no two bricks overlap
    for (i, a) in bricks.iter().enumerate() {
        for b in bricks.iter().skip(i + 1) {
            let apart_x = (a.position.x - b.position.x).abs() >= (a.size.x + b.size.x) as i32;
            let apart_y = (a.position.y - b.position.y).abs() >= (a.size.y + b.size.y) as i32;
            assert!(apart_x || apart_y);
        }
    }
}

#[test]
fn equal_heights_get_equal_columns() {
    // tiles 0 and 2 share a height but not their surroundings or color
    let (hm, cm) = grids(3, 1, vec![9, 1, 9], vec![RED, BLUE, BLUE]);
    let q = QuadTree::new(&hm, &cm, 0).unwrap();
    let bricks = q.into_bricks(opts(), 3, 1);
    let left: Vec<&Brick> = bricks.iter().filter(|b| b.color.r == 255).collect();
    let right: Vec<&Brick> = bricks.iter().filter(|b| b.color.b == 255 && b.position.x > 10).collect();
    assert_eq!(left.len(), right.len());
    for (a, b) in left.iter().zip(right.iter()) {
        assert_eq!((a.size.z, a.position.z), (b.size.z, b.position.z));
    }
}

#[test]
fn merging_keeps_colors() {
    // two colors in two halves: every brick keeps one of the cells' colors
    let colors = vec![RED, RED, BLUE, BLUE, RED, RED, BLUE, BLUE];
    let (hm, cm) = grids(4, 2, vec![1; 8], colors);
    let bricks = run_quad_gen(&hm, &cm, &opts());
    assert_eq!(bricks.len(), 2);
    let mut reds = 0;
    for b in &bricks {
        assert!((b.color.r, b.color.b) == (255, 0) || (b.color.r, b.color.b) == (0, 255));
        if b.color.r == 255 {
            reds += 1;
            // the red half is the left one
            assert!(b.position.x < 0);
        }
    }
    assert_eq!(reds, 1);
}

#[test]
fn lake_layer_sets_the_adjustment() {
    // height 2 is blue, a color that also lies at height 0 (water), so the
    // layer after it fills down to the layer below the water instead
    let (hm, cm) = grids(3, 1, vec![0, 2, 4], vec![BLUE, BLUE, RED]);
    let q = QuadTree::new(&hm, &cm, 1).unwrap();
    let bricks = q.into_bricks(opts(), 3, 1);
    // one brick per tile: three layers of three tiles
    assert_eq!(bricks.len(), 9);
    let top = &bricks[8];
    assert_eq!((top.color.r, top.color.b), (255, 0));
    // adjustment 0: (4 - 0 + 1) * 10 / 2 = 25 units, 26 high, top at 40, not lifted
    assert_eq!((top.size.z, top.position.z), (26, 14));
}

#[test]
fn fill_layers_go_up_in_height() {
    // the heights occur as 5 then 3; the first layer is capped at the lower one
    let (hm, cm) = grids(2, 1, vec![5, 3], vec![RED, BLUE]);
    let q = QuadTree::new(&hm, &cm, 1).unwrap();
    let bricks = q.into_bricks(opts(), 2, 1);
    assert_eq!(bricks.len(), 4);
    // first layer: both cells at 3, in the color of height 3
    for b in &bricks[0..2] {
        assert_eq!((b.color.r, b.color.b), (0, 255));
        assert_eq!((b.size.z, b.position.z), (20, 10));
    }
    // fill layer for 5, adjusted by 3 and lifted by 4
    assert_eq!((bricks[2].color.r, bricks[2].size.z, bricks[2].position.z), (255, 12, 38));
    assert_eq!((bricks[3].color.r, bricks[3].size.z, bricks[3].position.z), (255, 6, -6));
}
