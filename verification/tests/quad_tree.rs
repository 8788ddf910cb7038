use heightmap::brick::{Brick, Material};
use heightmap::map::{Colormap, Heightmap};
use heightmap::opt::quad::QuadTree;
use heightmap::util::GenOptions;

fn options() -> GenOptions {
    GenOptions {
        size: 5,
        scale: 10,
        asset: "PB_DefaultMicroBrick".to_string(),
        cull: false,
        micro: false,
        stud: false,
        snap: false,
        img: false,
        glow: false,
        hdmap: false,
        lrgb: false,
        nocollide: false,
        quadtree: true,
        greedy: false,
        gen_full_layers_above_height: 0,
    }
}

fn maps(width: u32, height: u32, heights: Vec<u32>, colors: Vec<[u8; 4]>) -> (Heightmap, Colormap) {
    (
        Heightmap::new(width, height, heights).unwrap(),
        Colormap::new(width, height, colors).unwrap(),
    )
}

const RED: [u8; 4] = [255, 0, 0, 255];
const BLUE: [u8; 4] = [0, 0, 255, 255];

#[test]
fn grid_rejects_wrong_cell_count() {
    assert!(Heightmap::new(2, 2, vec![1, 2, 3]).is_none());
    assert!(Colormap::new(1, 1, vec![]).is_none());
    let g = Heightmap::new(3, 2, vec![1, 2, 3, 4, 5, 6]).unwrap();
    assert_eq!(g.size(), (3, 2));
    // rows are laid end to end
    assert_eq!(g.at(0, 0), 1);
    assert_eq!(g.at(2, 0), 3);
    assert_eq!(g.at(0, 1), 4);
    assert_eq!(g.at(2, 1), 6);
}

#[test]
fn new_rejects_mismatched_maps() {
    let hm = Heightmap::new(2, 2, vec![1; 4]).unwrap();
    let cm = Colormap::new(2, 1, vec![RED; 2]).unwrap();
    match QuadTree::new(&hm, &cm, 0) {
        Err(e) => assert_eq!(e, "Heightmap and colormap must have same dimensions"),
        Ok(_) => panic!("maps of different sizes were accepted"),
    }
}

#[test]
fn single_tile_makes_one_column() {
    let (hm, cm) = maps(1, 1, vec![1], vec![RED]);
    let quad = QuadTree::new(&hm, &cm, 0).unwrap();
    let bricks = quad.into_bricks(options(), 1, 1);
    assert_eq!(bricks.len(), 1);
    let b = &bricks[0];
    // a 1x1 map is centered by no whole tile
    assert_eq!((b.position.x, b.position.y, b.position.z), (5, 5, 0));
    assert_eq!((b.size.x, b.size.y, b.size.z), (5, 5, 10));
    assert_eq!((b.color.r, b.color.g, b.color.b), (255, 0, 0));
    assert_eq!(b.material, Material::Plastic);
    assert_eq!(b.material_intensity, 0);
    assert!(b.collision.player && b.collision.weapon && b.collision.interact && b.collision.tool);
    assert_eq!(b.asset, "PB_DefaultMicroBrick");
}

#[test]
fn quad_merges_uniform_square() {
    let (hm, cm) = maps(2, 2, vec![1; 4], vec![RED; 4]);
    let mut quad = QuadTree::new(&hm, &cm, 0).unwrap();
    assert_eq!(quad.quad_optimize_level(0), 3);
    // nothing left to merge at this level
    assert_eq!(quad.quad_optimize_level(0), 0);
    let bricks = quad.into_bricks(options(), 2, 2);
    assert_eq!(bricks.len(), 1);
    let b = &bricks[0];
    assert_eq!((b.position.x, b.position.y, b.position.z), (0, 0, 0));
    assert_eq!((b.size.x, b.size.y, b.size.z), (10, 10, 10));
}

#[test]
fn quad_leaves_differing_block() {
    let (hm, cm) = maps(2, 2, vec![1, 1, 1, 2], vec![RED; 4]);
    let mut quad = QuadTree::new(&hm, &cm, 0).unwrap();
    assert_eq!(quad.quad_optimize_level(0), 0);
    let bricks = quad.into_bricks(options(), 2, 2);
    assert_eq!(bricks.len(), 4);
}

#[test]
fn line_merges_row() {
    // a 3x1 strip of one color and height merges into one brick
    let (hm, cm) = maps(3, 1, vec![2; 3], vec![BLUE; 3]);
    let mut quad = QuadTree::new(&hm, &cm, 0).unwrap();
    assert_eq!(quad.line_optimize(5), 2);
    assert_eq!(quad.line_optimize(5), 0);
    let bricks = quad.into_bricks(options(), 3, 1);
    assert_eq!(bricks.len(), 1);
    let b = &bricks[0];
    assert_eq!((b.size.x, b.size.y), (15, 5));
    // offset_x = -(3 / 2 * 2 * 5) = -10; center x = (0 * 2 + 3) * 5 - 10 = 5
    assert_eq!((b.position.x, b.position.y), (5, 5));
    // height 2 at scale 10: top at 20, column of max(3 * 10 / 2, 2) = 15 units, rounded to 16
    assert_eq!((b.size.z, b.position.z), (16, 4));
}

#[test]
fn line_respects_length_limit() {
    // at 200 units per cell, only two cells fit in 500 units
    let (hm, cm) = maps(4, 1, vec![1; 4], vec![RED; 4]);
    let mut quad = QuadTree::new(&hm, &cm, 0).unwrap();
    assert_eq!(quad.line_optimize(200), 2);
    let bricks = quad.into_bricks(options(), 4, 1);
    assert_eq!(bricks.len(), 2);
}

#[test]
fn line_prefers_longer_direction() {
    // column 0 is uniform (vertical line of 3), row 0 differs after two cells
    let heights = vec![
        1, 1, 2, //
        1, 3, 4, //
        1, 5, 6,
    ];
    let (hm, cm) = maps(3, 3, heights, vec![RED; 9]);
    let mut quad = QuadTree::new(&hm, &cm, 0).unwrap();
    // at (0, 0): right line of one tile, down line of two tiles: down wins
    assert_eq!(quad.line_optimize(1), 2);
    let bricks: Vec<Brick> = quad.into_bricks(options(), 3, 3);
    assert_eq!(bricks.len(), 7);
}

#[test]
fn tall_column_splits_at_250() {
    let (hm, cm) = maps(1, 1, vec![60], vec![RED]);
    let quad = QuadTree::new(&hm, &cm, 0).unwrap();
    let bricks = quad.into_bricks(options(), 1, 1);
    // top at 600; 61 * 10 / 2 = 305 units: 250 then 55 rounded to 56
    assert_eq!(bricks.len(), 2);
    assert_eq!((bricks[0].size.z, bricks[0].position.z), (250, 350));
    assert_eq!((bricks[1].size.z, bricks[1].position.z), (56, 44));
}

#[test]
fn stud_and_snap_heights() {
    let (hm, cm) = maps(1, 1, vec![3], vec![RED]);
    let quad = QuadTree::new(&hm, &cm, 0).unwrap();
    let mut o = options();
    o.stud = true;
    o.snap = true;
    o.scale = 3;
    let bricks = quad.into_bricks(o, 1, 1);
    // z = 9 snapped to 12; desired = max(4 * 3 / 2, 2) = 6 snapped to 8;
    // first brick max(8, 5) = 8, 8 + 8 % 5 = 11
    assert_eq!(bricks.len(), 1);
    assert_eq!((bricks[0].size.z, bricks[0].position.z), (11, 1));
}

#[test]
fn culled_transparent_tiles_vanish() {
    let (hm, cm) = maps(2, 1, vec![1, 1], vec![RED, [1, 2, 3, 0]]);
    let quad = QuadTree::new(&hm, &cm, 0).unwrap();
    let mut o = options();
    o.cull = true;
    let bricks = quad.into_bricks(o, 2, 1);
    assert_eq!(bricks.len(), 1);
    assert_eq!(bricks[0].color.r, 255);
}

#[test]
fn image_mode_flattens() {
    let (hm, cm) = maps(1, 1, vec![7], vec![RED]);
    let quad = QuadTree::new(&hm, &cm, 0).unwrap();
    let mut o = options();
    o.img = true;
    o.micro = true;
    o.glow = true;
    o.nocollide = true;
    let bricks = quad.into_bricks(o, 1, 1);
    assert!(!bricks.is_empty());
    for b in &bricks {
        assert_eq!(b.position.z, 0);
        assert_eq!(b.size.z, 5);
        assert_eq!(b.material, Material::Glow);
        assert!(!b.collision.player && !b.collision.tool);
    }
}

#[test]
fn layers_above_threshold() {
    // heights 1 and 3 with threshold 2: layer heights 1 (highest at or
    // below) and 3; the base layer is capped at 1
    let (hm, cm) = maps(2, 1, vec![1, 3], vec![RED, BLUE]);
    let quad = QuadTree::new(&hm, &cm, 2).unwrap();
    let bricks = quad.into_bricks(options(), 2, 1);
    // base: two tiles at height 1 (the capped one colored like height 1);
    // fill layer for 3: cell 1 at 3, cell 0 at 0
    assert_eq!(bricks.len(), 4);
    assert_eq!((bricks[1].color.r, bricks[1].color.b), (255, 0));
    let top = &bricks[3];
    assert_eq!((top.color.r, top.color.b), (0, 255));
    // adjustment 1, lifted by 4: top at 30, (3 - 1 + 1) * 10 / 2 = 15, 16 units, 12 high
    assert_eq!((top.size.z, top.position.z), (12, 18));
}
