use raytrace::region::ImageRegion;
use raytrace::tiles::{assemble_tiles, TiledScheduler};

fn render(region: &ImageRegion, width: u32) -> Vec<u32> {
    region
        .pixel_coords()
        .iter()
        .map(|(x, y)| y * width + x)
        .collect()
}

#[test]
fn layout_cuts_edges() {
    let layout = TiledScheduler::new(2).layout_tiles(5, 3);
    assert_eq!(layout.tile_size, 2);
    assert_eq!(layout.num_tiles_hor, 3);
    assert_eq!(layout.num_tiles_ver, 2);
    let regions: Vec<((u32, u32), (u32, u32))> = layout.tiles.iter().map(|t| (t.x, t.y)).collect();
    assert_eq!(
        regions,
        vec![
            ((0, 2), (0, 2)),
            ((2, 4), (0, 2)),
            ((4, 5), (0, 2)),
            ((0, 2), (2, 3)),
            ((2, 4), (2, 3)),
            ((4, 5), (2, 3)),
        ]
    );
}

#[test]
fn layout_clamps_tile_size() {
    let big = TiledScheduler::new(64).layout_tiles(10, 4);
    assert_eq!(big.tile_size, 4);
    assert_eq!(big.num_tiles_hor, 3);
    assert_eq!(big.num_tiles_ver, 1);
    let zero = TiledScheduler::new(0).layout_tiles(2, 2);
    assert_eq!(zero.tile_size, 1);
    assert_eq!(zero.tiles.len(), 4);
}

#[test]
fn assembled_tiles_give_the_image() {
    for &(width, height, tile) in &[(5u32, 3u32, 2u32), (7, 7, 3), (4, 9, 4), (1, 1, 8), (13, 6, 5)] {
        let layout = TiledScheduler::new(tile).layout_tiles(width, height);
        let rendered: Vec<Vec<u32>> = layout.tiles.iter().map(|t| render(t, width)).collect();
        let image = assemble_tiles(rendered, layout.num_tiles_hor as usize, layout.tile_size);
        let expected: Vec<u32> = (0..width * height).collect();
        assert_eq!(image, expected);
    }
}

#[test]
fn every_pixel_in_one_tile() {
    let (width, height) = (11u32, 7u32);
    let layout = TiledScheduler::new(3).layout_tiles(width, height);
    let mut counts = vec![0u32; (width * height) as usize];
    for t in layout.tiles.iter() {
        for (x, y) in t.pixel_coords() {
            counts[(y * width + x) as usize] += 1;
        }
    }
    assert!(counts.iter().all(|&c| c == 1));
}

#[test]
fn assemble_tiles_rows_of_uneven_tiles() {
    // Two tile rows of two tiles, tile size 2: full tiles are 2x2, the last row 2x1.
    let tiles = vec![vec![1, 2, 5, 6], vec![3, 4, 7, 8], vec![9, 10], vec![11, 12]];
    assert_eq!(assemble_tiles(tiles, 2, 2), vec![1, 2, 3, 4, 5, 6, 7, 8, 9, 10, 11, 12]);
    let none: Vec<Vec<u8>> = Vec::new();
    assert!(assemble_tiles(none, 3, 0).is_empty());
}
