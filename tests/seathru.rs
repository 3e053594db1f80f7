use aqua3d::background::normalize_background;
use aqua3d::errors::Aqua3dError;
use aqua3d::grid::Grid;
use aqua3d::image_proc::{ImageProcessing, TwoDimensionTransforms};
use aqua3d::seathru::{neighborhood_map, RgbdData, Seathru};
use aqua3d::segment::segment_depth;

fn depth_grid(height: usize, width: usize, cells: Vec<u32>) -> Grid<u32> {
    Grid { height, width, cells }
}

fn gray_image(height: usize, width: usize, cells: &[u32]) -> Grid<(u8, u8, u8)> {
    Grid {
        height,
        width,
        cells: cells.iter().map(|&d| { let v = (d % 256) as u8; (v, v, v) }).collect(),
    }
}

/// A 5x5 scene with shallow corners and deep rows, in units of 1e-5.
fn sample_matrix() -> Vec<u32> {
    vec![
        100, 300, 724000, 811000, 987000,
        400, 200, 518000, 692000, 423000,
        1001000, 1145000, 23000, 1376000, 1454000,
        2012000, 1967000, 1735000, 100400, 100200,
        2111000, 2305000, 2298000, 100100, 100300,
    ]
}

#[test]
fn construct_neighborhood_map_test() {
    let depth = sample_matrix();
    let data = RgbdData { img: gray_image(5, 5, &depth), depth_map: depth_grid(5, 5, depth.clone()) };
    let (nmap, num_neighborhoods) = data.construct_neighborhood_map(100_000, false).unwrap();
    assert_eq!(
        nmap,
        vec![
            0, 0, 2, 2, 3,
            0, 0, 2, 2, 4,
            5, 5, 6, 7, 7,
            8, 8, 9, 10, 10,
            8, 11, 11, 10, 10,
        ]
    );
    assert_eq!(num_neighborhoods, 10);
}

#[test]
fn segment_sample_matrix_before_normalization() {
    let (raw, k) = segment_depth(&depth_grid(5, 5, sample_matrix()), 100_000, false);
    assert_eq!(
        raw,
        vec![
            1, 1, 2, 2, 3,
            1, 1, 2, 2, 4,
            5, 5, 6, 7, 7,
            8, 8, 9, 10, 10,
            8, 11, 11, 10, 10,
        ]
    );
    assert_eq!(k, 11);
}

#[test]
fn flat_map_is_all_background() {
    let (nmap, count) = neighborhood_map(&depth_grid(2, 2, vec![1, 1, 1, 1]), 100_000, false).unwrap();
    assert_eq!(nmap, vec![0, 0, 0, 0]);
    assert_eq!(count, 0);
}

#[test]
fn two_plateaus_leave_one_region() {
    let mut cells = vec![0u32; 10];
    cells.extend(vec![2_000_000u32; 15]);
    let depth = depth_grid(5, 5, cells);
    let (raw, k) = segment_depth(&depth, 50_000, false);
    assert_eq!(k, 2);
    assert!(raw[..10].iter().all(|&l| l == 1));
    assert!(raw[10..].iter().all(|&l| l == 2));
    let (nmap, count) = neighborhood_map(&depth, 50_000, false).unwrap();
    assert_eq!(count, 1);
    assert!(nmap[..10].iter().all(|&l| l == 0));
    assert!(nmap[10..].iter().all(|&l| l == 2));
}

#[test]
fn random_seeds_label_every_cell() {
    let depth = depth_grid(5, 5, sample_matrix());
    for _ in 0..20 {
        let (raw, k) = segment_depth(&depth, 100_000, true);
        assert_eq!(raw.len(), 25);
        assert!(raw.iter().all(|&l| l >= 1 && l <= k));
        for l in 1..=k {
            assert!(raw.contains(&l));
        }
    }
}

#[test]
fn random_seeds_keep_regions_of_plateaus() {
    let mut cells = vec![0u32; 10];
    cells.extend(vec![2_000_000u32; 15]);
    let depth = depth_grid(5, 5, cells);
    for _ in 0..10 {
        let (raw, k) = segment_depth(&depth, 50_000, true);
        assert_eq!(k, 2);
        assert!(raw[..10].iter().all(|&l| l == raw[0]));
        assert!(raw[10..].iter().all(|&l| l == raw[10]));
        assert_ne!(raw[0], raw[10]);
    }
}

#[test]
fn normalization_is_idempotent() {
    let depth = depth_grid(5, 5, sample_matrix());
    let (raw, k) = segment_depth(&depth, 100_000, false);
    let once = normalize_background(&depth, &raw, k);
    let twice = normalize_background(&depth, &once, k);
    assert_eq!(once, twice);
}

#[test]
fn normalization_picks_most_frequent_near_zero_label() {
    let depth = depth_grid(1, 5, vec![0, 0, 0, 5, 9]);
    assert_eq!(normalize_background(&depth, &vec![1, 2, 2, 3, 2], 3), vec![1, 0, 0, 3, 0]);
}

#[test]
fn normalization_tie_goes_to_smallest_label() {
    let depth = depth_grid(1, 4, vec![0, 0, 7, 8]);
    assert_eq!(normalize_background(&depth, &vec![3, 2, 3, 2], 3), vec![3, 0, 3, 0]);
}

#[test]
fn empty_map_has_no_near_zero_cells() {
    let r = neighborhood_map(&depth_grid(0, 0, vec![]), 100_000, false);
    assert_eq!(r, Err(Aqua3dError::EmptyNearZeroSet));
}

#[test]
fn run_pipeline_succeeds_on_varied_depths() {
    let depth = sample_matrix();
    let data = RgbdData { img: gray_image(5, 5, &depth), depth_map: depth_grid(5, 5, depth.clone()) };
    assert_eq!(data.run_pipeline(false), Ok(()));
}

#[test]
fn run_pipeline_rejects_flat_depth() {
    let depth = vec![4u32; 4];
    let data = RgbdData { img: gray_image(2, 2, &depth), depth_map: depth_grid(2, 2, depth.clone()) };
    assert_eq!(data.run_pipeline(false), Err(Aqua3dError::DegenerateDepthRange));
}

#[test]
fn run_pipeline_rejects_mismatched_image() {
    let depth = vec![1u32, 2, 3, 4];
    let data = RgbdData { img: gray_image(1, 4, &depth), depth_map: depth_grid(2, 2, depth.clone()) };
    assert_eq!(data.run_pipeline(false), Err(Aqua3dError::ShapeMismatch));
}

#[test]
fn grayscale_sums_channels() {
    let img = Grid { height: 1, width: 2, cells: vec![(1u8, 2u8, 3u8), (255u8, 255u8, 255u8)] };
    let g = img.grayscale();
    assert_eq!((g.height, g.width), (1, 2));
    assert_eq!(g.cells, vec![6, 765]);
}

#[test]
fn np_where_lists_positions_row_major() {
    let grid = Grid { height: 2, width: 3, cells: vec![0usize, 4, 0, 4, 4, 1] };
    assert_eq!(grid.np_where(4), vec![(0, 1), (1, 0), (1, 1)]);
    assert_eq!(grid.np_where(7), vec![]);
}

#[test]
fn add_sums() {
    assert_eq!(aqua3d::add(2, 2), 4);
}
