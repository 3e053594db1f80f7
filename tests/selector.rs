use aqua3d::backscatter::select_samples;
use aqua3d::errors::Aqua3dError;
use aqua3d::grid::Grid;

fn scene() -> (Grid<u32>, Grid<(u8, u8, u8)>) {
    let depth = Grid { height: 2, width: 4, cells: vec![10u32, 20, 30, 40, 50, 60, 70, 80] };
    let brightness = [5u8, 90, 30, 60, 10, 20, 70, 40];
    let img = Grid { height: 2, width: 4, cells: brightness.iter().map(|&v| (v, v + 1, v + 2)).collect() };
    (depth, img)
}

#[test]
fn two_bins_share_the_budget() {
    let (depth, img) = scene();
    let s = select_samples(&depth, &img, 2, 500_000, 2, 0).unwrap();
    assert_eq!(s.len(), 3);
    assert_eq!(s[0], vec![(30, 30), (40, 60)]);
    assert_eq!(s[1], vec![(30, 31), (40, 61)]);
    assert_eq!(s[2], vec![(30, 32), (40, 62)]);
}

#[test]
fn each_bin_gives_its_darkest_half() {
    let (depth, img) = scene();
    let s = select_samples(&depth, &img, 2, 500_000, 4, 0).unwrap();
    assert_eq!(s[0], vec![(30, 30), (40, 60), (50, 10), (60, 20)]);
}

#[test]
fn budget_caps_total_samples() {
    let (depth, img) = scene();
    for max in 0..10u32 {
        for bins in 1..5usize {
            let s = select_samples(&depth, &img, bins, 1_000_000, max, 0).unwrap();
            for c in 0..3 {
                assert!(s[c].len() <= max as usize);
                assert!(s[c].len() <= max as usize * bins);
            }
        }
    }
}

#[test]
fn shallow_cells_are_left_out() {
    let (depth, img) = scene();
    let s = select_samples(&depth, &img, 1, 1_000_000, 100, 500_000).unwrap();
    assert_eq!(s[0], vec![(50, 10), (60, 20), (80, 40), (70, 70)]);
}

#[test]
fn zero_bins_select_nothing() {
    let (depth, img) = scene();
    let s = select_samples(&depth, &img, 0, 500_000, 5, 0).unwrap();
    assert!(s.iter().all(|c| c.is_empty()));
}

#[test]
fn flat_depth_is_degenerate() {
    let depth = Grid { height: 1, width: 3, cells: vec![7u32, 7, 7] };
    let img = Grid { height: 1, width: 3, cells: vec![(1u8, 1u8, 1u8); 3] };
    assert_eq!(select_samples(&depth, &img, 2, 500_000, 2, 0), Err(Aqua3dError::DegenerateDepthRange));
}

#[test]
fn empty_depth_is_degenerate() {
    let depth: Grid<u32> = Grid { height: 0, width: 0, cells: vec![] };
    let img: Grid<(u8, u8, u8)> = Grid { height: 0, width: 0, cells: vec![] };
    assert_eq!(select_samples(&depth, &img, 2, 500_000, 2, 0), Err(Aqua3dError::DegenerateDepthRange));
}

#[test]
fn image_of_other_size_is_rejected() {
    let (depth, _) = scene();
    let img = Grid { height: 4, width: 2, cells: vec![(0u8, 0u8, 0u8); 8] };
    assert_eq!(select_samples(&depth, &img, 2, 500_000, 2, 0), Err(Aqua3dError::ShapeMismatch));
}
