use window_layout::expose::{assign_cells, expose, expose_step};
use window_layout::geometry::{floor_div, grid_side, isqrt, total_area, LayoutError, Window};
use window_layout::normalize::normalize;

fn win(id: u32, width: u16, height: u16, x: i64, y: i64) -> Window {
    Window { id, width, height, x, y, scale: 1000 }
}

#[test]
fn grid_side_is_ceiling_square_root() {
    assert_eq!(grid_side(0), 0);
    assert_eq!(grid_side(1), 1);
    assert_eq!(grid_side(2), 2);
    assert_eq!(grid_side(4), 2);
    assert_eq!(grid_side(5), 3);
    assert_eq!(grid_side(10), 4);
    assert_eq!(grid_side(65536), 256);
}

#[test]
fn isqrt_rounds_down() {
    assert_eq!(isqrt(0), 0);
    assert_eq!(isqrt(1), 1);
    assert_eq!(isqrt(2_500_000), 1581);
    assert_eq!(isqrt(4_000_000), 2000);
    assert_eq!(isqrt(u128::MAX), u64::MAX);
}

#[test]
fn floor_div_rounds_toward_negative_infinity() {
    assert_eq!(floor_div(7, 2), 3);
    assert_eq!(floor_div(-7, 2), -4);
    assert_eq!(floor_div(-8, 2), -4);
    assert_eq!(floor_div(0, 5), 0);
}

#[test]
fn total_area_skips_indefinite_sizes() {
    let ws = vec![win(1, 10, 20, 0, 0), win(2, 0, 30, 0, 0), win(3, 3, 3, 0, 0)];
    assert_eq!(total_area(&ws), 209);
}

#[test]
fn cells_are_distinct_and_in_grid() {
    let ws: Vec<Window> = (0..7).map(|i| win(i, 100, 100, 0, 0)).collect();
    let cols = grid_side(ws.len());
    assert_eq!(cols, 3);
    let cells = assign_cells(&ws, cols, 900, 900);
    assert_eq!(cells, vec![0, 1, 3, 4, 2, 6, 5]);
    let mut seen = cells.clone();
    seen.sort();
    seen.dedup();
    assert_eq!(seen.len(), 7);
    assert!(cells.iter().all(|&c| c < 9));
}

#[test]
fn cells_follow_window_positions() {
    let ws = vec![win(1, 10, 10, 900, 900), win(2, 10, 10, 900, 900), win(3, 10, 10, 0, 0)];
    let cells = assign_cells(&ws, 2, 1000, 1000);
    assert_eq!(cells, vec![3, 1, 0]);
}

#[test]
fn expose_four_equal_windows() {
    let mut ws: Vec<Window> = (0..4).map(|i| win(i, 250, 100, 0, 0)).collect();
    expose(&mut ws, 1000, 1000).unwrap();
    let got: Vec<(i64, i64, i64)> = ws.iter().map(|w| (w.x, w.y, w.scale)).collect();
    assert_eq!(got, vec![(0, 150, 2000), (500, 150, 2000), (0, 650, 2000), (500, 650, 2000)]);
}

#[test]
fn expose_shrinks_large_windows_into_cells() {
    let mut ws = vec![win(7, 800, 400, 10, 10), win(8, 300, 600, 990, 10)];
    expose(&mut ws, 1000, 1000).unwrap();
    assert_eq!((ws[0].x, ws[0].y, ws[0].scale), (0, 125, 625));
    assert_eq!((ws[1].x, ws[1].y, ws[1].scale), (625, 0, 833));
    assert_eq!(ws[0].id, 7);
    assert_eq!(ws[1].width, 300);
}

#[test]
fn expose_keeps_indefinite_sizes_at_unit_scale() {
    let mut ws = vec![win(1, 0, 50, 3, 3)];
    expose(&mut ws, 600, 400).unwrap();
    assert_eq!((ws[0].x, ws[0].y, ws[0].scale), (300, 200, 1000));
}

#[test]
fn expose_of_no_windows_is_a_no_op() {
    let mut ws: Vec<Window> = Vec::new();
    expose(&mut ws, 1000, 1000).unwrap();
    assert!(ws.is_empty());
}

#[test]
fn expose_step_at_full_progress_equals_expose() {
    let start = vec![win(1, 250, 100, 40, 70), win(2, 300, 300, 800, 90), win(3, 120, 500, 300, 900)];
    let mut a = start.clone();
    let mut b = start.clone();
    expose(&mut a, 1000, 1000).unwrap();
    expose_step(&mut b, 1000, 1000, 100).unwrap();
    assert_eq!(a, b);
}

#[test]
fn expose_step_at_zero_progress_leaves_windows() {
    let start = vec![win(1, 250, 100, 40, 70), win(2, 300, 300, 800, 90), win(3, 120, 500, 300, 900)];
    let mut b = start.clone();
    expose_step(&mut b, 1000, 1000, 0).unwrap();
    assert_eq!(b, start);
}

#[test]
fn expose_step_half_way() {
    let mut ws = vec![win(1, 250, 100, 100, 100)];
    expose_step(&mut ws, 1000, 1000, 50).unwrap();
    // expose target: scale 4000 at (0, 300); half way from scale 1000 at (100, 100)
    assert_eq!(ws[0].scale, 2500);
    assert_eq!((ws[0].x, ws[0].y), (50, 200));
}

#[test]
fn expose_step_blends_toward_the_expose_target() {
    let mut ws = vec![win(1, 200, 400, 0, 0)];
    expose_step(&mut ws, 1000, 1000, 50).unwrap();
    // expose target: scale 2500 at (250, 0)
    assert_eq!((ws[0].x, ws[0].y, ws[0].scale), (125, 0, 1750));
}

#[test]
fn expose_step_overshoots_past_full_progress() {
    let mut ws = vec![win(1, 500, 500, 0, 0)];
    expose_step(&mut ws, 1000, 1000, 200).unwrap();
    assert_eq!(ws[0].scale, 3000);
}

#[test]
fn normalize_cascades_at_unit_scale() {
    let mut ws = vec![
        Window { id: 1, width: 10, height: 10, x: 7, y: 8, scale: 300 },
        Window { id: 2, width: 20, height: 30, x: -5, y: 9, scale: 2500 },
        Window { id: 3, width: 0, height: 0, x: 1, y: 1, scale: 1 },
    ];
    normalize(&mut ws, 2000, 2000);
    let got: Vec<(u32, i64, i64, i64)> = ws.iter().map(|w| (w.id, w.x, w.y, w.scale)).collect();
    assert_eq!(got, vec![(1, 0, 0, 1000), (2, 50, 50, 1000), (3, 100, 100, 1000)]);
}

#[test]
fn layout_error_variants_differ() {
    assert_ne!(LayoutError::EmptySpace, LayoutError::ZeroWindowArea);
}

#[test]
fn expose_rejects_an_empty_space() {
    let start = vec![win(1, 10, 10, 0, 0)];
    let mut ws = start.clone();
    assert_eq!(expose(&mut ws, 0, 100), Err(LayoutError::EmptySpace));
    assert_eq!(expose_step(&mut ws, 100, 0, 50), Err(LayoutError::EmptySpace));
    assert_eq!(ws, start);
}
