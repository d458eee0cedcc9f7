use window_layout::geometry::{LayoutError, Window};
use window_layout::guillotine::{
    apply_packed, bin_pack2, must_retry, next_scale, pack_items, pack_scale, PackItem, PackReport,
    PackedRect,
};
use window_layout::shelf::{bin_pack, Bin};

fn win(id: u32, width: u16, height: u16) -> Window {
    Window { id, width, height, x: 5, y: 6, scale: 1000 }
}

#[test]
fn bin_methods() {
    let mut bin = Bin::new(500, 400);
    assert_eq!((bin.width, bin.height, bin.windows.len()), (500, 400, 0));
    let small = win(1, 100, 100);
    let tall = win(2, 100, 401);
    assert!(bin.can_fit(&small));
    assert!(!bin.can_fit(&tall));
    assert_eq!(bin.empty_space_after_insertion(&small), 400 * 300);
    assert!(bin.add(3, &small));
    assert!(!bin.add(4, &tall));
    assert!(bin.add(5, &small));
    assert_eq!(bin.windows, vec![3, 5]);
    assert!(bin.can_fit(&win(6, 0, 9000)));
}

#[test]
fn bin_pack_sorts_and_lays_out_rows() {
    let mut ws = vec![win(1, 100, 100), win(2, 200, 100), win(3, 100, 100), win(4, 300, 300)];
    let bins = bin_pack(&mut ws, 1000, 1000).unwrap();
    let ids: Vec<u32> = ws.iter().map(|w| w.id).collect();
    assert_eq!(ids, vec![4, 2, 1, 3]);
    assert_eq!(bins.len(), 1);
    assert_eq!(bins[0].windows, vec![0, 1, 2, 3]);
    // area 130000 in a 1000000 bin: scale sqrt(1000000 / 130000) = 2.773
    assert!(ws.iter().all(|w| w.scale == 2773));
    let pos: Vec<(i64, i64)> = ws.iter().map(|w| (w.x, w.y)).collect();
    assert_eq!(pos, vec![(0, 0), (0, 831), (0, 1108), (277, 1108)]);
}

#[test]
fn bin_pack_opens_a_bin_for_a_window_too_large() {
    let mut ws = vec![win(1, 100, 100), win(2, 900, 900)];
    let bins = bin_pack(&mut ws, 500, 500).unwrap();
    assert_eq!(ws[0].id, 2);
    assert_eq!(bins.len(), 1);
    assert_eq!(bins[0].windows, vec![1]);
    assert_eq!((ws[0].x, ws[0].y, ws[0].scale), (5, 6, 1000));
    assert_eq!((ws[1].x, ws[1].y, ws[1].scale), (0, 0, 552));
}

#[test]
fn bin_pack_places_every_window_that_fits_exactly_once() {
    let mut ws: Vec<Window> = (0..9).map(|i| win(i, 50 + 10 * i as u16, 80)).collect();
    let bins = bin_pack(&mut ws, 400, 400).unwrap();
    let mut all: Vec<usize> = bins.iter().flat_map(|b| b.windows.clone()).collect();
    all.sort();
    assert_eq!(all, (0..9).collect::<Vec<usize>>());
    assert!(bins.iter().all(|b| b.width == 400 && b.height == 400));
}

#[test]
fn bin_pack_errors() {
    let mut ws = vec![win(1, 10, 10)];
    assert_eq!(bin_pack(&mut ws, 0, 10).err(), Some(LayoutError::EmptySpace));
    let mut flat = vec![win(1, 0, 10)];
    assert_eq!(bin_pack(&mut flat, 10, 10).err(), Some(LayoutError::ZeroWindowArea));
    assert_eq!(flat[0], win(1, 0, 10));
    let mut none: Vec<Window> = Vec::new();
    assert_eq!(bin_pack(&mut none, 10, 10).unwrap().len(), 0);
}

#[test]
fn pack_scale_values() {
    assert_eq!(pack_scale(4_000_000, 1_600_000), 1581);
    assert_eq!(pack_scale(100, 400), 500);
}

#[test]
fn next_scale_shrinks_by_one_percent_with_a_floor() {
    assert_eq!(next_scale(1581), 1565);
    assert_eq!(next_scale(101), 100);
    assert_eq!(next_scale(100), 100);
    assert_eq!(next_scale(0), 100);
}

#[test]
fn must_retry_rules() {
    assert!(!must_retry(10, 0, 10, 0));
    assert!(must_retry(9, 1, 10, 0));
    assert!(must_retry(9, 0, 10, 39));
    assert!(!must_retry(9, 1, 10, 40));
}

#[test]
fn pack_items_round_sizes() {
    let ws = vec![win(3, 400, 401), win(4, 0, 7)];
    let items = pack_items(&ws, 1581);
    assert_eq!(
        items,
        vec![
            PackItem { id: 3, width: 632, height: 634, padding: 20 },
            PackItem { id: 4, width: 0, height: 0, padding: 20 },
        ]
    );
}

#[test]
fn apply_packed_scales_to_rect_never_above_one() {
    let w = win(1, 400, 200);
    let r = apply_packed(&w, Some(PackedRect { id: 1, x: 30, y: 40, width: 200, height: 200, padding: 20 }));
    assert_eq!((r.x, r.y, r.scale), (30, 40, 500));
    let r = apply_packed(&w, Some(PackedRect { id: 1, x: 1, y: 2, width: 800, height: 800, padding: 20 }));
    assert_eq!((r.x, r.y, r.scale), (1, 2, 1000));
    assert_eq!(apply_packed(&w, None), w);
}

#[test]
fn bin_pack2_ten_equal_windows_fit_at_unit_scale() {
    let mut ws: Vec<Window> = (0..10).map(|i| win(i, 400, 400)).collect();
    let rep = bin_pack2(&mut ws, 2000, 2000).unwrap();
    assert!(rep.all_placed);
    assert!(!rep.first_attempt_ok);
    assert!(rep.tries <= 40);
    assert!(rep.scale < 1581);
    assert!(ws.iter().all(|w| w.scale == 1000));
    for w in &ws {
        assert!(w.x >= 0 && w.y >= 0 && w.x + 400 <= 2000 && w.y + 400 <= 2000);
    }
    let mut corners: Vec<(i64, i64)> = ws.iter().map(|w| (w.x, w.y)).collect();
    corners.sort();
    corners.dedup();
    assert_eq!(corners.len(), 10);
}

#[test]
fn bin_pack2_gives_up_after_forty_retries() {
    let mut ws = vec![win(9, 100, 1)];
    let rep = bin_pack2(&mut ws, 2000, 2000).unwrap();
    assert_eq!(rep.tries, 40);
    assert!(!rep.all_placed);
    assert_eq!(ws[0], win(9, 100, 1));
}

#[test]
fn bin_pack2_retries_until_the_window_fits() {
    let mut ws = vec![win(9, 100, 100)];
    let rep = bin_pack2(&mut ws, 2000, 2000).unwrap();
    assert_eq!(rep.tries, 2);
    assert!(rep.all_placed);
    assert_eq!(rep.scale, 19602);
    assert_eq!((ws[0].x, ws[0].y, ws[0].scale), (20, 20, 1000));
}

#[test]
fn bin_pack2_errors_and_empty_input() {
    let mut ws = vec![win(1, 10, 10)];
    assert_eq!(bin_pack2(&mut ws, 10, 0).err(), Some(LayoutError::EmptySpace));
    let mut flat = vec![win(1, 10, 0)];
    assert_eq!(bin_pack2(&mut flat, 10, 10).err(), Some(LayoutError::ZeroWindowArea));
    let mut none: Vec<Window> = Vec::new();
    assert_eq!(
        bin_pack2(&mut none, 10, 10),
        Ok(PackReport { tries: 0, scale: 0, all_placed: true, first_attempt_ok: true })
    );
}

#[test]
fn bin_pack_four_equal_windows_fill_one_bin() {
    let mut ws: Vec<Window> = (0..4).map(|i| win(i, 500, 500)).collect();
    let bins = bin_pack(&mut ws, 1000, 1000).unwrap();
    assert_eq!(bins.len(), 1);
    let got: Vec<(u32, i64, i64, i64)> = ws.iter().map(|w| (w.id, w.x, w.y, w.scale)).collect();
    assert_eq!(got, vec![(0, 0, 0, 1000), (1, 500, 0, 1000), (2, 0, 500, 1000), (3, 500, 500, 1000)]);
}

#[test]
fn bin_pack_wraps_a_row_at_twice_the_width() {
    let mut ws = vec![win(1, 300, 300), win(2, 400, 400)];
    let bins = bin_pack(&mut ws, 1000, 1000).unwrap();
    assert_eq!(bins.len(), 1);
    let got: Vec<(u32, i64, i64, i64)> = ws.iter().map(|w| (w.id, w.x, w.y, w.scale)).collect();
    assert_eq!(got, vec![(2, 0, 0, 2000), (1, 0, 800, 2000)]);
}
