use rect_raster::{draw, rasterize, Query, RasterError};

fn cell(pixels: &[u8], width: usize, row: usize, col: usize) -> u8 {
    pixels[row * width + col]
}

#[test]
fn empty_list_is_black() {
    let r = rasterize(&[], (100, 150), 25).unwrap();
    assert_eq!((r.height, r.width), (4, 6));
    assert_eq!(r.pixels, vec![0u8; 24]);
}

#[test]
fn single_query_scenario() {
    let q = Query::query(255, 50, 50).left_top(25, 25);
    let r = rasterize(&[q], (100, 100), 25).unwrap();
    assert_eq!((r.height, r.width), (4, 4));
    let mut expected = vec![0u8; 16];
    for (row, col) in [(1, 1), (1, 2), (2, 1), (2, 2)] {
        expected[row * 4 + col] = 255;
    }
    assert_eq!(r.pixels, expected);
}

#[test]
fn later_query_overwrites_earlier() {
    let white = Query::query(255, 100, 100).left_top(0, 0);
    let black = Query::query(0, 25, 25).left_top(0, 0);
    let r = rasterize(&[white, black], (100, 100), 25).unwrap();
    assert_eq!(r.pixels[0], 0);
    assert!(r.pixels[1..].iter().all(|&v| v == 255));
    assert_eq!(r.pixels.len(), 16);
}

#[test]
fn order_decides_overlap_either_way() {
    let dark = Query::query(10, 2, 2).left_top(0, 0);
    let light = Query::query(200, 2, 2).left_top(1, 1);
    let a = rasterize(&[dark, light], (3, 3), 1).unwrap();
    let b = rasterize(&[light, dark], (3, 3), 1).unwrap();
    assert_eq!(cell(&a.pixels, 3, 1, 1), 200);
    assert_eq!(cell(&b.pixels, 3, 1, 1), 10);
    assert_eq!(a.pixels, vec![10, 10, 0, 10, 200, 200, 0, 200, 200]);
    assert_eq!(b.pixels, vec![10, 10, 0, 10, 10, 200, 0, 200, 200]);
}

#[test]
fn rectangle_is_cropped_to_canvas() {
    let q = Query::query(77, 4, 4).right_bottom(2, 5);
    let r = rasterize(&[q], (3, 4), 1).unwrap();
    assert_eq!(r.pixels, vec![0, 77, 77, 77, 0, 77, 77, 77, 0, 0, 0, 0]);
}

#[test]
fn rectangle_outside_canvas_paints_nothing() {
    let q = Query::query(99, 2, 2).left_top(10, 10);
    let r = rasterize(&[q], (4, 4), 2).unwrap();
    assert_eq!(r.pixels, vec![0u8; 4]);
}

#[test]
fn zero_pixel_length_is_division_error() {
    let q = Query::query(1, 10, 10).left_top(0, 0);
    let e = rasterize(&[q], (100, 100), 0).unwrap_err();
    assert_eq!(e, RasterError::DivisionError { numerator: 100, denominator: 0 });
    let e = rasterize(&[], (0, 0), 0).unwrap_err();
    assert_eq!(e, RasterError::DivisionError { numerator: 0, denominator: 0 });
}

#[test]
fn canvas_not_divisible() {
    let e = rasterize(&[], (101, 100), 25).unwrap_err();
    assert_eq!(e, RasterError::NotDivisibleError { numerator: 101, denominator: 25 });
    let e = rasterize(&[], (100, 101), 25).unwrap_err();
    assert_eq!(e, RasterError::NotDivisibleError { numerator: 101, denominator: 25 });
}

#[test]
fn query_not_divisible_aborts() {
    let good = Query::query(255, 50, 50).left_top(0, 0);
    let bad = Query::query(255, 50, 50).left_top(-30, 0);
    let e = rasterize(&[good, bad], (100, 100), 25).unwrap_err();
    assert_eq!(e, RasterError::NotDivisibleError { numerator: -30, denominator: 25 });
}

#[test]
fn query_size_checked_before_origin() {
    let bad = Query::query(255, 40, 50).left_top(10, 0);
    let e = rasterize(&[bad], (100, 100), 25).unwrap_err();
    assert_eq!(e, RasterError::NotDivisibleError { numerator: 40, denominator: 25 });
}

#[test]
fn negative_size_paints_nothing() {
    let q = Query::query(5, -50, 50).left_top(50, 0);
    let r = rasterize(&[q], (100, 100), 25).unwrap();
    assert_eq!(r.pixels, vec![0u8; 16]);
}

#[test]
fn draw_builds_gray_image() {
    let q = Query::query(255, 50, 50).left_top(25, 25);
    let canvas = draw(&[q], (100, 75), 25).unwrap();
    assert_eq!(canvas.image.dimensions(), (3, 4));
    assert_eq!(canvas.image.get_pixel(1, 1).0, [255]);
    assert_eq!(canvas.image.get_pixel(2, 2).0, [255]);
    assert_eq!(canvas.image.get_pixel(0, 0).0, [0]);
    assert_eq!(canvas.image.get_pixel(2, 3).0, [0]);
    assert_eq!(canvas.image.as_raw().len(), 12);
}

#[test]
fn draw_reports_errors() {
    assert_eq!(
        draw(&[], (100, 100), 0).unwrap_err(),
        RasterError::DivisionError { numerator: 100, denominator: 0 }
    );
    assert_eq!(
        draw(&[], (101, 100), 25).unwrap_err(),
        RasterError::NotDivisibleError { numerator: 101, denominator: 25 }
    );
}
