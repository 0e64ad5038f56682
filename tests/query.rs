use rect_raster::{Query, QueryBuilder};

#[test]
fn query_keeps_color_and_size() {
    let b = Query::query(7, 40, 60);
    assert_eq!(b, QueryBuilder { color: 7, diagonal: (40, 60) });
}

#[test]
fn left_top_is_origin() {
    let q = Query::query(255, 50, 75).left_top(25, 100);
    assert_eq!(q, Query { color: 255, diagonal: (50, 75), left_top: (25, 100) });
}

#[test]
fn left_bottom_subtracts_height() {
    let q = Query::query(0, 250, 3250).left_bottom(4050, 675);
    assert_eq!(q.left_top, (3800, 675));
    assert_eq!(q.diagonal, (250, 3250));
}

#[test]
fn right_top_subtracts_width() {
    let q = Query::query(0, 500, 1000).right_top(50, 5925);
    assert_eq!(q.left_top, (50, 4925));
}

#[test]
fn right_bottom_subtracts_both() {
    let q = Query::query(9, 30, 40).right_bottom(100, 200);
    assert_eq!(q.left_top, (70, 160));
    assert_eq!(q.color, 9);
}

#[test]
fn corners_give_the_same_rectangle() {
    let (y, x, h, w) = (25, 50, 75, 100);
    let b = Query::query(128, h, w);
    let lt = b.left_top(y, x);
    assert_eq!(b.left_bottom(y + h, x), lt);
    assert_eq!(b.right_top(y, x + w), lt);
    assert_eq!(b.right_bottom(y + h, x + w), lt);
    assert_eq!(lt.left_top, (y, x));
}

#[test]
fn builder_accepts_negative_origin() {
    let q = Query::query(1, 10, 10).right_bottom(5, 5);
    assert_eq!(q.left_top, (-5, -5));
}
