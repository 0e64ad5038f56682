//! Painting a list of queries onto a downscaled, row-major intensity buffer.

use vstd::prelude::*;
use vstd::arithmetic::div_mod::{lemma_fundamental_div_mod, lemma_fundamental_div_mod_converse};
use crate::query::Query;

verus! {

/// Why a list of queries could not be rasterized.
#[derive(Clone, Copy, Debug, PartialEq, Eq, Structural)]
pub enum RasterError {
    /// A value was divided by a pixel length of zero.
    DivisionError { numerator: i64, denominator: i64 },
    /// A value is not an exact multiple of the pixel length.
    NotDivisibleError { numerator: i64, denominator: i64 },
    /// The scaled canvas has more cells than a buffer can hold.
    InvalidImageSizeError { height: u32, width: u32 },
}

/// A rasterized canvas: `pixels` holds `height * width` intensities, row by row.
#[derive(Debug, PartialEq, Eq)]
pub struct Raster {
    pub height: u32,
    pub width: u32,
    pub pixels: Vec<u8>,
}

impl View for Raster {
    type V = (u32, u32, Seq<u8>);

    open spec fn view(&self) -> (u32, u32, Seq<u8>) {
        (self.height, self.width, self.pixels@)
    }
}

/// Exact division of `lhs` by `rhs`: an error where `rhs` is zero or does not
/// divide `lhs`.
pub open spec fn exact_div(lhs: int, rhs: int) -> Result<int, RasterError> {
    if rhs == 0 {
        Err(RasterError::DivisionError { numerator: lhs as i64, denominator: 0 })
    } else if lhs % rhs != 0 {
        Err(RasterError::NotDivisibleError { numerator: lhs as i64, denominator: rhs as i64 })
    } else {
        Ok(lhs / rhs)
    }
}

/// The canvas `(height, width)` divided by the pixel length `p`, height first.
pub open spec fn scaled_canvas(size: (u32, u32), p: u32) -> Result<(u32, u32), RasterError> {
    match exact_div(size.0 as int, p as int) {
        Err(e) => Err(e),
        Ok(h) => match exact_div(size.1 as int, p as int) {
            Err(e) => Err(e),
            Ok(w) => Ok((h as u32, w as u32)),
        },
    }
}

/// A query with its size and origin divided by `p`: height, width, y, then x.
pub open spec fn scaled_query(q: Query, p: u32) -> Result<Query, RasterError> {
    match exact_div(q.diagonal.0 as int, p as int) {
        Err(e) => Err(e),
        Ok(dh) => match exact_div(q.diagonal.1 as int, p as int) {
            Err(e) => Err(e),
            Ok(dw) => match exact_div(q.left_top.0 as int, p as int) {
                Err(e) => Err(e),
                Ok(y) => match exact_div(q.left_top.1 as int, p as int) {
                    Err(e) => Err(e),
                    Ok(x) => Ok(
                        Query { color: q.color, diagonal: (dh as i32, dw as i32), left_top: (y as i32, x as i32) },
                    ),
                },
            },
        },
    }
}

/// Every query scaled by `p`, in order; the first error met where one fails.
pub open spec fn scaled_queries(qs: Seq<Query>, p: u32) -> Result<Seq<Query>, RasterError>
    decreases qs.len(),
{
    if qs.len() == 0 {
        Ok(Seq::empty())
    } else {
        match scaled_queries(qs.drop_last(), p) {
            Err(e) => Err(e),
            Ok(rs) => match scaled_query(qs.last(), p) {
                Err(e) => Err(e),
                Ok(r) => Ok(rs.push(r)),
            },
        }
    }
}

/// The cell `(row, col)` lies inside rectangle `q`.
pub open spec fn covers(q: Query, row: int, col: int) -> bool {
    &&& q.left_top.0 <= row < q.left_top.0 + q.diagonal.0
    &&& q.left_top.1 <= col < q.left_top.1 + q.diagonal.1
}

/// The intensity of cell `(row, col)` after painting `rs` in order onto a
/// black canvas: that of the last rectangle covering it, or 0.
pub open spec fn paint(rs: Seq<Query>, row: int, col: int) -> u8
    decreases rs.len(),
{
    if rs.len() == 0 {
        0
    } else if covers(rs.last(), row, col) {
        rs.last().color
    } else {
        paint(rs.drop_last(), row, col)
    }
}

/// The row-major buffer of an `h` by `w` canvas painted with `rs`.
pub open spec fn canvas_pixels(rs: Seq<Query>, h: int, w: int) -> Seq<u8> {
    Seq::new((h * w) as nat, |i: int| paint(rs, i / (w as int), i % (w as int)))
}

/// The outcome of rasterizing `qs` onto a canvas of `size` with pixel length
/// `p`: the scaled canvas is checked first, then that its buffer fits in
/// memory, then each query in order.
pub open spec fn render(qs: Seq<Query>, size: (u32, u32), p: u32) -> Result<(u32, u32, Seq<u8>), RasterError> {
    match scaled_canvas(size, p) {
        Err(e) => Err(e),
        Ok((h, w)) => if h * w > usize::MAX {
            Err(RasterError::InvalidImageSizeError { height: h, width: w })
        } else {
            match scaled_queries(qs, p) {
                Err(e) => Err(e),
                Ok(rs) => Ok((h, w, canvas_pixels(rs, h as int, w as int))),
            }
        },
    }
}

/// A quotient by a positive divisor lies between zero and the dividend.
pub proof fn lemma_quotient_bounds(v: int, d: int)
    requires
        d > 0,
    ensures
        v >= 0 ==> 0 <= v / d <= v,
        v < 0 ==> v <= v / d < 0,
{
    if v >= 0 {
        assert(0 <= v / d <= v) by (nonlinear_arith)
            requires
                d > 0,
                v >= 0,
        ;
    } else {
        assert(v <= v / d < 0) by (nonlinear_arith)
            requires
                d > 0,
                v < 0,
        ;
    }
}

/// Divides `lhs` by `rhs` where the division is exact.
fn divide(lhs: i64, rhs: u32) -> (r: Result<i64, RasterError>)
    ensures
        match r {
            Ok(v) => exact_div(lhs as int, rhs as int) == Ok::<int, RasterError>(v as int),
            Err(e) => exact_div(lhs as int, rhs as int) == Err::<int, RasterError>(e),
        },
        r matches Ok(v) ==> if lhs >= 0 {
            0 <= v <= lhs
        } else {
            lhs <= v < 0
        },
{
    if rhs == 0 {
        return Err(RasterError::DivisionError { numerator: lhs, denominator: 0 });
    }
    let d = rhs as i64;
    proof {
        lemma_quotient_bounds(lhs as int, d as int);
    }
    match (lhs.checked_rem_euclid(d), lhs.checked_div_euclid(d)) {
        (Some(0), Some(v)) => Ok(v),
        _ => Err(RasterError::NotDivisibleError { numerator: lhs, denominator: d }),
    }
}

/// Scales the size and origin of `q` by `p`.
fn scale_query(q: Query, p: u32) -> (r: Result<Query, RasterError>)
    ensures
        match r {
            Ok(s) => scaled_query(q, p) == Ok::<Query, RasterError>(s),
            Err(e) => scaled_query(q, p) == Err::<Query, RasterError>(e),
        },
{
    let dh = match divide(q.diagonal.0 as i64, p) {
        Ok(v) => v,
        Err(e) => return Err(e),
    };
    let dw = match divide(q.diagonal.1 as i64, p) {
        Ok(v) => v,
        Err(e) => return Err(e),
    };
    let y = match divide(q.left_top.0 as i64, p) {
        Ok(v) => v,
        Err(e) => return Err(e),
    };
    let x = match divide(q.left_top.1 as i64, p) {
        Ok(v) => v,
        Err(e) => return Err(e),
    };
    Ok(Query { color: q.color, diagonal: (dh as i32, dw as i32), left_top: (y as i32, x as i32) })
}

/// Row and column of a cell index of an `h` by `w` buffer.
proof fn lemma_cell_of(i: int, h: int, w: int)
    requires
        0 <= h,
        0 <= i < h * w,
    ensures
        w > 0,
        0 <= i / (w as int) < h,
        0 <= i % (w as int) < w,
        i == w * (i / w) + i % w,
{
    if w <= 0 {
        assert(h * w <= 0) by (nonlinear_arith)
            requires
                w <= 0,
                h >= 0,
                i >= 0,
                i < h * w,
        ;
    }
    lemma_fundamental_div_mod(i, w);
    assert(i / (w as int) < h) by (nonlinear_arith)
        requires
            w > 0,
            i < h * w,
            i == w * (i / (w as int)) + i % (w as int),
            i % (w as int) >= 0,
    ;
    assert(0 <= i / (w as int)) by (nonlinear_arith)
        requires
            w > 0,
            i >= 0,
            i == w * (i / (w as int)) + i % (w as int),
            i % (w as int) < w,
    ;
}

/// The index of cell `(y, x)` of an `h` by `w` buffer.
proof fn lemma_index_of(y: int, x: int, h: int, w: int)
    requires
        0 <= y < h,
        0 <= x < w,
    ensures
        0 <= y * w + x < h * w,
        (y * w + x) / w == y,
        (y * w + x) % w == x,
{
    assert(0 <= y * w + x < h * w) by (nonlinear_arith)
        requires
            0 <= y < h,
            0 <= x < w,
    ;
    lemma_fundamental_div_mod_converse(y * w + x, w, y, x);
}

/// Sets every cell of the `h` by `w` buffer that `q` covers to `q.color`.
fn paint_rect(buf: &mut Vec<u8>, h: u32, w: u32, q: Query)
    requires
        old(buf)@.len() == h * w,
        h * w <= usize::MAX,
    ensures
        final(buf)@.len() == old(buf)@.len(),
        forall|i: int|
            0 <= i < final(buf)@.len() ==> #[trigger] final(buf)@[i] == if covers(q, i / (w as int), i % (w as int)) {
                q.color
            } else {
                old(buf)@[i]
            },
{
    let ghost orig = buf@;
    let top: i64 = if q.left_top.0 < 0 { 0 } else { q.left_top.0 as i64 };
    let left: i64 = if q.left_top.1 < 0 { 0 } else { q.left_top.1 as i64 };
    let end_y: i64 = q.left_top.0 as i64 + q.diagonal.0 as i64;
    let end_x: i64 = q.left_top.1 as i64 + q.diagonal.1 as i64;
    let bottom: i64 = if end_y > h as i64 { h as i64 } else { end_y };
    let right: i64 = if end_x > w as i64 { w as i64 } else { end_x };
    if top >= bottom || left >= right {
        proof {
            assert forall|i: int| 0 <= i < buf@.len() implies #[trigger] buf@[i] == if covers(
                q,
                i / (w as int),
                i % (w as int),
            ) {
                q.color
            } else {
                orig[i]
            } by {
                lemma_cell_of(i, h as int, w as int);
            }
        }
        return;
    }
    let wu = w as usize;
    let mut y: usize = top as usize;
    while y < bottom as usize
        invariant
            buf@.len() == orig.len(),
            orig.len() == h * w,
            h * w <= usize::MAX,
            wu == w,
            0 <= top <= y <= bottom <= h,
            0 <= left < right <= w,
            top == q.left_top.0 || (top == 0 && q.left_top.0 < 0),
            left == q.left_top.1 || (left == 0 && q.left_top.1 < 0),
            bottom == end_y || (bottom == h && end_y > h),
            right == end_x || (right == w && end_x > w),
            end_y == q.left_top.0 + q.diagonal.0,
            end_x == q.left_top.1 + q.diagonal.1,
            forall|i: int|
                0 <= i < buf@.len() ==> #[trigger] buf@[i] == if covers(q, i / (w as int), i % (w as int)) && i / (w as int)
                    < y {
                    q.color
                } else {
                    orig[i]
                },
        decreases bottom - y,
    {
        let mut x: usize = left as usize;
        while x < right as usize
            invariant
                buf@.len() == orig.len(),
                orig.len() == h * w,
                h * w <= usize::MAX,
                wu == w,
                0 <= top <= y < bottom <= h,
                0 <= left <= x <= right <= w,
                top == q.left_top.0 || (top == 0 && q.left_top.0 < 0),
                left == q.left_top.1 || (left == 0 && q.left_top.1 < 0),
                bottom == end_y || (bottom == h && end_y > h),
                right == end_x || (right == w && end_x > w),
                end_y == q.left_top.0 + q.diagonal.0,
                end_x == q.left_top.1 + q.diagonal.1,
                forall|i: int|
                    0 <= i < buf@.len() ==> #[trigger] buf@[i] == if covers(q, i / (w as int), i % (w as int)) && (i
                        / (w as int) < y || (i / (w as int) == y && i % (w as int) < x)) {
                        q.color
                    } else {
                        orig[i]
                    },
            decreases right - x,
        {
            proof {
                lemma_index_of(y as int, x as int, h as int, w as int);
            }
            let idx = y * wu + x;
            let ghost before = buf@;
            buf.set(idx, q.color);
            proof {
                assert forall|i: int| 0 <= i < buf@.len() implies #[trigger] buf@[i] == if covers(
                    q,
                    i / (w as int),
                    i % (w as int),
                ) && (i / (w as int) < y || (i / (w as int) == y && i % (w as int) < x + 1)) {
                    q.color
                } else {
                    orig[i]
                } by {
                    lemma_cell_of(i, h as int, w as int);
                    if i != idx {
                        assert(buf@[i] == before[i]);
                        if i / (w as int) == y as int && i % (w as int) == x as int {
                            assert((w as int) * (i / (w as int)) == (w as int) * (y as int));
                            assert((w as int) * (y as int) == (y as int) * (w as int)) by (nonlinear_arith);
                            assert(i == idx);
                        }
                    }
                }
            }
            x = x + 1;
        }
        proof {
            assert forall|i: int| 0 <= i < buf@.len() implies #[trigger] buf@[i] == if covers(
                q,
                i / (w as int),
                i % (w as int),
            ) && i / (w as int) < y + 1 {
                q.color
            } else {
                orig[i]
            } by {
                lemma_cell_of(i, h as int, w as int);
            }
        }
        y = y + 1;
    }
    proof {
        assert forall|i: int| 0 <= i < buf@.len() implies #[trigger] buf@[i] == if covers(
            q,
            i / (w as int),
            i % (w as int),
        ) {
            q.color
        } else {
            orig[i]
        } by {
            lemma_cell_of(i, h as int, w as int);
        }
    }
}

/// An error in scaling a prefix of the queries is the error of scaling them all.
proof fn lemma_prefix_error(qs: Seq<Query>, p: u32, k: int)
    requires
        0 <= k <= qs.len(),
        scaled_queries(qs.take(k), p) is Err,
    ensures
        scaled_queries(qs, p) == scaled_queries(qs.take(k), p),
    decreases qs.len() - k,
{
    if k < qs.len() {
        assert(qs.take(k + 1).drop_last() =~= qs.take(k));
        lemma_prefix_error(qs, p, k + 1);
    } else {
        assert(qs.take(k) =~= qs);
    }
}

/// Paints `queries`, in order, onto a black canvas of `image_size`
/// (height, width) downscaled by `pixel_length`. The canvas is scaled
/// first, then each query; the first value that is not an exact multiple of
/// `pixel_length` (or a `pixel_length` of zero) is the error returned.
pub fn rasterize(queries: &[Query], image_size: (u32, u32), pixel_length: u32) -> (r: Result<
    Raster,
    RasterError,
>)
    ensures
        match r {
            Ok(img) => render(queries@, image_size, pixel_length) == Ok::<
                (u32, u32, Seq<u8>),
                RasterError,
            >(img@),
            Err(e) => render(queries@, image_size, pixel_length) == Err::<
                (u32, u32, Seq<u8>),
                RasterError,
            >(e),
        },
{
    let h = match divide(image_size.0 as i64, pixel_length) {
        Ok(v) => v as u32,
        Err(e) => return Err(e),
    };
    let w = match divide(image_size.1 as i64, pixel_length) {
        Ok(v) => v as u32,
        Err(e) => return Err(e),
    };
    let n = match (h as usize).checked_mul(w as usize) {
        Some(n) => n,
        None => return Err(RasterError::InvalidImageSizeError { height: h, width: w }),
    };
    let mut pixels: Vec<u8> = Vec::new();
    while pixels.len() < n
        invariant
            pixels@.len() <= n,
            forall|i: int| 0 <= i < pixels@.len() ==> #[trigger] pixels@[i] == 0u8,
        decreases n - pixels@.len(),
    {
        pixels.push(0u8);
    }
    let ghost mut rs: Seq<Query> = Seq::empty();
    proof {
        assert(queries@.take(0) =~= Seq::<Query>::empty());
        assert(pixels@ =~= canvas_pixels(rs, h as int, w as int));
    }
    let mut k: usize = 0;
    while k < queries.len()
        invariant
            0 <= k <= queries@.len(),
            scaled_canvas(image_size, pixel_length) == Ok::<(u32, u32), RasterError>((h, w)),
            n == h * w,
            scaled_queries(queries@.take(k as int), pixel_length) == Ok::<Seq<Query>, RasterError>(rs),
            pixels@ == canvas_pixels(rs, h as int, w as int),
        decreases queries@.len() - k,
    {
        let q = queries[k];
        proof {
            assert(queries@.take(k + 1).drop_last() =~= queries@.take(k as int));
            assert(queries@.take(k + 1).last() == q);
        }
        let s = match scale_query(q, pixel_length) {
            Ok(s) => s,
            Err(e) => {
                proof {
                    lemma_prefix_error(queries@, pixel_length, k + 1);
                }
                return Err(e);
            },
        };
        let ghost before = pixels@;
        paint_rect(&mut pixels, h, w, s);
        proof {
            let rs2 = rs.push(s);
            assert(rs2.drop_last() =~= rs);
            assert(pixels@ =~= canvas_pixels(rs2, h as int, w as int));
            rs = rs2;
        }
        k = k + 1;
    }
    proof {
        assert(queries@.take(k as int) =~= queries@);
    }
    Ok(Raster { height: h, width: w, pixels })
}

} // verus!
