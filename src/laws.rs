//! Properties of rasterization that relate several inputs or calls.

use vstd::prelude::*;
use crate::query::Query;
use crate::raster::{
    covers, lemma_quotient_bounds, paint, render, scaled_query, scaled_queries, RasterError,
};

verus! {

/// `v` is an exact multiple of the positive pixel length `p`.
pub open spec fn multiple_of(v: int, p: u32) -> bool {
    p > 0 && v % (p as int) == 0
}

/// The cell `(row, col)` of the scaled canvas lies inside the scaled
/// rectangle of `q`: scaled origin up to scaled origin plus scaled size.
pub open spec fn in_scaled_rect(q: Query, p: u32, row: int, col: int) -> bool {
    let d = p as int;
    let y = q.left_top.0 as int / d;
    let x = q.left_top.1 as int / d;
    &&& y <= row < y + q.diagonal.0 as int / d
    &&& x <= col < x + q.diagonal.1 as int / d
}

/// Every size and origin component of `q` is a multiple of `p`.
pub open spec fn query_scales(q: Query, p: u32) -> bool {
    &&& multiple_of(q.diagonal.0 as int, p)
    &&& multiple_of(q.diagonal.1 as int, p)
    &&& multiple_of(q.left_top.0 as int, p)
    &&& multiple_of(q.left_top.1 as int, p)
}

/// The canvas `size` divides evenly by `p`, and its scaled buffer fits in memory.
pub open spec fn canvas_scales(size: (u32, u32), p: u32) -> bool {
    &&& multiple_of(size.0 as int, p)
    &&& multiple_of(size.1 as int, p)
    &&& (size.0 / p) * (size.1 / p) <= usize::MAX
}

/// The scaled query of `q` where every component is a multiple of `p`.
proof fn lemma_scaled_query(q: Query, p: u32)
    requires
        query_scales(q, p),
    ensures
        scaled_query(q, p) matches Ok(s) && s.color == q.color && forall|row: int, col: int|
            #[trigger] covers(s, row, col) == in_scaled_rect(q, p, row, col),
{
    lemma_quotient_bounds(q.diagonal.0 as int, p as int);
    lemma_quotient_bounds(q.diagonal.1 as int, p as int);
    lemma_quotient_bounds(q.left_top.0 as int, p as int);
    lemma_quotient_bounds(q.left_top.1 as int, p as int);
}

proof fn lemma_canvas(size: (u32, u32), p: u32)
    requires
        multiple_of(size.0 as int, p),
        multiple_of(size.1 as int, p),
    ensures
        0 <= size.0 / p <= size.0,
        0 <= size.1 / p <= size.1,
{
    lemma_quotient_bounds(size.0 as int, p as int);
    lemma_quotient_bounds(size.1 as int, p as int);
}

/// Rasterizing no queries gives a scaled canvas whose every cell is black.
pub proof fn lemma_empty_list_is_black(size: (u32, u32), p: u32)
    requires
        canvas_scales(size, p),
    ensures
        render(Seq::empty(), size, p) matches Ok((h, w, px)) && h == size.0 / p && w == size.1 / p
            && px.len() == h * w && forall|i: int| 0 <= i < px.len() ==> #[trigger] px[i] == 0u8,
{
    lemma_canvas(size, p);
}

/// With a single query, a cell of the scaled canvas holds the query's
/// intensity where it lies in the scaled rectangle, and 0 elsewhere.
pub proof fn lemma_single_query(q: Query, size: (u32, u32), p: u32)
    requires
        canvas_scales(size, p),
        query_scales(q, p),
    ensures
        render(seq![q], size, p) matches Ok((h, w, px)) && h == size.0 / p && w == size.1 / p
            && px.len() == h * w && forall|i: int|
            0 <= i < px.len() ==> #[trigger] px[i] == if in_scaled_rect(q, p, i / (w as int), i % (w as int)) {
                q.color
            } else {
                0u8
            },
{
    lemma_canvas(size, p);
    lemma_scaled_query(q, p);
    let qs = seq![q];
    assert(qs.drop_last() =~= Seq::<Query>::empty());
    let s = scaled_query(q, p)->Ok_0;
    assert(scaled_queries(Seq::empty(), p) == Ok::<Seq<Query>, RasterError>(Seq::empty()));
    assert(Seq::<Query>::empty().push(s) =~= seq![s]);
    assert(scaled_queries(qs, p) == Ok::<Seq<Query>, RasterError>(seq![s]));
    let rs = seq![s];
    assert(rs.drop_last() =~= Seq::<Query>::empty());
    assert forall|row: int, col: int| #[trigger] paint(rs, row, col) == if in_scaled_rect(q, p, row, col) {
        q.color
    } else {
        0u8
    } by {
        assert(covers(s, row, col) == in_scaled_rect(q, p, row, col));
        assert(paint(Seq::empty(), row, col) == 0u8);
    }
}

/// Of two queries, the later one wins where both rectangles cover a cell,
/// whichever intensity is larger; the earlier one shows where only it does.
pub proof fn lemma_later_query_wins(a: Query, b: Query, size: (u32, u32), p: u32)
    requires
        canvas_scales(size, p),
        query_scales(a, p),
        query_scales(b, p),
    ensures
        render(seq![a, b], size, p) matches Ok((h, w, px)) && px.len() == h * w && forall|i: int|
            0 <= i < px.len() ==> {
                let row = i / (w as int);
                let col = i % (w as int);
                &&& in_scaled_rect(b, p, row, col) ==> #[trigger] px[i] == b.color
                &&& in_scaled_rect(a, p, row, col) && !in_scaled_rect(b, p, row, col) ==> px[i]
                    == a.color
            },
{
    lemma_canvas(size, p);
    lemma_scaled_query(a, p);
    lemma_scaled_query(b, p);
    let qs = seq![a, b];
    let sa = scaled_query(a, p)->Ok_0;
    let sb = scaled_query(b, p)->Ok_0;
    assert(qs.drop_last() =~= seq![a]);
    assert(seq![a].drop_last() =~= Seq::<Query>::empty());
    assert(scaled_queries(Seq::empty(), p) == Ok::<Seq<Query>, RasterError>(Seq::empty()));
    assert(Seq::<Query>::empty().push(sa) =~= seq![sa]);
    assert(scaled_queries(seq![a], p) == Ok::<Seq<Query>, RasterError>(seq![sa]));
    assert(seq![sa].push(sb) =~= seq![sa, sb]);
    assert(scaled_queries(qs, p) == Ok::<Seq<Query>, RasterError>(seq![sa, sb]));
    let rs = seq![sa, sb];
    assert(rs.drop_last() =~= seq![sa]);
    assert(seq![sa].drop_last() =~= Seq::<Query>::empty());
    assert forall|row: int, col: int| in_scaled_rect(b, p, row, col) implies #[trigger] paint(rs, row, col)
        == b.color by {
        assert(covers(sb, row, col));
    }
    assert forall|row: int, col: int|
        in_scaled_rect(a, p, row, col) && !in_scaled_rect(b, p, row, col) implies #[trigger] paint(
        rs,
        row,
        col,
    ) == a.color by {
        assert(covers(sa, row, col));
        assert(!covers(sb, row, col));
        assert(paint(seq![sa], row, col) == a.color);
    }
}

/// A pixel length of zero fails with a division error on the canvas height,
/// whatever the queries and the canvas.
pub proof fn lemma_zero_pixel_length(qs: Seq<Query>, size: (u32, u32))
    ensures
        render(qs, size, 0) == Err::<(u32, u32, Seq<u8>), RasterError>(
            RasterError::DivisionError { numerator: size.0 as i64, denominator: 0 },
        ),
{
}

} // verus!
