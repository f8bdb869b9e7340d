use vstd::prelude::*;
use vstd::arithmetic::div_mod::{lemma_fundamental_div_mod, lemma_fundamental_div_mod_converse};
use crate::geometry::{
    count_crossings, count_left, count_meets, covered, crossing, edge_crosses, edge_end, edge_start,
    lemma_crossings_even, next_index, point_inside, Point,
};
use crate::hit_test::point_in_polygon;
use crate::spans::{
    count_at, count_below, fracs_ok, in_first_spans, in_span, lemma_push_counts,
    lemma_spans_are_even_odd, sort_crossings, sorted, Frac,
};

verus! {

/// Row-major mask of `w * h` pixels: a pixel is set when the polygon has at
/// least three points and covers it.
pub open spec fn mask_spec(poly: Seq<Point>, w: int, h: int) -> Seq<bool> {
    Seq::new((w * h) as nat, |i: int| poly.len() >= 3 && covered(poly, i % w, i / w))
}

/// With no edge crossing row `y`, no column of that row is covered.
proof fn lemma_empty_row(poly: Seq<Point>, x: int, y: int, n: nat)
    requires
        forall|i: int| 0 <= i < n ==> !edge_crosses(poly, i, y),
    ensures
        count_left(poly, x, y, n) == 0,
        count_meets(poly, x, y, n) == 0,
    decreases n,
{
    if n > 0 {
        assert(!edge_crosses(poly, n - 1, y));
        lemma_empty_row(poly, x, y, (n - 1) as nat);
    }
}

/// First column at or right of the fraction `n / d`, or zero when that is
/// negative.
pub open spec fn span_start(n: int, d: int) -> int {
    if n <= 0 {
        0
    } else {
        (n + d - 1) / d
    }
}

/// One past the last column at or left of the fraction `n / d`, clipped to
/// `[0, w]`.
pub open spec fn span_stop(n: int, d: int, w: int) -> int {
    if n < 0 {
        0
    } else if n / d < w {
        n / d + 1
    } else {
        w
    }
}

proof fn lemma_span_bounds(sn: int, sd: int, en: int, ed: int, w: int, x: int)
    requires
        sd > 0,
        ed > 0,
        0 <= x < w,
    ensures
        span_start(sn, sd) <= x <==> sn <= x * sd,
        x < span_stop(en, ed, w) <==> en >= x * ed,
{
    assert(x * sd >= 0 && x * ed >= 0) by (nonlinear_arith)
        requires
            x >= 0,
            sd > 0,
            ed > 0,
    ;
    if sn > 0 {
        let m = sn + sd - 1;
        lemma_fundamental_div_mod(m, sd);
        let q = m / sd;
        let r = m % sd;
        assert(q <= x <==> sn <= x * sd) by (nonlinear_arith)
            requires
                m == sd * q + r,
                0 <= r < sd,
                m == sn + sd - 1,
        ;
    }
    if en >= 0 {
        lemma_fundamental_div_mod(en, ed);
        let q = en / ed;
        let r = en % ed;
        assert(x <= q <==> x * ed <= en) by (nonlinear_arith)
            requires
                en == ed * q + r,
                0 <= r < ed,
        ;
    }
}

/// Sets the columns `first .. last` of `row`.
fn fill_span(row: &mut Vec<bool>, first: usize, last: usize)
    requires
        first <= last <= old(row)@.len(),
    ensures
        final(row)@.len() == old(row)@.len(),
        forall|x: int|
            0 <= x < old(row)@.len() ==> final(row)@[x] == (old(row)@[x] || (first <= x && x
                < last)),
{
    let ghost before = row@;
    let mut c: usize = first;
    while c < last
        invariant
            row@.len() == before.len(),
            first <= c <= last <= before.len(),
            forall|x: int|
                0 <= x < before.len() ==> row@[x] == (before[x] || (first <= x && x < c)),
        decreases last - c,
    {
        row.set(c, true);
        c += 1;
    }
}

/// Coverage of one scanline: the crossings of the row are collected in edge
/// order, sorted, and each span between the first and second, third and
/// fourth, ... crossing is filled from the ceiling of its start to the floor
/// of its end, clipped to the row.
fn row_coverage(polygon: &Vec<Point>, width: usize, y: i32) -> (r: Vec<bool>)
    requires
        width < usize::MAX,
        polygon@.len() >= 1,
    ensures
        r@.len() == width,
        forall|x: int| 0 <= x < width ==> r@[x] == covered(polygon@, x, y as int),
{
    let len = polygon.len();
    let ghost poly = polygon@;
    let ghost yy = y as int;
    let ghost w = width as int;
    let mut xs: Vec<Frac> = Vec::new();
    let mut i: usize = 0;
    while i < len
        invariant
            len == polygon.len(),
            poly == polygon@,
            yy == y,
            i <= len,
            fracs_ok(xs@),
            xs@.len() == count_crossings(poly, yy, i as nat),
            forall|x: int|
                count_below(xs@, x) == count_left(poly, x, yy, i as nat) && count_at(xs@, x)
                    == count_meets(poly, x, yy, i as nat),
        decreases len - i,
    {
        let j: usize = if i + 1 >= len { 0 } else { i + 1 };
        let a = polygon[i];
        let b = polygon[j];
        assert(a == edge_start(poly, i as int) && b == edge_end(poly, i as int));
        let ghost before = xs@;
        if (a.y <= y && b.y > y) || (b.y <= y && a.y > y) {
            let f = crossing(a, b, y);
            xs.push(f);
            proof {
                assert forall|x: int|
                    count_below(xs@, x) == count_left(poly, x, yy, (i + 1) as nat) && count_at(
                        xs@,
                        x,
                    ) == count_meets(poly, x, yy, (i + 1) as nat) by {
                    lemma_push_counts(before, f, x);
                }
            }
        } else {
            assert forall|x: int|
                count_below(xs@, x) == count_left(poly, x, yy, (i + 1) as nat) && count_at(xs@, x)
                    == count_meets(poly, x, yy, (i + 1) as nat) by {}
        }
        i += 1;
    }
    proof {
        lemma_crossings_even(poly, yy);
    }
    sort_crossings(&mut xs);
    let n = xs.len();
    let mut row: Vec<bool> = vec![false; width];
    let mut k: usize = 0;
    while k < n / 2
        invariant
            fracs_ok(xs@),
            sorted(xs@),
            n == xs@.len(),
            n % 2 == 0,
            k <= n / 2,
            w == width,
            row@.len() == width,
            forall|x: int| 0 <= x < w ==> row@[x] == in_first_spans(xs@, x, k as nat),
        decreases n / 2 - k,
    {
        let (sn, sd) = xs[2 * k];
        let (en, ed) = xs[2 * k + 1];
        assert(xs@[2 * k as int].1 > 0 && xs@[2 * k + 1].1 > 0);
        let start: u128 = if sn <= 0 {
            0
        } else {
            ((sn as u128) + (sd as u128) - 1) / (sd as u128)
        };
        let stop: u128 = if en < 0 {
            0
        } else {
            let e = (en as u128) / (ed as u128);
            if e < width as u128 {
                e + 1
            } else {
                width as u128
            }
        };
        assert(start == span_start(sn as int, sd as int));
        assert(stop == span_stop(en as int, ed as int, w));
        let ghost old_row = row@;
        if start < stop {
            fill_span(&mut row, start as usize, stop as usize);
        }
        assert forall|x: int| 0 <= x < w implies row@[x] == (old_row[x] || (start <= x && x < stop))
            by {}
        proof {
            assert forall|x: int| 0 <= x < w implies row@[x] == in_first_spans(
                xs@,
                x,
                (k + 1) as nat,
            ) by {
                lemma_span_bounds(sn as int, sd as int, en as int, ed as int, w, x);
                assert(in_first_spans(xs@, x, (k + 1) as nat) == (in_first_spans(xs@, x, k as nat)
                    || in_span(xs@, x, k as int)));
            }
        }
        k += 1;
    }
    proof {
        assert forall|x: int| 0 <= x < w implies row@[x] == covered(poly, x, yy) by {
            lemma_spans_are_even_odd(xs@, x);
        }
    }
    row
}

/// Even-odd scanline mask of `polygon` over a `width` x `height` raster,
/// row-major. A polygon of fewer than three points sets no pixel. Only the
/// rows within the polygon's vertical extent are scanned.
pub fn selection_mask(width: usize, height: usize, polygon: &Vec<Point>) -> (r: Vec<bool>)
    requires
        width * height <= usize::MAX,
        width < usize::MAX,
    ensures
        r@ == mask_spec(polygon@, width as int, height as int),
{
    let ghost poly = polygon@;
    let ghost w = width as int;
    let ghost spec_mask = mask_spec(poly, width as int, height as int);
    let len = polygon.len();
    if len < 3 {
        let r: Vec<bool> = vec![false; width * height];
        assert(r@ =~= spec_mask);
        return r;
    }
    let mut min_y: i32 = polygon[0].y;
    let mut max_y: i32 = polygon[0].y;
    let mut i: usize = 1;
    while i < len
        invariant
            len == polygon.len(),
            poly == polygon@,
            1 <= i <= len,
            forall|k: int| 0 <= k < i ==> min_y <= #[trigger] poly[k].y <= max_y,
        decreases len - i,
    {
        let py = polygon[i].y;
        if py < min_y {
            min_y = py;
        }
        if py > max_y {
            max_y = py;
        }
        i += 1;
    }
    let lo: usize = if min_y < 0 { 0 } else { min_y as usize };
    let hi: usize = if max_y < 0 {
        0
    } else if (max_y as usize) < height {
        max_y as usize
    } else {
        height
    };
    let mut mask: Vec<bool> = Vec::new();
    let mut y: usize = 0;
    while y < height
        invariant
            len == polygon.len(),
            len >= 3,
            poly == polygon@,
            w == width,
            width < usize::MAX,
            width * height <= usize::MAX,
            spec_mask == mask_spec(poly, width as int, height as int),
            forall|k: int| 0 <= k < len ==> min_y <= #[trigger] poly[k].y <= max_y,
            lo == (if min_y < 0 { 0 } else { min_y as int }),
            hi == (if max_y < 0 {
                0
            } else if max_y < height {
                max_y as int
            } else {
                height as int
            }),
            y <= height,
            mask@.len() == y * width,
            forall|k: int| 0 <= k < y * width ==> mask@[k] == spec_mask[k],
        decreases height - y,
    {
        let row: Vec<bool> = if lo <= y && y < hi {
            row_coverage(polygon, width, y as i32)
        } else {
            proof {
                assert forall|e: int| 0 <= e < len implies !edge_crosses(poly, e, y as int) by {
                    let a = edge_start(poly, e);
                    let b = edge_end(poly, e);
                    assert(min_y <= a.y <= max_y);
                    let ne = next_index(len as int, e);
                    assert(0 <= ne < len);
                    assert(min_y <= poly[ne].y <= max_y);
                    assert(y < min_y || y >= max_y);
                }
                assert forall|x: int| 0 <= x < w implies !covered(poly, x, y as int) by {
                    lemma_empty_row(poly, x, y as int, len as nat);
                }
            }
            vec![false; width]
        };
        assert(row@.len() == width);
        assert forall|x: int| 0 <= x < w implies row@[x] == covered(poly, x, y as int) by {}
        let mut x: usize = 0;
        while x < width
            invariant
                w == width,
                width * height <= usize::MAX,
                spec_mask == mask_spec(poly, width as int, height as int),
                len == poly.len(),
                len >= 3,
                y < height,
                x <= width,
                row@.len() == width,
                forall|c: int| 0 <= c < w ==> row@[c] == covered(poly, c, y as int),
                mask@.len() == y * width + x,
                forall|k: int| 0 <= k < y * width + x ==> mask@[k] == spec_mask[k],
            decreases width - x,
        {
            proof {
                assert(y * width + x < width * height) by (nonlinear_arith)
                    requires
                        y < height,
                        x < width,
                ;
                lemma_fundamental_div_mod_converse(y * width + x, width as int, y as int, x as int);
            }
            mask.push(row[x]);
            x += 1;
        }
        assert((y + 1) * width == y * width + width) by (nonlinear_arith);
        y += 1;
    }
    assert(height * width == width * height) by (nonlinear_arith);
    assert(mask@ =~= spec_mask);
    mask
}

/// Row-major mask of `w * h` pixels in which each pixel is decided by the
/// ray-casting test alone.
pub open spec fn ray_cast_spec(poly: Seq<Point>, w: int, h: int) -> Seq<bool> {
    Seq::new((w * h) as nat, |i: int| poly.len() >= 3 && point_inside(poly, i % w, i / w))
}

/// Mask built by running the ray-casting test on every pixel. Slower than
/// the scanline fill; it differs from it only on pixels that lie exactly on
/// an edge crossing.
pub fn ray_cast_mask(width: usize, height: usize, polygon: &Vec<Point>) -> (r: Vec<bool>)
    requires
        width * height <= usize::MAX,
        width <= 0x8000_0000,
        height <= 0x8000_0000,
    ensures
        r@ == ray_cast_spec(polygon@, width as int, height as int),
{
    let ghost spec_mask = ray_cast_spec(polygon@, width as int, height as int);
    let enough = polygon.len() >= 3;
    let mut mask: Vec<bool> = Vec::new();
    let mut y: usize = 0;
    while y < height
        invariant
            width * height <= usize::MAX,
            width <= 0x8000_0000,
            height <= 0x8000_0000,
            enough == (polygon@.len() >= 3),
            spec_mask == ray_cast_spec(polygon@, width as int, height as int),
            y <= height,
            mask@.len() == y * width,
            forall|k: int| 0 <= k < y * width ==> mask@[k] == spec_mask[k],
        decreases height - y,
    {
        let mut x: usize = 0;
        while x < width
            invariant
                width * height <= usize::MAX,
                width <= 0x8000_0000,
                height <= 0x8000_0000,
                enough == (polygon@.len() >= 3),
                spec_mask == ray_cast_spec(polygon@, width as int, height as int),
                y < height,
                x <= width,
                mask@.len() == y * width + x,
                forall|k: int| 0 <= k < y * width + x ==> mask@[k] == spec_mask[k],
            decreases width - x,
        {
            proof {
                assert(y * width + x < width * height) by (nonlinear_arith)
                    requires
                        y < height,
                        x < width,
                ;
                lemma_fundamental_div_mod_converse(y * width + x, width as int, y as int, x as int);
            }
            let bit = enough && point_in_polygon(polygon, Point::new(x as i32, y as i32));
            mask.push(bit);
            x += 1;
        }
        assert((y + 1) * width == y * width + width) by (nonlinear_arith);
        y += 1;
    }
    assert(height * width == width * height) by (nonlinear_arith);
    assert(mask@ =~= spec_mask);
    mask
}

/// The two ways of turning a polygon into a mask.
#[derive(Clone, Copy, Debug, PartialEq, Eq, Structural)]
pub enum Rasterizer {
    /// Even-odd scanline fill: the strategy for full frames.
    Scanline,
    /// Ray-casting test on each pixel, for checking the scanline fill.
    RayCast,
}

/// Mask of `polygon` over a `width` x `height` raster with the chosen strategy.
pub fn compute_mask(strategy: Rasterizer, width: usize, height: usize, polygon: &Vec<Point>) -> (r:
    Vec<bool>)
    requires
        width * height <= usize::MAX,
        width <= 0x8000_0000,
        height <= 0x8000_0000,
    ensures
        strategy == Rasterizer::Scanline ==> r@ == mask_spec(polygon@, width as int, height as int),
        strategy == Rasterizer::RayCast ==> r@ == ray_cast_spec(
            polygon@,
            width as int,
            height as int,
        ),
{
    match strategy {
        Rasterizer::Scanline => selection_mask(width, height, polygon),
        Rasterizer::RayCast => ray_cast_mask(width, height, polygon),
    }
}

} // verus!
