use vstd::prelude::*;
use vstd::arithmetic::div_mod::lemma_fundamental_div_mod_converse;
use crate::geometry::{
    count_meets, covered, lemma_crossings_even, lemma_crossings_split,
    point_inside, Point,
};
use crate::raster::dimmed;
use crate::rasterize::{mask_spec, ray_cast_spec};

verus! {

/// A polygon without points contains every point; one with one or two
/// points contains none.
pub proof fn lemma_degenerate_polygons(poly: Seq<Point>, x: int, y: int)
    requires
        poly.len() < 3,
    ensures
        point_inside(poly, x, y) <==> poly.len() == 0,
{
}

/// Where no edge crosses row `y` exactly at `x`, the scanline coverage and
/// the ray-casting test agree on `(x, y)`.
pub proof fn lemma_coverage_matches_ray_cast(poly: Seq<Point>, x: int, y: int)
    requires
        poly.len() >= 3,
        count_meets(poly, x, y, poly.len()) == 0,
    ensures
        covered(poly, x, y) == point_inside(poly, x, y),
{
    lemma_crossings_even(poly, y);
    lemma_crossings_split(poly, x, y, poly.len());
}

/// A point that the ray-casting test places inside is covered by the
/// scanline rule; the two differ only on points lying on a crossing.
pub proof fn lemma_ray_cast_inside_is_covered(poly: Seq<Point>, x: int, y: int)
    requires
        poly.len() >= 3,
        point_inside(poly, x, y),
    ensures
        covered(poly, x, y),
{
    lemma_crossings_even(poly, y);
    lemma_crossings_split(poly, x, y, poly.len());
}

/// The scanline mask, the per-pixel ray-cast mask and the ray-casting test
/// agree on every pixel of the raster that no edge crosses exactly.
pub proof fn lemma_mask_matches_ray_cast(poly: Seq<Point>, w: int, h: int, x: int, y: int)
    requires
        poly.len() >= 3,
        0 <= x < w,
        0 <= y < h,
        count_meets(poly, x, y, poly.len()) == 0,
    ensures
        y * w + x < w * h,
        mask_spec(poly, w, h)[y * w + x] == point_inside(poly, x, y),
        ray_cast_spec(poly, w, h)[y * w + x] == point_inside(poly, x, y),
{
    assert(y * w + x < w * h) by (nonlinear_arith)
        requires
            0 <= x < w,
            0 <= y < h,
    ;
    lemma_fundamental_div_mod_converse(y * w + x, w, y, x);
    lemma_coverage_matches_ray_cast(poly, x, y);
}

/// Rasterizing one polygon over one size gives one mask: any two results
/// that meet the rasterizer's contract are identical.
pub proof fn lemma_mask_deterministic(poly: Seq<Point>, w: int, h: int, m1: Seq<bool>, m2: Seq<bool>)
    requires
        m1 == mask_spec(poly, w, h),
        m2 == mask_spec(poly, w, h),
    ensures
        m1 == m2,
{
}

/// Under a mask that covers every pixel the preview equals the image.
pub proof fn lemma_full_mask_keeps_image(data: Seq<u8>, mask: Seq<bool>)
    requires
        data.len() == 4 * mask.len(),
        forall|p: int| 0 <= p < mask.len() ==> mask[p],
    ensures
        dimmed(data, mask) == data,
{
    assert forall|i: int| 0 <= i < data.len() implies dimmed(data, mask)[i] == data[i] by {
        assert(0 <= i / 4 < mask.len());
    }
    assert(dimmed(data, mask) =~= data);
}

/// Under a mask that covers no pixel every alpha is halved, rounding down,
/// and every colour channel is kept.
pub proof fn lemma_empty_mask_halves_alpha(data: Seq<u8>, mask: Seq<bool>)
    requires
        data.len() == 4 * mask.len(),
        forall|p: int| 0 <= p < mask.len() ==> !mask[p],
    ensures
        dimmed(data, mask).len() == data.len(),
        forall|i: int|
            0 <= i < data.len() ==> #[trigger] dimmed(data, mask)[i] == if i % 4 == 3 {
                (data[i] / 2) as u8
            } else {
                data[i]
            },
{
    assert forall|i: int| 0 <= i < data.len() implies #[trigger] dimmed(data, mask)[i] == if i % 4
        == 3 {
        (data[i] / 2) as u8
    } else {
        data[i]
    } by {
        assert(0 <= i / 4 < mask.len());
    }
}

} // verus!
