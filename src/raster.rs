use vstd::prelude::*;
use crate::geometry::Point;
use crate::rasterize::{mask_spec, selection_mask};

verus! {

/// An RGBA image, 8 bits per channel, row-major from the top-left corner.
#[derive(Clone, Debug)]
pub struct Raster {
    pub width: usize,
    pub height: usize,
    pub data: Vec<u8>,
}

/// Why a finished gesture produced no image.
#[derive(Clone, Copy, Debug, PartialEq, Eq, Structural)]
pub enum SelectionError {
    /// Fewer than three points were sampled: the lasso encloses no area.
    TooSmall,
}

impl Raster {
    /// Four bytes per pixel, and the byte count fits in memory.
    pub open spec fn wf(&self) -> bool {
        &&& self.data@.len() == 4 * self.width * self.height
        &&& 4 * self.width <= usize::MAX
    }

    /// Wraps raw RGBA bytes; `None` when their number is not
    /// `4 * width * height`.
    pub fn from_rgba(width: usize, height: usize, data: Vec<u8>) -> (r: Option<Raster>)
        ensures
            r is Some <==> (4 * width * height == data@.len() && 4 * width <= usize::MAX),
            r matches Some(img) ==> img.width == width && img.height == height && img.data@
                == data@,
    {
        match width.checked_mul(4) {
            None => None,
            Some(row) => match row.checked_mul(height) {
                None => {
                    let len = data.len();
                    assert(4 * width * height != len) by (nonlinear_arith)
                        requires
                            row == 4 * width,
                            row * height > usize::MAX,
                            len <= usize::MAX,
                    ;
                    None
                },
                Some(n) => {
                    if n == data.len() {
                        Some(Raster { width, height, data })
                    } else {
                        None
                    }
                },
            },
        }
    }

    /// A fully transparent (all-zero) raster.
    pub fn blank(width: usize, height: usize) -> (r: Option<Raster>)
        ensures
            r is Some <==> (4 * width * height <= usize::MAX && 4 * width <= usize::MAX),
            r matches Some(img) ==> img.wf() && img.width == width && img.height == height
                && img.data@ == Seq::new((4 * width * height) as nat, |i: int| 0u8),
    {
        match width.checked_mul(4) {
            None => None,
            Some(row) => match row.checked_mul(height) {
                None => None,
                Some(n) => {
                    let data: Vec<u8> = vec![0; n];
                    assert(data@ =~= Seq::new((4 * width * height) as nat, |i: int| 0u8));
                    Some(Raster { width, height, data })
                },
            },
        }
    }
}

/// Preview bytes: every channel copied, except that the alpha of a pixel
/// whose mask bit is clear is halved (rounding down).
pub open spec fn dimmed(data: Seq<u8>, mask: Seq<bool>) -> Seq<u8> {
    Seq::new(
        data.len(),
        |i: int|
            if i % 4 == 3 && !mask[i / 4] {
                (data[i] / 2) as u8
            } else {
                data[i]
            },
    )
}

/// The frame shown for `selection`: with fewer than three points the image
/// is shown as it is, otherwise the scanline mask dims what lies outside.
pub open spec fn frame_spec(image: Raster, selection: Seq<Point>) -> Seq<u8> {
    if selection.len() < 3 {
        image.data@
    } else {
        dimmed(image.data@, mask_spec(selection, image.width as int, image.height as int))
    }
}

/// Writes the preview of `image` under `mask`: colour channels unchanged,
/// alpha kept inside the mask and halved outside it.
pub fn apply_mask(image: &Raster, mask: &Vec<bool>) -> (r: Vec<u8>)
    requires
        image.wf(),
        mask@.len() == image.width * image.height,
    ensures
        r@ == dimmed(image.data@, mask@),
{
    let n = image.data.len();
    let mut out: Vec<u8> = Vec::with_capacity(n);
    let mut i: usize = 0;
    while i < n
        invariant
            image.wf(),
            mask@.len() == image.width * image.height,
            n == image.data@.len(),
            i <= n,
            out@.len() == i,
            forall|k: int| 0 <= k < i ==> out@[k] == dimmed(image.data@, mask@)[k],
        decreases n - i,
    {
        let b = image.data[i];
        assert(i / 4 < image.width * image.height) by (nonlinear_arith)
            requires
                i < 4 * image.width * image.height,
        ;
        if i % 4 == 3 && !mask[i / 4] {
            out.push(b / 2);
        } else {
            out.push(b);
        }
        i += 1;
    }
    assert(out@ =~= dimmed(image.data@, mask@));
    out
}

/// The pixel buffer handed to the display for the current selection.
pub fn compose_frame(image: &Raster, selection: &Vec<Point>) -> (r: Vec<u8>)
    requires
        image.wf(),
    ensures
        r@ == frame_spec(*image, selection@),
{
    if selection.len() < 3 {
        image.data.clone()
    } else {
        let n = image.data.len();
        assert(image.width * image.height <= usize::MAX && image.width < usize::MAX) by (nonlinear_arith)
            requires
                image.data@.len() == 4 * image.width * image.height,
                n == image.data@.len(),
                n <= usize::MAX,
                4 * image.width <= usize::MAX,
        ;
        let mask = selection_mask(image.width, image.height, selection);
        apply_mask(image, &mask)
    }
}

/// `v` clamped to `[0, hi]`.
pub open spec fn clamp_to(v: int, hi: int) -> int {
    if v < 0 {
        0
    } else if v > hi {
        hi
    } else {
        v
    }
}

/// The horizontal (or, with `vertical`, the vertical) coordinate of `p`.
pub open spec fn coord(p: Point, vertical: bool) -> int {
    if vertical {
        p.y as int
    } else {
        p.x as int
    }
}

/// Least clamped coordinate among the first `n` points; `limit` when none.
pub open spec fn box_min(sel: Seq<Point>, vertical: bool, limit: int, n: nat) -> int
    decreases n,
{
    if n == 0 {
        limit
    } else {
        let c = clamp_to(coord(sel[n - 1], vertical), limit);
        let m = box_min(sel, vertical, limit, (n - 1) as nat);
        if c < m {
            c
        } else {
            m
        }
    }
}

/// Greatest clamped coordinate among the first `n` points; zero when none.
pub open spec fn box_max(sel: Seq<Point>, vertical: bool, limit: int, n: nat) -> int
    decreases n,
{
    if n == 0 {
        0
    } else {
        let c = clamp_to(coord(sel[n - 1], vertical), limit);
        let m = box_max(sel, vertical, limit, (n - 1) as nat);
        if c > m {
            c
        } else {
            m
        }
    }
}

/// Left column of the selection's bounding box, within the image.
pub open spec fn crop_left(image: Raster, sel: Seq<Point>) -> int {
    box_min(sel, false, image.width as int, sel.len())
}

/// Top row of the selection's bounding box, within the image.
pub open spec fn crop_top(image: Raster, sel: Seq<Point>) -> int {
    box_min(sel, true, image.height as int, sel.len())
}

pub open spec fn crop_width(image: Raster, sel: Seq<Point>) -> int {
    box_max(sel, false, image.width as int, sel.len()) - crop_left(image, sel)
}

pub open spec fn crop_height(image: Raster, sel: Seq<Point>) -> int {
    box_max(sel, true, image.height as int, sel.len()) - crop_top(image, sel)
}

/// Bytes of the cropped selection: each pixel of the bounding box keeps the
/// source pixel when the scanline mask covers it, and is zero otherwise.
pub open spec fn crop_spec(image: Raster, sel: Seq<Point>) -> Seq<u8> {
    let w = image.width as int;
    let x0 = crop_left(image, sel);
    let y0 = crop_top(image, sel);
    let bw = crop_width(image, sel);
    let bh = crop_height(image, sel);
    let m = mask_spec(sel, w, image.height as int);
    Seq::new(
        (4 * bw * bh) as nat,
        |i: int|
            {
                let p = i / 4;
                let src = (y0 + p / bw) * w + (x0 + p % bw);
                if m[src] {
                    image.data@[4 * src + i % 4]
                } else {
                    0u8
                }
            },
    )
}

proof fn lemma_box_ordered(sel: Seq<Point>, vertical: bool, limit: int, n: nat)
    requires
        limit >= 0,
        1 <= n <= sel.len(),
    ensures
        0 <= box_min(sel, vertical, limit, n) <= box_max(sel, vertical, limit, n) <= limit,
    decreases n,
{
    if n > 1 {
        lemma_box_ordered(sel, vertical, limit, (n - 1) as nat);
    } else {
        assert(box_min(sel, vertical, limit, 0) == limit);
        assert(box_max(sel, vertical, limit, 0) == 0);
    }
}

fn clamp_index(v: i32, hi: usize) -> (r: usize)
    ensures
        r == clamp_to(v as int, hi as int),
{
    if v < 0 {
        0
    } else if v as usize > hi {
        hi
    } else {
        v as usize
    }
}

/// Cuts the selection out of `image`: the output covers the bounding box of
/// the sampled points (clamped to the image), keeps the pixels that the
/// scanline mask over the whole image covers, and leaves the others zero.
pub fn crop_selection(image: &Raster, selection: &Vec<Point>) -> (r: Result<Raster, SelectionError>)
    requires
        image.wf(),
    ensures
        selection@.len() < 3 ==> r == Err::<Raster, SelectionError>(SelectionError::TooSmall),
        selection@.len() >= 3 ==> (r matches Ok(out) && out.wf() && out.width == crop_width(
            *image,
            selection@,
        ) && out.height == crop_height(*image, selection@) && out.data@ == crop_spec(
            *image,
            selection@,
        )),
{
    let len = selection.len();
    if len < 3 {
        return Err(SelectionError::TooSmall);
    }
    let ghost sel = selection@;
    let w = image.width;
    let h = image.height;
    let mut x0: usize = w;
    let mut y0: usize = h;
    let mut x1: usize = 0;
    let mut y1: usize = 0;
    let mut i: usize = 0;
    while i < len
        invariant
            len == selection.len(),
            sel == selection@,
            i <= len,
            x0 == box_min(sel, false, w as int, i as nat),
            y0 == box_min(sel, true, h as int, i as nat),
            x1 == box_max(sel, false, w as int, i as nat),
            y1 == box_max(sel, true, h as int, i as nat),
        decreases len - i,
    {
        let p = selection[i];
        let cx = clamp_index(p.x, w);
        let cy = clamp_index(p.y, h);
        if cx < x0 {
            x0 = cx;
        }
        if cx > x1 {
            x1 = cx;
        }
        if cy < y0 {
            y0 = cy;
        }
        if cy > y1 {
            y1 = cy;
        }
        i += 1;
    }
    proof {
        lemma_box_ordered(sel, false, w as int, len as nat);
        lemma_box_ordered(sel, true, h as int, len as nat);
    }
    let bw = x1 - x0;
    let bh = y1 - y0;
    let n = image.data.len();
    assert(w * h <= usize::MAX && w < usize::MAX) by (nonlinear_arith)
        requires
            n == 4 * w * h,
            n <= usize::MAX,
            4 * w <= usize::MAX,
    ;
    assert(4 * bw * bh <= 4 * w * h) by (nonlinear_arith)
        requires
            bw <= w,
            bh <= h,
    ;
    let total = 4 * bw * bh;
    let mask = selection_mask(w, h, selection);
    let ghost m = mask_spec(sel, w as int, h as int);
    let mut out: Vec<u8> = Vec::with_capacity(total);
    let mut i: usize = 0;
    while i < total
        invariant
            image.wf(),
            w == image.width,
            h == image.height,
            n == image.data@.len(),
            mask@ == m,
            m == mask_spec(sel, w as int, h as int),
            m.len() == w * h,
            w * h <= usize::MAX,
            x0 + bw <= w,
            y0 + bh <= h,
            total == 4 * bw * bh,
            x0 == crop_left(*image, sel),
            y0 == crop_top(*image, sel),
            bw == crop_width(*image, sel),
            bh == crop_height(*image, sel),
            i <= total,
            out@.len() == i,
            forall|k: int| 0 <= k < i ==> out@[k] == crop_spec(*image, sel)[k],
        decreases total - i,
    {
        let p = i / 4;
        assert(bw > 0 && p < bw * bh) by (nonlinear_arith)
            requires
                i < 4 * bw * bh,
                p == i / 4,
        ;
        assert(p / bw < bh) by (nonlinear_arith)
            requires
                p < bw * bh,
                bw > 0,
        ;
        let cy = y0 + p / bw;
        let cx = x0 + p % bw;
        assert(cy * w + cx < w * h) by (nonlinear_arith)
            requires
                cy < h,
                cx < w,
        ;
        let src = cy * w + cx;
        assert(4 * src + i % 4 < n) by (nonlinear_arith)
            requires
                src < w * h,
                n == 4 * w * h,
                0 <= i % 4 < 4,
        ;
        let b: u8 = if mask[src] {
            image.data[4 * src + i % 4]
        } else {
            0
        };
        out.push(b);
        i += 1;
    }
    assert(out@ =~= crop_spec(*image, sel));
    let r = Raster { width: bw, height: bh, data: out };
    assert(4 * bw <= usize::MAX);
    Ok(r)
}

} // verus!
