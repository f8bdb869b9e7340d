use vstd::prelude::*;
use crate::geometry::Point;
use crate::raster::{
    compose_frame, crop_height, crop_selection, crop_spec, crop_width, frame_spec, Raster,
    SelectionError,
};

verus! {

/// Least time, in milliseconds, between two accepted pointer samples.
pub const THROTTLE_MS: u64 = 100;

/// A pointer sample taken at `now` is accepted once at least
/// `THROTTLE_MS` have passed since the last accepted one.
pub open spec fn sample_due(last: u64, now: u64) -> bool {
    now >= last && now - last >= THROTTLE_MS
}

/// One capture with the lasso gesture being drawn over it.
pub struct Session {
    pub image: Raster,
    /// Last known pointer position, whether or not a gesture is active.
    pub cursor: Point,
    pub selecting: bool,
    /// Time of the last accepted sample, in milliseconds.
    pub last_sample_ms: u64,
    pub selection: Vec<Point>,
}

impl Session {
    /// A session over `image`, idle, with no points, created at `now_ms`.
    pub fn new(image: Raster, now_ms: u64) -> (r: Session)
        ensures
            r.image == image,
            r.cursor == (Point { x: 0, y: 0 }),
            !r.selecting,
            r.last_sample_ms == now_ms,
            r.selection@ == Seq::<Point>::empty(),
    {
        Session {
            image,
            cursor: Point { x: 0, y: 0 },
            selecting: false,
            last_sample_ms: now_ms,
            selection: Vec::new(),
        }
    }

    /// Pointer down: a new gesture starts from an empty polygon, also when
    /// one was already in progress.
    pub fn pointer_pressed(&mut self)
        ensures
            final(self).selecting,
            final(self).selection@ == Seq::<Point>::empty(),
            final(self).image == old(self).image,
            final(self).cursor == old(self).cursor,
            final(self).last_sample_ms == old(self).last_sample_ms,
    {
        self.selecting = true;
        self.selection = Vec::new();
    }

    /// Pointer motion: the cursor is always recorded; during a gesture the
    /// position is appended when the throttle interval has passed. Returns
    /// whether a redraw is wanted, which is exactly when a point was added.
    pub fn cursor_moved(&mut self, position: Point, now_ms: u64) -> (redraw: bool)
        ensures
            final(self).cursor == position,
            redraw == (old(self).selecting && sample_due(old(self).last_sample_ms, now_ms)),
            redraw ==> final(self).selection@ == old(self).selection@.push(position)
                && final(self).last_sample_ms == now_ms,
            !redraw ==> final(self).selection@ == old(self).selection@
                && final(self).last_sample_ms == old(self).last_sample_ms,
            final(self).selecting == old(self).selecting,
            final(self).image == old(self).image,
    {
        self.cursor = position;
        if self.selecting && now_ms >= self.last_sample_ms && now_ms - self.last_sample_ms
            >= THROTTLE_MS {
            self.selection.push(position);
            self.last_sample_ms = now_ms;
            true
        } else {
            false
        }
    }

    /// Pointer up: the gesture ends. Returns whether one was in progress, in
    /// which case the polygon as it stands is the selection to crop.
    pub fn pointer_released(&mut self) -> (finished: bool)
        ensures
            finished == old(self).selecting,
            !final(self).selecting,
            final(self).selection@ == old(self).selection@,
            final(self).image == old(self).image,
            final(self).cursor == old(self).cursor,
            final(self).last_sample_ms == old(self).last_sample_ms,
    {
        let finished = self.selecting;
        self.selecting = false;
        finished
    }

    /// The preview frame for the polygon as it stands.
    pub fn frame(&self) -> (r: Vec<u8>)
        requires
            self.image.wf(),
        ensures
            r@ == frame_spec(self.image, self.selection@),
    {
        compose_frame(&self.image, &self.selection)
    }

    /// The masked crop of the polygon as it stands.
    pub fn selection_image(&self) -> (r: Result<Raster, SelectionError>)
        requires
            self.image.wf(),
        ensures
            self.selection@.len() < 3 ==> r == Err::<Raster, SelectionError>(
                SelectionError::TooSmall,
            ),
            self.selection@.len() >= 3 ==> (r matches Ok(out) && out.wf() && out.width
                == crop_width(self.image, self.selection@) && out.height == crop_height(
                self.image,
                self.selection@,
            ) && out.data@ == crop_spec(self.image, self.selection@)),
    {
        crop_selection(&self.image, &self.selection)
    }
}

} // verus!
