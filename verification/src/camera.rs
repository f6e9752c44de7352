//! Fitting the camera's window inside a level.
//!
//! The window has the fixed ratio of 16 to 9 and shows the level as large as
//! that ratio allows: a level that is wider than 16 to 9 is shown at its full
//! height and scrolled sideways, any other level at its full width and
//! scrolled up and down. The window follows one entity and stops at
//! the level's edges.
//!
//! Sizes are in whole pixels. Places are in units of which `SUBPIXELS` make
//! one pixel, so that half a window is a whole number of them.

use vstd::prelude::*;

verus! {

/// The number of units of place in one pixel.
pub const SUBPIXELS: i64 = 256;

/// The largest distance from the world's origin, in units of place, at which
/// a level may lie for the camera to be fitted to it.
pub const PLACE_LIMIT: i64 = 0x4000_0000_0000_0000;

/// A place in the world, in units of which `SUBPIXELS` make one pixel.
#[derive(Clone, Copy, Debug, PartialEq, Eq, Structural)]
pub struct WorldPoint {
    pub x: i64,
    pub y: i64,
}

/// The size of a level in pixels and the place of its lower left corner.
#[derive(Clone, Copy, Debug, PartialEq, Eq, Structural)]
pub struct LevelBounds {
    pub px_wid: i32,
    pub px_hei: i32,
    pub origin: WorldPoint,
}

/// The camera's window: its size in pixels, the place of its lower left
/// corner counted from the level's corner (`offset_x`, `offset_y`) and
/// counted from the world's origin (`x`, `y`).
#[derive(Clone, Copy, Debug, PartialEq, Eq, Structural)]
pub struct CameraFrame {
    pub width: i64,
    pub height: i64,
    pub offset_x: i64,
    pub offset_y: i64,
    pub x: i64,
    pub y: i64,
}

/// The multiple of 9 that lies nearest to `n`.
pub open spec fn nearest_multiple_of_9(n: int) -> int {
    (2 * n + 9) / 18 * 9
}

/// The multiple of 16 that lies nearest to `n`, the upper one where two lie
/// equally near.
pub open spec fn nearest_multiple_of_16(n: int) -> int {
    (2 * n + 16) / 32 * 16
}

/// The distance between `a` and `b`.
pub open spec fn distance(a: int, b: int) -> int {
    if a < b {
        b - a
    } else {
        a - b
    }
}

/// `v`, or the end of the range from `low` to `high` that lies nearest to it.
pub open spec fn clamped(v: int, low: int, high: int) -> int {
    if v < low {
        low
    } else if v > high {
        high
    } else {
        v
    }
}

impl LevelBounds {
    /// Whether the level is wider than 16 to 9.
    pub open spec fn is_wide(self) -> bool {
        9 * self.px_wid > 16 * self.px_hei
    }

    /// The width of the window in pixels.
    pub open spec fn window_width(self) -> int {
        if self.is_wide() {
            nearest_multiple_of_9(self.px_hei as int) / 9 * 16
        } else {
            nearest_multiple_of_16(self.px_wid as int)
        }
    }

    /// The height of the window in pixels.
    pub open spec fn window_height(self) -> int {
        if self.is_wide() {
            nearest_multiple_of_9(self.px_hei as int)
        } else {
            nearest_multiple_of_16(self.px_wid as int) / 16 * 9
        }
    }

    /// Whether a window can be fitted: the level's sizes are not negative,
    /// the level holds the window along the side on which the window
    /// scrolls, and it lies within `PLACE_LIMIT` of the world's origin.
    pub open spec fn fits(self) -> bool {
        &&& self.px_wid >= 0
        &&& self.px_hei >= 0
        &&& if self.is_wide() {
            self.window_width() <= self.px_wid
        } else {
            self.window_height() <= self.px_hei
        }
        &&& -PLACE_LIMIT <= self.origin.x <= PLACE_LIMIT
        &&& -PLACE_LIMIT <= self.origin.y <= PLACE_LIMIT
    }

    /// The window for a followed entity at `target`.
    ///
    /// Along the side on which it scrolls the window is centered on the
    /// entity, as far as the level's edges allow; along the other side it
    /// starts at the level's edge.
    pub open spec fn frame_for(self, target: WorldPoint) -> CameraFrame {
        let width = self.window_width();
        let height = self.window_height();
        let offset_x = if self.is_wide() {
            clamped(
                target.x - self.origin.x - SUBPIXELS * width / 2,
                0,
                SUBPIXELS * (self.px_wid - width),
            )
        } else {
            0
        };
        let offset_y = if self.is_wide() {
            0
        } else {
            clamped(
                target.y - self.origin.y - SUBPIXELS * height / 2,
                0,
                SUBPIXELS * (self.px_hei - height),
            )
        };
        CameraFrame {
            width: width as i64,
            height: height as i64,
            offset_x: offset_x as i64,
            offset_y: offset_y as i64,
            x: (offset_x + self.origin.x) as i64,
            y: (offset_y + self.origin.y) as i64,
        }
    }

    /// Whether a window can be fitted to the level.
    pub fn can_fit(&self) -> (fits: bool)
        ensures
            fits == self.fits(),
    {
        if self.px_wid < 0 || self.px_hei < 0 {
            return false;
        }
        if self.origin.x < -PLACE_LIMIT || self.origin.x > PLACE_LIMIT || self.origin.y
            < -PLACE_LIMIT || self.origin.y > PLACE_LIMIT {
            return false;
        }
        let w = self.px_wid as i64;
        let h = self.px_hei as i64;
        if 9 * w > 16 * h {
            (2 * h + 9) / 18 * 16 <= w
        } else {
            (2 * w + 16) / 32 * 9 <= h
        }
    }
}

/// Where the window starts along one side: centered on the followed entity,
/// and inside the level.
fn scroll_offset(target: i64, origin: i64, window: i64, level: i64) -> (offset: i64)
    requires
        0 <= window <= level <= i32::MAX,
    ensures
        offset == clamped(
            target - origin - SUBPIXELS * window / 2,
            0,
            SUBPIXELS * (level - window),
        ),
{
    let centered: i128 = target as i128 - origin as i128 - (SUBPIXELS / 2 * window) as i128;
    let high: i64 = SUBPIXELS * (level - window);
    if centered < 0 {
        0
    } else if centered > high as i128 {
        high
    } else {
        centered as i64
    }
}

/// The camera's window for the level and the followed entity, or nothing
/// where there is no followed entity yet, whatever the level.
pub fn camera_fit_inside_current_level(level: &LevelBounds, target: Option<WorldPoint>) -> (frame:
    Option<CameraFrame>)
    requires
        target is Some ==> level.fits(),
    ensures
        frame == (match target {
            Some(place) => Some(level.frame_for(place)),
            None => None,
        }),
{
    let place = match target {
        Some(place) => place,
        None => {
            return None;
        },
    };
    let w = level.px_wid as i64;
    let h = level.px_hei as i64;
    if 9 * w > 16 * h {
        let steps = (2 * h + 9) / 18;
        let width = steps * 16;
        let height = steps * 9;
        let offset_x = scroll_offset(place.x, level.origin.x, width, w);
        Some(
            CameraFrame {
                width,
                height,
                offset_x,
                offset_y: 0,
                x: offset_x + level.origin.x,
                y: level.origin.y,
            },
        )
    } else {
        let steps = (2 * w + 16) / 32;
        let width = steps * 16;
        let height = steps * 9;
        let offset_y = scroll_offset(place.y, level.origin.y, height, h);
        Some(
            CameraFrame {
                width,
                height,
                offset_x: 0,
                offset_y,
                x: level.origin.x,
                y: offset_y + level.origin.y,
            },
        )
    }
}

/// The window's height on a wide level is a multiple of 9, and no multiple
/// of 9 lies nearer to the level's height.
pub proof fn lemma_nearest_multiple_of_9(n: int, other: int)
    ensures
        nearest_multiple_of_9(n) % 9 == 0,
        distance(nearest_multiple_of_9(n), n) <= distance(9 * other, n),
{
}

/// The window's width on any other level is a multiple of 16, and no
/// multiple of 16 lies nearer to the level's width; of two that lie equally
/// near it is the upper one.
pub proof fn lemma_nearest_multiple_of_16(n: int, other: int)
    ensures
        nearest_multiple_of_16(n) % 16 == 0,
        distance(nearest_multiple_of_16(n), n) <= distance(16 * other, n),
        distance(nearest_multiple_of_16(n), n) == distance(16 * other, n) ==> 16 * other
            <= nearest_multiple_of_16(n),
{
}

/// Where the window is no larger than the level, it lies inside the level:
/// from its offset on, its width and its height end at or before the level's
/// far edges. Along the side on which the window scrolls this holds of every
/// level that a window can be fitted to.
pub proof fn lemma_window_stays_inside(level: LevelBounds, target: WorldPoint)
    requires
        level.fits(),
        level.window_width() <= level.px_wid,
        level.window_height() <= level.px_hei,
    ensures
        0 <= level.frame_for(target).offset_x,
        level.frame_for(target).offset_x + SUBPIXELS * level.frame_for(target).width <= SUBPIXELS
            * level.px_wid,
        0 <= level.frame_for(target).offset_y,
        level.frame_for(target).offset_y + SUBPIXELS * level.frame_for(target).height
            <= SUBPIXELS * level.px_hei,
{
}

/// Along the side on which the window scrolls, a followed entity that
/// stands inside the level stands inside the window.
pub proof fn lemma_window_shows_target(level: LevelBounds, target: WorldPoint)
    requires
        level.fits(),
        level.is_wide() ==> 0 <= target.x - level.origin.x <= SUBPIXELS * level.px_wid,
        !level.is_wide() ==> 0 <= target.y - level.origin.y <= SUBPIXELS * level.px_hei,
    ensures
        level.is_wide() ==> level.frame_for(target).x <= target.x <= level.frame_for(target).x
            + SUBPIXELS * level.frame_for(target).width,
        !level.is_wide() ==> level.frame_for(target).y <= target.y <= level.frame_for(target).y
            + SUBPIXELS * level.frame_for(target).height,
{
}

} // verus!
