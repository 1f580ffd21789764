//! Where the pill stands on a screen.

use vstd::prelude::*;

verus! {

/// A monitor, or a window, in physical pixels.
#[derive(Clone, Copy)]
pub struct Screen {
    pub x: i32,
    pub y: i32,
    pub width: u32,
    pub height: u32,
}

/// Half of a difference, cut towards zero.
pub open spec fn half(d: int) -> int {
    if d >= 0 {
        d / 2
    } else {
        -((-d) / 2)
    }
}

/// Bottom centre of a screen, `margin` above its lower edge, for a window of the given size.
pub open spec fn bottom_centre(screen: Screen, win_w: int, win_h: int, margin: int) -> (int, int) {
    (screen.x + half(screen.width - win_w), screen.y + screen.height - win_h - margin)
}

pub open spec fn fits(n: int) -> bool {
    i32::MIN <= n <= i32::MAX
}

/// Where the window's upper left corner goes; `None` where that is no coordinate.
pub fn place(screen: Screen, win_w: i32, win_h: i32, margin: i32) -> (r: Option<(i32, i32)>)
    ensures
        ({
            let at = bottom_centre(screen, win_w as int, win_h as int, margin as int);
            &&& r.is_some() == (fits(at.0) && fits(at.1))
            &&& r.is_some() ==> r.unwrap().0 == at.0 && r.unwrap().1 == at.1
        }),
{
    let d: i64 = screen.width as i64 - win_w as i64;
    let shift: i64 = if d >= 0 {
        ((d as u64) / 2) as i64
    } else {
        -((((-d) as u64) / 2) as i64)
    };
    let x: i64 = screen.x as i64 + shift;
    let y: i64 = screen.y as i64 + screen.height as i64 - win_h as i64 - margin as i64;
    if x < i32::MIN as i64 || x > i32::MAX as i64 || y < i32::MIN as i64 || y > i32::MAX as i64 {
        None
    } else {
        Some((x as i32, y as i32))
    }
}

/// A window that fits is centred to the pixel: the space on its left and on its right differ by one
/// pixel at most, and it stands `margin` above the lower edge.
pub proof fn law_centred(screen: Screen, win_w: int, win_h: int, margin: int)
    requires
        0 <= win_w <= screen.width,
    ensures
        ({
            let at = bottom_centre(screen, win_w, win_h, margin);
            let left = at.0 - screen.x;
            let right = screen.x + screen.width - (at.0 + win_w);
            &&& 0 <= left <= right <= left + 1
            &&& at.1 + win_h + margin == screen.y + screen.height
        }),
{
}

/// A window that is wider than the screen hangs over on both sides alike, to the pixel.
pub proof fn law_wide_window_is_centred(screen: Screen, win_w: int, win_h: int, margin: int)
    requires
        win_w >= screen.width,
    ensures
        ({
            let at = bottom_centre(screen, win_w, win_h, margin);
            let left = screen.x - at.0;
            let right = (at.0 + win_w) - (screen.x + screen.width);
            &&& 0 <= left <= right <= left + 1
            &&& at.1 + win_h + margin == screen.y + screen.height
        }),
{
}

/// Every coordinate of 32 bits is one, and no other.
pub proof fn law_every_coordinate_fits(n: int)
    ensures
        fits(n) <==> -2147483648 <= n <= 2147483647,
{
}

} // verus!
