//! The part of the screen that is captured around the pointer, before any
//! text is looked for in it.

use vstd::prelude::*;

verus! {

/// The pointer at `(x, y)` is on the monitor whose upper left corner is
/// `(mx, my)` and whose size is `mw` by `mh`, the edges counted in.
pub open spec fn on_monitor(x: i32, y: i32, mx: i32, my: i32, mw: u32, mh: u32) -> bool {
    mx <= x <= mx + mw && my <= y <= my + mh
}

/// Where the captured box begins on one axis: half the size of the box
/// before the pointer, and not before 0.
pub open spec fn box_start(pointer: i32, size: u32) -> int {
    if pointer - size / 2 > 0 {
        pointer - size / 2
    } else {
        0
    }
}

/// Where the captured box ends on one axis: half the size of the box behind
/// the pointer, and not behind the far edge of the monitor.
pub open spec fn box_end(pointer: i32, size: u32, origin: i32, extent: u32) -> int {
    if origin + extent < pointer + size / 2 {
        origin + extent
    } else {
        pointer + size / 2
    }
}

/// How far the captured box reaches on one axis: from its start to its end,
/// and nothing where the end does not lie behind the start.
pub open spec fn box_length(pointer: i32, size: u32, origin: i32, extent: u32) -> int {
    if box_end(pointer, size, origin, extent) > box_start(pointer, size) {
        box_end(pointer, size, origin, extent) - box_start(pointer, size)
    } else {
        0
    }
}

/// Start and length of the captured box on one axis, for a pointer on the
/// monitor.
fn box_side(pointer: i32, size: u32, origin: i32, extent: u32) -> (side: (u32, u32))
    requires
        origin <= pointer <= origin + extent,
    ensures
        side.0 == box_start(pointer, size),
        side.1 == box_length(pointer, size, origin, extent),
{
    let half: i64 = (size / 2) as i64;
    let start: i64 = if pointer as i64 - half > 0 {
        pointer as i64 - half
    } else {
        0
    };
    let far: i64 = origin as i64 + extent as i64;
    let end: i64 = if far < pointer as i64 + half {
        far
    } else {
        pointer as i64 + half
    };
    let length: i64 = if end > start {
        end - start
    } else {
        0
    };
    (start as u32, length as u32)
}

/// The box of the screen that is captured around the pointer: `None` exactly
/// when the pointer is off the monitor; else the left and upper edge of the
/// box, its width and its height. The box is `w` by `h` around the pointer,
/// cut off at 0 and at the far edges of the monitor.
///
/// All of it is reckoned in whole numbers without bounds, so nothing wraps:
/// where the pointer has a coordinate below 0 and the box would end before
/// it begins, the box is empty on that axis.
pub fn capture_box(x: i32, y: i32, w: u32, h: u32, mx: i32, my: i32, mw: u32, mh: u32) -> (area:
    Option<(u32, u32, u32, u32)>)
    ensures
        area is Some <==> on_monitor(x, y, mx, my, mw, mh),
        area matches Some(found) ==> found.0 == box_start(x, w) && found.1 == box_start(y, h)
            && found.2 == box_length(x, w, mx, mw) && found.3 == box_length(y, h, my, mh),
{
    let on_x = mx <= x && x as i64 <= mx as i64 + mw as i64;
    let on_y = my <= y && y as i64 <= my as i64 + mh as i64;
    if on_x && on_y {
        let (left, width) = box_side(x, w, mx, mw);
        let (top, height) = box_side(y, h, my, mh);
        Some((left, top, width, height))
    } else {
        None
    }
}

/// Where the pointer is at or behind 0, the captured box holds the pointer:
/// it begins at or before it and ends at or behind it.
pub proof fn lemma_box_holds_pointer(pointer: i32, size: u32, origin: i32, extent: u32)
    requires
        origin <= pointer <= origin + extent,
        0 <= pointer,
    ensures
        box_start(pointer, size) <= pointer <= box_end(pointer, size, origin, extent),
        box_start(pointer, size) + box_length(pointer, size, origin, extent) == box_end(
            pointer,
            size,
            origin,
            extent,
        ),
{
}

/// The captured box is never larger than asked for and never reaches behind
/// the far edge of the monitor.
pub proof fn lemma_box_is_bounded(pointer: i32, size: u32, origin: i32, extent: u32)
    ensures
        0 <= box_length(pointer, size, origin, extent) <= size,
        box_length(pointer, size, origin, extent) > 0 ==> box_start(pointer, size) + box_length(
            pointer,
            size,
            origin,
            extent,
        ) <= origin + extent,
{
}

} // verus!
