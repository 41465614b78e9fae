//! Where a block of text sits in a window, in whole pixels.

use vstd::prelude::*;

verus! {

#[derive(Clone, Copy, Debug, PartialEq, Eq, Hash, Structural)]
pub enum HorizontalAlignment {
    Left,
    Center,
    Right,
}

#[derive(Clone, Copy, Debug, PartialEq, Eq, Hash, Structural)]
pub enum VerticalAlignment {
    Top,
    Center,
    Bottom,
}

pub const BOTTOM_LEFT: (HorizontalAlignment, VerticalAlignment) = (
    HorizontalAlignment::Left,
    VerticalAlignment::Bottom,
);

pub const TOP_RIGHT: (HorizontalAlignment, VerticalAlignment) = (
    HorizontalAlignment::Right,
    VerticalAlignment::Top,
);

pub const CENTERED: (HorizontalAlignment, VerticalAlignment) = (
    HorizontalAlignment::Center,
    VerticalAlignment::Center,
);

/// Half of the space left over when `size` is taken from `room`, rounded
/// towards nothing. It is negative when the text is larger than the window.
pub open spec fn half_slack(room: u32, size: u32) -> int {
    if room >= size {
        (room - size) / 2
    } else {
        -((size - room) / 2)
    }
}

/// The space left over when `size` is taken from `room`.
pub open spec fn slack(room: u32, size: u32) -> int {
    room - size
}

/// Where the left edge of text of the given width goes in a window of the
/// given width.
pub open spec fn left_edge(window_width: u32, text_width: u32, horiz: HorizontalAlignment) -> int {
    match horiz {
        HorizontalAlignment::Left => 0,
        HorizontalAlignment::Center => half_slack(window_width, text_width),
        HorizontalAlignment::Right => slack(window_width, text_width),
    }
}

/// Where the top edge of text of the given height goes in a window of the
/// given height.
pub open spec fn top_edge(window_height: u32, text_height: u32, vert: VerticalAlignment) -> int {
    match vert {
        VerticalAlignment::Top => 0,
        VerticalAlignment::Center => half_slack(window_height, text_height),
        VerticalAlignment::Bottom => slack(window_height, text_height),
    }
}

fn half_of_slack(room: u32, size: u32) -> (half: i64)
    ensures
        half == half_slack(room, size),
{
    if room >= size {
        let over: u32 = room - size;
        (over / 2) as i64
    } else {
        let short: u32 = size - room;
        0 - ((short / 2) as i64)
    }
}

/// The top left corner of text of size `dims` (width, height) aligned in a
/// window of size `window`.
pub fn text_origin(window: (u32, u32), dims: (u32, u32), align: (HorizontalAlignment, VerticalAlignment)) -> (corner: (
    i64,
    i64,
))
    ensures
        corner.0 == left_edge(window.0, dims.0, align.0),
        corner.1 == top_edge(window.1, dims.1, align.1),
{
    let x: i64 = match align.0 {
        HorizontalAlignment::Left => 0,
        HorizontalAlignment::Center => half_of_slack(window.0, dims.0),
        HorizontalAlignment::Right => (window.0 as i64) - (dims.0 as i64),
    };
    let y: i64 = match align.1 {
        VerticalAlignment::Top => 0,
        VerticalAlignment::Center => half_of_slack(window.1, dims.1),
        VerticalAlignment::Bottom => (window.1 as i64) - (dims.1 as i64),
    };
    (x, y)
}

} // verus!
