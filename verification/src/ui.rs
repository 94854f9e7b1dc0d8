//! What the chart window decides: its size, its reactions, and the retries of a frame.
use vstd::prelude::*;

verus! {

pub const WM_PAINT: u32 = 0x000f;

pub const WM_CLOSE: u32 = 0x0010;

pub const WM_ERASEBKGND: u32 = 0x0014;

pub const WM_DPICHANGED: u32 = 0x02e0;

/// The sampling thread tells the window that the mailbox holds a sample.
pub const WM_APP_SAMPLE: u32 = 0x8000;

/// The initial width of the window at 96 DPI.
pub const INITIAL_WIDTH: i32 = 1400;

/// The initial height of the window at 96 DPI.
pub const INITIAL_HEIGHT: i32 = 1480;

/// What the window leaves free of the work area.
pub const WORK_AREA_MARGIN: i32 = 32;

pub const BASE_DPI: u32 = 96;

/// How often a frame is tried: once more after the device was lost.
pub const FRAME_ATTEMPTS: u32 = 2;

/// A rectangle in pixels.
#[derive(Clone, Copy, Debug, PartialEq, Eq, Structural)]
pub struct Rectangle {
    pub left: i32,
    pub top: i32,
    pub right: i32,
    pub bottom: i32,
}

impl Rectangle {
    /// Whether width and height are 32-bit numbers.
    pub open spec fn is_measurable(self) -> bool {
        i32::MIN <= self.right - self.left <= i32::MAX && i32::MIN <= self.bottom - self.top
            <= i32::MAX
    }

    pub fn has_size(self) -> (r: bool)
        ensures
            r == self.is_measurable(),
    {
        let width: i64 = self.right as i64 - self.left as i64;
        let height: i64 = self.bottom as i64 - self.top as i64;
        i32::MIN as i64 <= width && width <= i32::MAX as i64 && i32::MIN as i64 <= height && height
            <= i32::MAX as i64
    }

    /// Position and size.
    pub fn placement(self) -> (r: (i32, i32, i32, i32))
        requires
            self.is_measurable(),
        ensures
            r.0 == self.left,
            r.1 == self.top,
            r.2 == self.right - self.left,
            r.3 == self.bottom - self.top,
    {
        (self.left, self.top, self.right - self.left, self.bottom - self.top)
    }

    /// The size of a client area; nothing if there is no area to draw on.
    pub fn drawing_size(self) -> (r: Option<(u32, u32)>)
        requires
            self.is_measurable(),
        ensures
            match r {
                Some((width, height)) => width == self.right - self.left && height == self.bottom
                    - self.top && width > 0 && height > 0,
                None => self.right <= self.left || self.bottom <= self.top,
            },
    {
        if self.right <= self.left || self.bottom <= self.top {
            return None;
        }
        Some(((self.right - self.left) as u32, (self.bottom - self.top) as u32))
    }
}

/// A DPI value that is at least the base value.
pub open spec fn usable_dpi(dpi: u32) -> u32 {
    if dpi < BASE_DPI {
        BASE_DPI
    } else {
        dpi
    }
}

pub fn effective_dpi(dpi: u32) -> (r: u32)
    ensures
        r == usable_dpi(dpi),
        dpi <= 96 ==> r == 96,
        dpi >= 96 ==> r == dpi,
{
    if dpi < BASE_DPI {
        BASE_DPI
    } else {
        dpi
    }
}

/// The largest DPI value for which the initial size is a 32-bit number.
pub const MAX_DPI: u32 = 1_451_002;

/// A length at 96 DPI in pixels.
pub open spec fn pixels(length: i32, dpi: u32) -> int {
    length * usable_dpi(dpi) / 96
}

/// The longest side that leaves the margin free, but at least one pixel.
pub open spec fn room(available: int) -> int {
    if available - WORK_AREA_MARGIN < 1 {
        1
    } else {
        available - WORK_AREA_MARGIN
    }
}

/// A length that is cut to the available one.
pub open spec fn fitted(length: int, available: int) -> int {
    if length <= room(available) {
        length
    } else {
        room(available)
    }
}

fn fit(length: i32, available: i32) -> (r: i32)
    requires
        available >= i32::MIN + WORK_AREA_MARGIN,
    ensures
        r == fitted(length as int, available as int),
{
    let left: i32 = available - WORK_AREA_MARGIN;
    let most: i32 = if left < 1 {
        1
    } else {
        left
    };
    if length <= most {
        length
    } else {
        most
    }
}

/// The initial size of the window in pixels: the size at 96 DPI, brought to the
/// screen's DPI, and cut to the work area if that is known.
pub fn initial_window_size(dpi: u32, work: Option<Rectangle>) -> (r: (i32, i32))
    requires
        dpi <= MAX_DPI,
        work matches Some(area) ==> area.is_measurable() && area.right - area.left >= i32::MIN
            + WORK_AREA_MARGIN && area.bottom - area.top >= i32::MIN + WORK_AREA_MARGIN,
    ensures
        match work {
            Some(area) => {
                &&& r.0 == fitted(pixels(INITIAL_WIDTH, dpi), area.right - area.left)
                &&& r.1 == fitted(pixels(INITIAL_HEIGHT, dpi), area.bottom - area.top)
            },
            None => r.0 == pixels(INITIAL_WIDTH, dpi) && r.1 == pixels(INITIAL_HEIGHT, dpi),
        },
        work is None && dpi >= 96 ==> 96 * r.0 <= 1400 * dpi < 96 * (r.0 + 1) && 96 * r.1 <= 1480
            * dpi < 96 * (r.1 + 1),
        work is None && dpi < 96 ==> r.0 == 1400 && r.1 == 1480,
{
    let dpi: i32 = effective_dpi(dpi) as i32;
    let width: i32 = INITIAL_WIDTH * dpi / 96;
    let height: i32 = INITIAL_HEIGHT * dpi / 96;
    match work {
        Some(area) => (
            fit(width, area.right - area.left),
            fit(height, area.bottom - area.top),
        ),
        None => (width, height),
    }
}

/// The initial window lies within the work area where that leaves room, is
/// never empty, and is no larger than its size at the screen's DPI.
pub proof fn the_window_fits_the_work_area(length: int, available: int)
    requires
        length > 0,
    ensures
        0 < fitted(length, available) <= length,
        available > WORK_AREA_MARGIN ==> fitted(length, available) <= available - WORK_AREA_MARGIN,
        length <= available - WORK_AREA_MARGIN ==> fitted(length, available) == length,
{
}

/// What the window does about a message.
#[derive(Clone, Copy, Debug, PartialEq, Eq, Structural)]
pub enum Reaction {
    /// Take the sample out of the mailbox, and redraw if there was one.
    TakeSample,
    Paint,
    /// Move to the rectangle that comes with the message.
    Rescale,
    /// The background is drawn with the rest.
    SkipErase,
    Quit,
    /// Leave the message to the system.
    Default,
}

pub fn reaction(message: u32) -> (r: Reaction)
    ensures
        r == if message == WM_APP_SAMPLE {
            Reaction::TakeSample
        } else if message == WM_PAINT {
            Reaction::Paint
        } else if message == WM_DPICHANGED {
            Reaction::Rescale
        } else if message == WM_ERASEBKGND {
            Reaction::SkipErase
        } else if message == WM_CLOSE {
            Reaction::Quit
        } else {
            Reaction::Default
        },
        r == Reaction::TakeSample <==> message == 0x8000,
        r == Reaction::Paint <==> message == 0xf,
        r == Reaction::Rescale <==> message == 0x2e0,
        r == Reaction::SkipErase <==> message == 0x14,
        r == Reaction::Quit <==> message == 0x10,
{
    match message {
        WM_APP_SAMPLE => Reaction::TakeSample,
        WM_PAINT => Reaction::Paint,
        WM_DPICHANGED => Reaction::Rescale,
        WM_ERASEBKGND => Reaction::SkipErase,
        WM_CLOSE => Reaction::Quit,
        _ => Reaction::Default,
    }
}

/// What the window answers to a message that it reacts to.
pub fn answer(reaction: Reaction) -> (r: Option<isize>)
    ensures
        r == match reaction {
            Reaction::Default => None::<isize>,
            Reaction::SkipErase => Some(1isize),
            _ => Some(0isize),
        },
        r is None <==> reaction == Reaction::Default,
        r == Some(1isize) <==> reaction == Reaction::SkipErase,
{
    match reaction {
        Reaction::Default => None,
        Reaction::SkipErase => Some(1),
        _ => Some(0),
    }
}

/// How drawing a frame ended.
#[derive(Clone, Copy, Debug, PartialEq, Eq, Structural)]
pub enum Drawn {
    Presented,
    DeviceLost,
    Failed,
}

/// What follows a try to draw a frame.
#[derive(Clone, Copy, Debug, PartialEq, Eq, Structural)]
pub enum FrameStep {
    Done,
    /// Drop the device, say so, and try again with a new one.
    Retry,
    /// Drop the device, and report that it is lost.
    GiveUp,
    /// Report the failure.
    Fail,
}

/// Takes the end of a try; `attempt` counts from zero.
pub fn after_frame(attempt: u32, drawn: Drawn) -> (r: FrameStep)
    requires
        attempt < FRAME_ATTEMPTS,
    ensures
        r == match drawn {
            Drawn::Presented => FrameStep::Done,
            Drawn::Failed => FrameStep::Fail,
            Drawn::DeviceLost => if attempt + 1 < FRAME_ATTEMPTS {
                FrameStep::Retry
            } else {
                FrameStep::GiveUp
            },
        },
        r == FrameStep::Done <==> drawn == Drawn::Presented,
        r == FrameStep::Retry <==> drawn == Drawn::DeviceLost && attempt == 0,
        r == FrameStep::GiveUp <==> drawn == Drawn::DeviceLost && attempt == 1,
{
    match drawn {
        Drawn::Presented => FrameStep::Done,
        Drawn::Failed => FrameStep::Fail,
        Drawn::DeviceLost => {
            if attempt + 1 < FRAME_ATTEMPTS {
                FrameStep::Retry
            } else {
                FrameStep::GiveUp
            }
        },
    }
}

/// A length in pixels is the length at 96 DPI times the DPI over 96, cut to a
/// whole number, and no less than at 96 DPI.
pub proof fn lengths_grow_with_the_dpi(length: i32, dpi: u32, more: u32)
    requires
        0 <= length,
        dpi <= more,
    ensures
        dpi >= 96 ==> 96 * pixels(length, dpi) <= length * dpi < 96 * (pixels(length, dpi) + 1),
        dpi <= 96 ==> pixels(length, dpi) == length,
        pixels(length, dpi) <= pixels(length, more),
{
    assert(length * usable_dpi(dpi) <= length * usable_dpi(more)) by (nonlinear_arith)
        requires 0 <= length, usable_dpi(dpi) <= usable_dpi(more),
    ;
    if dpi <= 96 {
        assert(length * 96 / 96 == length);
    }
}

/// A length is cut to what the available one leaves of a margin of 32 pixels, but
/// not below one pixel.
pub proof fn lengths_leave_a_margin(length: int, available: int)
    ensures
        available >= 33 && length <= available - 32 ==> fitted(length, available) == length,
        available >= 33 && length > available - 32 ==> fitted(length, available) == available - 32,
        available < 33 && length >= 1 ==> fitted(length, available) == 1,
{
}

} // verus!
