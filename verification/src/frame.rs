use vstd::prelude::*;

use crate::constants::MAX_FRAMES_IN_FLIGHT;

verus! {

/// How presenting a frame went.
#[derive(Debug, Clone, Copy, PartialEq, Eq, Structural)]
pub enum PresentResult {
    /// Presented; the swapchain still matches the surface.
    Success,
    /// Presented, but the swapchain no longer matches the surface exactly.
    Suboptimal,
    /// Not presented: the swapchain is out of date.
    OutOfDate,
    /// Not presented, for another reason.
    Failed,
}

/// What the renderer does after presenting a frame.
#[derive(Debug, Clone, Copy, PartialEq, Eq, Structural)]
pub struct PresentStep {
    /// Rebuild the swapchain (and clear the window's resized flag).
    pub recreate_swapchain: bool,
    /// Give up on the frame and report the presentation error.
    pub report_error: bool,
    /// The frame slot to use next.
    pub next_frame: usize,
}

/// Decides what follows a presentation: a resized window or a swapchain
/// that no longer fits the surface is rebuilt; any other failure is
/// reported and the frame slot kept; otherwise the renderer moves on to the
/// next of its frames in flight.
pub fn after_present(frame: usize, resized: bool, r: PresentResult) -> (s: PresentStep)
    requires
        frame < MAX_FRAMES_IN_FLIGHT,
    ensures
        s.recreate_swapchain == (resized || r is Suboptimal || r is OutOfDate),
        s.report_error == (!s.recreate_swapchain && r is Failed),
        !s.report_error ==> s.next_frame == (frame + 1) % (MAX_FRAMES_IN_FLIGHT as int),
        s.report_error ==> s.next_frame == frame,
        s.next_frame < MAX_FRAMES_IN_FLIGHT,
{
    let changed = match r {
        PresentResult::Suboptimal | PresentResult::OutOfDate => true,
        _ => false,
    };
    let recreate_swapchain = resized || changed;
    let report_error = !recreate_swapchain && match r {
        PresentResult::Failed => true,
        _ => false,
    };
    let next_frame = if report_error {
        frame
    } else {
        (frame + 1) % MAX_FRAMES_IN_FLIGHT
    };
    PresentStep { recreate_swapchain, report_error, next_frame }
}

/// Window state after a resize event.
#[derive(Debug, Clone, Copy, PartialEq, Eq, Structural)]
pub struct ResizeStep {
    /// The window has no area: rendering pauses.
    pub minimized: bool,
    /// The swapchain must be rebuilt before the next presentation.
    pub resized: bool,
}

/// Decides what a resize to `width` x `height` means: an empty window is
/// minimised (and a pending rebuild stays pending), any other size ends the
/// minimised state and asks for the swapchain to be rebuilt.
pub fn after_resize(width: u32, height: u32, resized: bool) -> (s: ResizeStep)
    ensures
        s.minimized == (width == 0 || height == 0),
        s.resized == (resized || !s.minimized),
{
    if width == 0 || height == 0 {
        ResizeStep { minimized: true, resized }
    } else {
        ResizeStep { minimized: false, resized: true }
    }
}

} // verus!
