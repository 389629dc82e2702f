use vstd::prelude::*;

verus! {

/// What the render loop remembers from one frame to the next.
#[derive(Clone, Copy, Debug, PartialEq, Eq, Structural)]
pub struct FrameState {
    /// the swapchain must be recreated before the next frame
    pub recreate_swapchain: bool,
    /// the window changed size: swapchain, framebuffers and pipelines must be recreated
    pub window_resized: bool,
    /// index of the swapchain image drawn last
    pub previous_frame_i: u32,
}

/// What must be rebuilt before drawing a frame.
#[derive(Clone, Copy, Debug, PartialEq, Eq, Structural)]
pub enum Recreation {
    Nothing,
    /// recreate the swapchain and the framebuffers
    Swapchain,
    /// adapt to the new window size: swapchain, framebuffers and pipelines
    ResizeAndPipelines,
}

/// Outcome of asking for the next swapchain image.
#[derive(Clone, Copy, Debug, PartialEq, Eq, Structural)]
pub enum Acquired {
    /// the swapchain no longer matches the window
    OutOfDate,
    /// the image to draw to, and whether the swapchain is suboptimal
    Image(u32, bool),
}

impl FrameState {
    /// Nothing to recreate; image 0 drawn last.
    pub fn new() -> (r: Self)
        ensures
            r == (FrameState { recreate_swapchain: false, window_resized: false, previous_frame_i: 0 }),
    {
        FrameState { recreate_swapchain: false, window_resized: false, previous_frame_i: 0 }
    }

    /// The window changed size: the next frame adapts to it.
    pub fn handle_window_resize(&mut self)
        ensures
            *final(self) == (FrameState { window_resized: true, ..*old(self) }),
    {
        // impacts the next update
        self.window_resized = true;
    }
}

/// Start of a frame: no frame is drawn into a window with a zero-sized side; otherwise says
/// what must be rebuilt first (a resize takes precedence over a stale swapchain) and clears
/// the corresponding flag.
pub fn begin_frame(s: FrameState, extent_has_zero: bool) -> (r: Option<(FrameState, Recreation)>)
    ensures
        extent_has_zero <==> r is None,
        !extent_has_zero && s.window_resized ==> r == Some(
            (FrameState { window_resized: false, ..s }, Recreation::ResizeAndPipelines),
        ),
        !extent_has_zero && !s.window_resized && s.recreate_swapchain ==> r == Some(
            (FrameState { recreate_swapchain: false, ..s }, Recreation::Swapchain),
        ),
        !extent_has_zero && !s.window_resized && !s.recreate_swapchain ==> r == Some(
            (s, Recreation::Nothing),
        ),
{
    if extent_has_zero {
        return None;
    }
    if s.window_resized {
        Some((FrameState { window_resized: false, ..s }, Recreation::ResizeAndPipelines))
    } else if s.recreate_swapchain {
        Some((FrameState { recreate_swapchain: false, ..s }, Recreation::Swapchain))
    } else {
        Some((s, Recreation::Nothing))
    }
}

/// After asking for the next image: an out-of-date swapchain ends the frame and asks for a
/// new swapchain; a suboptimal one is drawn to and replaced before the next frame.
pub fn after_acquire(s: FrameState, a: Acquired) -> (r: (FrameState, Option<u32>))
    ensures
        a == Acquired::OutOfDate ==> r == (FrameState { recreate_swapchain: true, ..s }, None::<u32>),
        a matches Acquired::Image(i, suboptimal) ==> r == (
            FrameState { recreate_swapchain: s.recreate_swapchain || suboptimal, ..s },
            Some(i),
        ),
{
    match a {
        Acquired::OutOfDate => (FrameState { recreate_swapchain: true, ..s }, None),
        Acquired::Image(i, suboptimal) => {
            (FrameState { recreate_swapchain: s.recreate_swapchain || suboptimal, ..s }, Some(i))
        },
    }
}

/// End of a frame drawn to image `image_i`: it becomes the previous frame; a flush that found
/// the swapchain out of date asks for a new one.
pub fn end_frame(s: FrameState, image_i: u32, flush_out_of_date: bool) -> (r: FrameState)
    ensures
        r == (FrameState {
            previous_frame_i: image_i,
            recreate_swapchain: s.recreate_swapchain || flush_out_of_date,
            ..s
        }),
{
    FrameState {
        previous_frame_i: image_i,
        recreate_swapchain: s.recreate_swapchain || flush_out_of_date,
        ..s
    }
}

} // verus!
