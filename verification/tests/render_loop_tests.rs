use vulkano_template::render::render_loop::{after_acquire, begin_frame, end_frame, Acquired, FrameState, Recreation};

#[test]
fn zero_sized_window_skips_frame() {
    let s = FrameState { recreate_swapchain: true, window_resized: true, previous_frame_i: 2 };
    assert_eq!(begin_frame(s, true), None);
}

#[test]
fn resize_takes_precedence() {
    let mut s = FrameState::new();
    s.handle_window_resize();
    s.recreate_swapchain = true;
    let (t, rec) = begin_frame(s, false).unwrap();
    assert_eq!(rec, Recreation::ResizeAndPipelines);
    assert!(!t.window_resized);
    // the stale swapchain flag is handled on the next frame
    assert!(t.recreate_swapchain);
    let (u, rec) = begin_frame(t, false).unwrap();
    assert_eq!(rec, Recreation::Swapchain);
    assert!(!u.recreate_swapchain);
    let (v, rec) = begin_frame(u, false).unwrap();
    assert_eq!(rec, Recreation::Nothing);
    assert_eq!(v, u);
}

#[test]
fn acquire_outcomes() {
    let s = FrameState::new();
    let (t, img) = after_acquire(s, Acquired::OutOfDate);
    assert!(t.recreate_swapchain);
    assert_eq!(img, None);
    let (t, img) = after_acquire(s, Acquired::Image(3, true));
    assert!(t.recreate_swapchain);
    assert_eq!(img, Some(3));
    let (t, img) = after_acquire(s, Acquired::Image(1, false));
    assert!(!t.recreate_swapchain);
    assert_eq!(img, Some(1));
}

#[test]
fn end_frame_records_image() {
    let s = FrameState::new();
    let t = end_frame(s, 2, false);
    assert_eq!(t.previous_frame_i, 2);
    assert!(!t.recreate_swapchain);
    let u = end_frame(t, 0, true);
    assert_eq!(u.previous_frame_i, 0);
    assert!(u.recreate_swapchain);
}
