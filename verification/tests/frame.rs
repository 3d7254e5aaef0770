use vkrender::render::frame::{AcquireOutcome, FrameRing};

#[test]
fn slots_go_round() {
    let mut ring = FrameRing::new(3);
    assert_eq!(ring.frame_index(), 0);
    assert_eq!(ring.prev_frame(), 2);
    assert_eq!(ring.safe_frame(), None);
    for expected in [1usize, 2, 0, 1] {
        ring.end_frame(false);
        assert_eq!(ring.frame_index(), expected);
    }
    assert_eq!(ring.frame_no(), 4);
    assert_eq!(ring.prev_frame(), 0);
    assert_eq!(ring.safe_frame(), Some(1));
    assert_eq!(ring.num_frames(), 3);
}

#[test]
fn safe_frame_starts_after_one_round() {
    let mut ring = FrameRing::new(2);
    ring.end_frame(false);
    assert_eq!(ring.safe_frame(), None);
    ring.end_frame(false);
    assert_eq!(ring.safe_frame(), Some(0));
}

#[test]
fn out_of_date_stops_drawing_until_rebuilt() {
    let mut ring = FrameRing::new(3);
    assert!(ring.should_draw());
    assert!(!ring.on_acquire(AcquireOutcome::OutOfDate));
    assert!(ring.recreate_swapchain());
    assert!(!ring.should_draw());
    assert!(ring.needs_rebuild([640, 480], [640, 480]));
    ring.swapchain_rebuilt();
    assert!(ring.should_draw());
    assert!(!ring.needs_rebuild([640, 480], [640, 480]));
    assert!(ring.needs_rebuild([800, 600], [640, 480]));
}

#[test]
fn suboptimal_frame_still_draws() {
    let mut ring = FrameRing::new(3);
    assert!(ring.on_acquire(AcquireOutcome::Acquired { suboptimal: false }));
    assert!(!ring.recreate_swapchain());
    assert!(ring.on_acquire(AcquireOutcome::Acquired { suboptimal: true }));
    assert!(ring.recreate_swapchain());
    ring.end_frame(false);
    assert_eq!(ring.frame_no(), 1);
}

#[test]
fn submit_out_of_date_asks_for_rebuild() {
    let mut ring = FrameRing::new(3);
    ring.end_frame(true);
    assert!(ring.recreate_swapchain());
    assert_eq!(ring.frame_index(), 1);
}

#[test]
fn context_keeps_low_bits() {
    let mut ring = FrameRing::new(3);
    ring.end_frame(false);
    let ctx = ring.frame_context(258);
    assert_eq!(ctx.frame_no, 1);
    assert_eq!(ctx.ffid, 1);
    assert_eq!(ctx.numff, 3);
    assert_eq!(ctx.backbuf_id, 2);
}
