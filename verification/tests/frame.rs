use garbo_engine::frame::{after_present, after_resize, PresentResult, PresentStep, ResizeStep};

#[test]
fn presented_frame_moves_to_next_slot() {
    assert_eq!(
        after_present(0, false, PresentResult::Success),
        PresentStep { recreate_swapchain: false, report_error: false, next_frame: 1 }
    );
    assert_eq!(
        after_present(1, false, PresentResult::Success),
        PresentStep { recreate_swapchain: false, report_error: false, next_frame: 0 }
    );
}

#[test]
fn stale_swapchain_is_rebuilt() {
    assert_eq!(
        after_present(1, false, PresentResult::Suboptimal),
        PresentStep { recreate_swapchain: true, report_error: false, next_frame: 0 }
    );
    assert_eq!(
        after_present(0, false, PresentResult::OutOfDate),
        PresentStep { recreate_swapchain: true, report_error: false, next_frame: 1 }
    );
    assert_eq!(
        after_present(0, true, PresentResult::Success),
        PresentStep { recreate_swapchain: true, report_error: false, next_frame: 1 }
    );
    // A resize takes precedence over a failure.
    assert_eq!(
        after_present(0, true, PresentResult::Failed),
        PresentStep { recreate_swapchain: true, report_error: false, next_frame: 1 }
    );
}

#[test]
fn failed_presentation_is_reported() {
    assert_eq!(
        after_present(1, false, PresentResult::Failed),
        PresentStep { recreate_swapchain: false, report_error: true, next_frame: 1 }
    );
}

#[test]
fn resize_to_nothing_minimises() {
    assert_eq!(after_resize(0, 600, false), ResizeStep { minimized: true, resized: false });
    assert_eq!(after_resize(800, 0, true), ResizeStep { minimized: true, resized: true });
    assert_eq!(after_resize(800, 600, false), ResizeStep { minimized: false, resized: true });
}
