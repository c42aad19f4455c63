use garbo_engine::app_data::DeletionQueue;
use garbo_engine::gui::{layout_paint_jobs, scissor_rect, JobOffsets, ScissorRect};
use garbo_engine::metrics::FrameTimer;
use garbo_engine::utils::get_memory_type_index;

#[test]
fn memory_type_first_suitable() {
    let flags = [0b001u32, 0b110, 0b111, 0b010];
    // Needs flags 0b010 and the type allowed by the mask.
    assert_eq!(get_memory_type_index(4, &flags, 0b010, 0b1111), Some(1));
    assert_eq!(get_memory_type_index(4, &flags, 0b010, 0b1101), Some(2));
    assert_eq!(get_memory_type_index(4, &flags, 0b011, 0b1111), Some(2));
    assert_eq!(get_memory_type_index(4, &flags, 0b011, 0b1011), None);
    assert_eq!(get_memory_type_index(1, &flags, 0b010, 0b1111), None);
    assert_eq!(get_memory_type_index(0, &flags, 0, 0b1111), None);
}

#[test]
fn scissor_clamps_to_extent() {
    assert_eq!(
        scissor_rect(-5, 10, 50, 2000, 1920, 1080),
        Some(ScissorRect { x: 0, y: 10, width: 50, height: 1070 })
    );
    assert_eq!(scissor_rect(10, 10, 10, 20, 100, 100), None);
    assert_eq!(scissor_rect(10, 10, 5, 20, 100, 100), None);
    assert_eq!(
        scissor_rect(0, 0, 100, 100, 1920, 1080),
        Some(ScissorRect { x: 0, y: 0, width: 100, height: 100 })
    );
}

#[test]
fn scissor_stays_inside_extent_and_clip() {
    // A clip rectangle starting left of the screen is cut at both ends.
    assert_eq!(
        scissor_rect(-10, -10, 100, 100, 100, 100),
        Some(ScissorRect { x: 0, y: 0, width: 100, height: 100 })
    );
    // Entirely off screen.
    assert_eq!(scissor_rect(-50, 0, -1, 10, 100, 100), None);
    assert_eq!(scissor_rect(120, 0, 200, 10, 100, 100), None);
    // Extreme values do not overflow.
    assert_eq!(
        scissor_rect(i32::MIN, i32::MIN, i32::MAX, i32::MAX, u32::MAX, 7),
        Some(ScissorRect { x: 0, y: 0, width: i32::MAX as u32, height: 7 })
    );
}

#[test]
fn paint_jobs_are_laid_end_to_end() {
    let r = layout_paint_jobs(&[4, 3, 10], &[6, 3, 12]);
    assert_eq!(
        r,
        vec![
            JobOffsets { vertex_offset: 0, index_offset: 0, index_count: 6 },
            JobOffsets { vertex_offset: 4, index_offset: 6, index_count: 3 },
            JobOffsets { vertex_offset: 7, index_offset: 9, index_count: 12 },
        ]
    );
    assert!(layout_paint_jobs(&[], &[]).is_empty());
}

#[test]
fn frame_timer_keeps_last_hundred() {
    let mut t: FrameTimer<u32> = FrameTimer::new();
    assert!(t.frame_times().is_empty());
    for i in 0..150u32 {
        t.update(i);
    }
    assert_eq!(t.frame_times().len(), 100);
    assert_eq!(t.frame_times().front(), Some(&50));
    assert_eq!(t.frame_times().back(), Some(&149));
}

#[test]
fn deletion_queue_drains_in_order() {
    let mut q = DeletionQueue::default();
    q.push(1, 10);
    q.push(2, 20);
    let (b, m) = q.drain();
    assert_eq!(b, vec![1, 2]);
    assert_eq!(m, vec![10, 20]);
    assert!(q.buffers.is_empty());
    assert!(q.buffer_memories.is_empty());
}
