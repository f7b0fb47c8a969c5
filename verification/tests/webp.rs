use maple_render_core::error::Error;
use maple_render_core::webp_anim::{
    dirty_rect, frame_bytes, parallel_chunk_len, parallel_chunk_len_for, plan_frames,
    saturating_mul, validate_animation_options, validate_frame_duration, validate_frames,
    FramePlan, FrameRect, WebpAnimationOptions, WebpEncoderState, WebpFrame,
    MAX_WEBP_FRAME_DURATION_MS,
};

fn webp_message(e: Error) -> String {
    match e {
        Error::WebpEncode(m) => m,
        other => panic!("unexpected error {:?}", other),
    }
}

#[test]
fn validates_dimensions() {
    assert!(frame_bytes((0, 1)).is_err());
    assert!(frame_bytes((16_384, 1)).is_err());
}

#[test]
fn frame_bytes_counts_rgba_bytes() {
    assert_eq!(frame_bytes((2, 3)).unwrap(), 24);
    assert_eq!(frame_bytes((16_383, 16_383)).unwrap(), 16_383 * 16_383 * 4);
    assert_eq!(webp_message(frame_bytes((1, 0)).unwrap_err()), "dimensions must be positive");
    assert_eq!(
        webp_message(frame_bytes((1, 16_384)).unwrap_err()),
        "dimensions exceed WebP's 16383px limit"
    );
}

#[test]
fn limits_large_frame_parallelism() {
    let rgba = [0; 4];
    let small = FramePlan { rgba: &rgba, rectangle: FrameRect::full(640, 360), duration_ms: 1 };
    let large =
        FramePlan { rgba: &rgba, rectangle: FrameRect::full(8_192, 8_192), duration_ms: 1 };

    assert_eq!(parallel_chunk_len_for(&[small; 32], 24), 24);
    assert_eq!(parallel_chunk_len_for(&[large; 2], 24), 1);
    let mut full_then_dirty = vec![large];
    full_then_dirty.extend([small; 24]);
    assert_eq!(parallel_chunk_len_for(&full_then_dirty, 24), 1);
    assert_eq!(parallel_chunk_len_for(&full_then_dirty[1..], 24), 24);
}

#[test]
fn chunk_len_is_at_least_one() {
    let rgba = [0; 4];
    let tiny = FramePlan { rgba: &rgba, rectangle: FrameRect::full(0, 0), duration_ms: 1 };
    assert_eq!(parallel_chunk_len_for(&[], 8), 1);
    assert_eq!(parallel_chunk_len_for(&[tiny; 3], 0), 1);
    assert_eq!(parallel_chunk_len_for(&[tiny; 3], 2), 2);
    let n = parallel_chunk_len(&[tiny; 3]);
    assert!(n >= 1 && n <= 3);
}

#[test]
fn saturating_mul_saturates() {
    assert_eq!(saturating_mul(3, 4), 12);
    assert_eq!(saturating_mul(usize::MAX, 2), usize::MAX);
}

#[test]
fn validates_keyframe_intervals() {
    assert!(validate_animation_options(WebpAnimationOptions::default()).is_ok());
    assert!(validate_animation_options(WebpAnimationOptions {
        kmin: 1,
        kmax: 5,
        ..Default::default()
    })
    .is_err());
}

#[test]
fn keyframe_interval_bounds() {
    let ok = |kmin, kmax| {
        validate_animation_options(WebpAnimationOptions { kmin, kmax, ..Default::default() })
            .is_ok()
    };
    assert!(ok(3, 5));
    assert!(!ok(2, 5));
    assert!(!ok(5, 5));
    assert!(ok(0, 1));
    assert!(ok(9, -1));
    assert_eq!(
        webp_message(
            validate_animation_options(WebpAnimationOptions {
                kmin: 1,
                kmax: 5,
                ..Default::default()
            })
            .unwrap_err()
        ),
        "invalid keyframe interval"
    );
}

#[test]
fn frame_durations_are_checked() {
    assert_eq!(validate_frame_duration(100, 250).unwrap(), 150);
    assert_eq!(validate_frame_duration(7, 7).unwrap(), 0);
    assert_eq!(
        webp_message(validate_frame_duration(10, 9).unwrap_err()),
        "frame timestamps must be non-decreasing"
    );
    assert_eq!(
        webp_message(validate_frame_duration(0, (MAX_WEBP_FRAME_DURATION_MS + 1) as i32).unwrap_err()),
        "frame duration exceeds WebP's limit"
    );
    assert!(validate_frame_duration(0, MAX_WEBP_FRAME_DURATION_MS as i32).is_ok());
}

#[test]
fn batch_frames_are_validated_in_order() {
    assert_eq!(webp_message(validate_frames(&[], 0, 4).unwrap_err()), "no frames were provided");

    let short = [0; 3];
    let malformed = [WebpFrame::new(&short, 0)];
    assert_eq!(
        webp_message(validate_frames(&malformed, 1, 4).unwrap_err()),
        "RGBA frame has 3 bytes; expected 4"
    );

    let pixel = [0; 4];
    let duplicate_timestamps = [WebpFrame::new(&pixel, 0), WebpFrame::new(&pixel, 0)];
    assert_eq!(
        webp_message(validate_frames(&duplicate_timestamps, 1, 4).unwrap_err()),
        "frame timestamps must be strictly increasing"
    );

    let early_end = [WebpFrame::new(&pixel, 10)];
    assert_eq!(
        webp_message(validate_frames(&early_end, 5, 4).unwrap_err()),
        "final timestamp must not precede the last frame"
    );

    let too_long = [WebpFrame::new(&pixel, 0)];
    assert_eq!(
        webp_message(validate_frames(&too_long, 20_000_000, 4).unwrap_err()),
        "frame duration exceeds WebP's limit"
    );

    let timeline = [WebpFrame::new(&pixel, 0), WebpFrame::new(&pixel, 40), WebpFrame::new(&pixel, 90)];
    assert_eq!(validate_frames(&timeline, 100, 4).unwrap(), vec![40, 50, 10]);
}

#[test]
fn dirty_rect_bounds_changed_pixels() {
    let before = vec![0u8; 4 * 4 * 2];
    assert!(dirty_rect(&before, &before, 4).is_none());

    let mut after = before.clone();
    // pixel (3, 1), green channel
    after[(1 * 4 + 3) * 4 + 1] = 9;
    let rect = dirty_rect(&before, &after, 4).unwrap();
    assert_eq!((rect.x, rect.y, rect.width, rect.height), (2, 0, 2, 2));

    let mut wide = before.clone();
    wide[(0 * 4 + 1) * 4] = 1;
    wide[(1 * 4 + 2) * 4 + 3] = 1;
    let rect = dirty_rect(&before, &wide, 4).unwrap();
    assert_eq!((rect.x, rect.y, rect.width, rect.height), (0, 0, 3, 2));
}

#[test]
fn dirty_rect_compares_whole_common_rows_only() {
    let before = vec![0u8; 8 + 3];
    let mut after = vec![0u8; 8];
    assert!(dirty_rect(&before, &after, 2).is_none());
    after[4] = 5;
    let rect = dirty_rect(&before, &after, 2).unwrap();
    assert_eq!((rect.x, rect.y, rect.width, rect.height), (0, 0, 2, 1));
}

#[test]
fn batch_plans_merge_unchanged_frames_without_losing_duration() {
    let a = [1u8; 16];
    let b = [1u8; 16];
    let c = [2u8; 16];
    let frames = [WebpFrame::new(&a, 0), WebpFrame::new(&b, 20), WebpFrame::new(&c, 70)];
    let rects = vec![
        Some(FrameRect::full(2, 2)),
        dirty_rect(&a, &b, 2),
        dirty_rect(&b, &c, 2),
    ];
    assert!(rects[1].is_none());
    let durations = validate_frames(&frames, 170, 16).unwrap();
    let plans = plan_frames(&frames, rects, durations, 2, 2);
    assert_eq!(plans.len(), 2);
    assert_eq!(plans[0].duration_ms, 70);
    assert_eq!(plans[1].duration_ms, 100);
    assert_eq!(plans.iter().map(|p| p.duration_ms).sum::<i64>(), 170);
    assert_eq!(plans[1].rgba, &c[..]);
}

#[test]
fn batch_plans_keep_duplicates_when_merged_duration_would_overflow() {
    let pixel = [255u8; 4];
    let frames = [WebpFrame::new(&pixel, 0), WebpFrame::new(&pixel, 10_000_000)];
    let rects = vec![Some(FrameRect::full(1, 1)), None];
    let durations = validate_frames(&frames, 20_000_000, 4).unwrap();
    let plans = plan_frames(&frames, rects, durations, 1, 1);
    assert_eq!(plans.len(), 2);
    assert_eq!(plans[0].duration_ms, 10_000_000);
    assert_eq!(plans[1].duration_ms, 10_000_000);
    assert_eq!(
        (plans[1].rectangle.x, plans[1].rectangle.y, plans[1].rectangle.width, plans[1].rectangle.height),
        (0, 0, 1, 1)
    );
}

#[test]
fn validates_frame_lengths_before_import() {
    let state = WebpEncoderState::new((2, 2)).unwrap();
    assert!(state.check_frame(15, 0).is_err());
    assert!(state.check_frame(16, 0).is_ok());
}

#[test]
fn validates_timestamps_without_entering_ffi() {
    let mut state = WebpEncoderState::new((2, 2)).unwrap();
    assert!(state.check_frame(16, 0).is_ok());
    state.frame_added(0);
    assert!(state.check_frame(16, 0).is_err());
    assert!(state.check_frame(16, 1).is_ok());
}

#[test]
fn encoder_state_refuses_after_failure_and_without_frames() {
    let mut state = WebpEncoderState::new((1, 1)).unwrap();
    assert_eq!(webp_message(state.check_finish(5).unwrap_err()), "no frames were added");
    state.frame_added(3);
    assert_eq!(state.check_finish(5).unwrap(), 3);
    assert!(state.check_finish(2).is_err());
    state.mark_failed();
    assert_eq!(
        webp_message(state.check_frame(4, 9).unwrap_err()),
        "encoder cannot be reused after a native failure"
    );
    assert_eq!(
        webp_message(state.check_finish(9).unwrap_err()),
        "encoder cannot be finalized after a native failure"
    );
    assert!(WebpEncoderState::new((0, 4)).is_err());
}

#[test]
fn validates_batch_inputs_before_ffi() {
    assert!(validate_frames(&[], 0, 4).is_err());

    let short = [0; 3];
    let malformed = [WebpFrame::new(&short, 0)];
    assert!(validate_frames(&malformed, 1, 4).is_err());

    let pixel = [0; 4];
    let duplicate_timestamps = [WebpFrame::new(&pixel, 0), WebpFrame::new(&pixel, 0)];
    assert!(validate_frames(&duplicate_timestamps, 1, 4).is_err());
}

#[test]
fn frame_size_errors_name_both_sizes() {
    let state = WebpEncoderState::new((100, 100)).unwrap();
    assert_eq!(
        webp_message(state.check_frame(39_999, 0).unwrap_err()),
        "RGBA frame has 39999 bytes; expected 40000"
    );
    let pixel = [0; 4];
    let short = [0; 0];
    let frames = [WebpFrame::new(&pixel, 0), WebpFrame::new(&short, 5), WebpFrame::new(&[1; 7], 9)];
    assert_eq!(
        webp_message(validate_frames(&frames, 10, 4).unwrap_err()),
        "RGBA frame has 0 bytes; expected 4"
    );
}
