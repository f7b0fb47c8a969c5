use maple_render_core::error::Error;
use maple_render_core::frame::RgbaFrame;

#[test]
fn raw_buffers_must_match_the_size() {
    assert!(RgbaFrame::from_raw(2, 2, vec![0; 15]).is_none());
    assert!(RgbaFrame::from_raw(2, 2, vec![0; 17]).is_none());
    let frame = RgbaFrame::from_raw(2, 1, vec![1, 2, 3, 4, 5, 6, 7, 8]).unwrap();
    assert_eq!(frame.width(), 2);
    assert_eq!(frame.height(), 1);
    assert_eq!(frame.get_pixel(1, 0), [5, 6, 7, 8]);
    assert_eq!(frame.into_raw(), vec![1, 2, 3, 4, 5, 6, 7, 8]);
}

#[test]
fn new_frames_are_transparent_black() {
    let frame = RgbaFrame::new(3, 2);
    assert_eq!(frame.as_raw().len(), 24);
    assert!(frame.as_raw().iter().all(|&b| b == 0));
}

#[test]
fn put_pixel_changes_one_pixel() {
    let mut frame = RgbaFrame::from_pixel(2, 2, [1, 1, 1, 1]);
    frame.put_pixel(1, 1, [9, 8, 7, 6]);
    assert_eq!(frame.get_pixel(1, 1), [9, 8, 7, 6]);
    assert_eq!(frame.get_pixel(0, 1), [1, 1, 1, 1]);
    assert_eq!(frame.as_raw()[12..16], [9, 8, 7, 6]);
}

#[test]
fn safe_pixel_is_transparent_outside() {
    let frame = RgbaFrame::from_pixel(2, 2, [10, 20, 30, 40]);
    assert_eq!(frame.safe_pixel(1, 1), [10, 20, 30, 40]);
    assert_eq!(frame.safe_pixel(-1, 0), [0, 0, 0, 0]);
    assert_eq!(frame.safe_pixel(0, 2), [0, 0, 0, 0]);
    assert_eq!(frame.safe_pixel(2, 0), [0, 0, 0, 0]);
}

#[test]
fn opacity_of_frames() {
    let mut frame = RgbaFrame::from_pixel(2, 2, [10, 20, 30, 255]);
    assert!(frame.all_opaque());
    frame.put_pixel(0, 0, [10, 20, 30, 254]);
    assert!(!frame.all_opaque());
    assert!(!RgbaFrame::from_pixel(2, 2, [10, 20, 30, 254]).all_opaque());
}

#[test]
fn rgb_bytes_drop_alpha() {
    let frame = RgbaFrame::from_raw(2, 1, vec![1, 2, 3, 4, 5, 6, 7, 8]).unwrap();
    assert_eq!(frame.rgb_bytes(), vec![1, 2, 3, 5, 6, 7]);
}

#[test]
fn make_opaque_sets_alpha_only() {
    let mut frame = RgbaFrame::from_raw(1, 2, vec![1, 2, 3, 0, 5, 6, 7, 100]).unwrap();
    frame.make_opaque();
    assert_eq!(frame.into_raw(), vec![1, 2, 3, 255, 5, 6, 7, 255]);
}

#[test]
fn clones_are_equal() {
    let frame = RgbaFrame::from_pixel(1, 1, [4, 3, 2, 1]);
    let copy = frame.clone();
    assert_eq!(copy.as_raw(), frame.as_raw());
    assert_eq!(copy.width(), 1);
}

#[test]
fn error_messages_carry_their_prefix() {
    assert_eq!(Error::Io("disk full".to_string()).message(), "IO error: disk full");
    assert_eq!(Error::NoRenders.message(), "No renders attached");
    assert_eq!(Error::GifEncode("bad".to_string()).message(), "GIF encoding error: bad");
    assert_eq!(Error::Other("plain".to_string()).message(), "plain");
    assert_eq!(
        Error::WebpEncode("no frames were provided".to_string()).message(),
        "WebP encoding error: no frames were provided"
    );
}

#[test]
fn plain_messages_become_other_errors() {
    let e: Error = "no template".to_string().into();
    assert_eq!(e.message(), "no template");
    assert!(matches!(Error::from("x".to_string()), Error::Other(m) if m == "x"));
}
