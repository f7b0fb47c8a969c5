use maple_render_core::archive::{assemble_mapping, decode_frame, is_png};
use maple_render_core::error::Error;

fn png_of(width: u32, height: u32, pixel: [u8; 4]) -> Vec<u8> {
    let img = image::RgbaImage::from_pixel(width, height, image::Rgba(pixel));
    let mut out = std::io::Cursor::new(Vec::new());
    img.write_to(&mut out, image::ImageFormat::Png).unwrap();
    out.into_inner()
}

fn entry(bytes: Vec<u8>) -> Option<Result<Vec<u8>, Error>> {
    Some(Ok(bytes))
}

#[test]
fn png_signature_is_recognised() {
    assert!(is_png(&png_of(1, 1, [0, 0, 0, 255])));
    assert!(!is_png(b"GIF89a\x01\x00\x01\x00"));
    assert!(!is_png(&[137, 80, 78, 71]));
}

#[test]
fn decoded_frames_hold_the_pixels() {
    let f = decode_frame(&png_of(2, 3, [1, 2, 3, 4])).unwrap();
    assert_eq!((f.width(), f.height()), (2, 3));
    assert_eq!(f.get_pixel(1, 2), [1, 2, 3, 4]);
    assert!(matches!(decode_frame(b"not an image"), Err(Error::Image(_))));
}

#[test]
fn a_frame_is_assembled_from_its_five_images() {
    let m = assemble_mapping(
        4,
        entry(png_of(2, 1, [10, 0, 0, 255])),
        entry(png_of(2, 1, [20, 0, 0, 255])),
        entry(png_of(2, 1, [30, 0, 0, 255])),
        entry(png_of(2, 1, [40, 0, 0, 255])),
        entry(png_of(2, 1, [50, 0, 0, 255])),
    )
    .unwrap();
    assert_eq!(m.light.get_pixel(0, 0)[0], 10);
    assert_eq!(m.dark.get_pixel(0, 0)[0], 20);
    assert_eq!(m.map1.get_pixel(0, 0)[0], 30);
    assert_eq!(m.map2.get_pixel(0, 0)[0], 40);
    assert_eq!(m.neutral.get_pixel(1, 0)[0], 50);
    assert_eq!(m.scale, 1);
    assert_eq!(m.smooth_cache, None);
    assert_eq!(m.light_name, "frame4_light.png");
    assert_eq!(m.dark_name, "frame4_dark.png");
    assert_eq!(m.map1_name, "frame4_map.png");
    assert_eq!(m.map2_name, "frame4_sel.png");
    assert_eq!(m.neutral_name, "frame4_transparent.png");
}

#[test]
fn the_neutral_frame_falls_back_to_light() {
    let light = png_of(1, 1, [7, 8, 9, 255]);
    let missing = assemble_mapping(
        0,
        entry(light.clone()),
        entry(png_of(1, 1, [0, 0, 0, 255])),
        entry(png_of(1, 1, [0, 0, 0, 255])),
        entry(png_of(1, 1, [0, 0, 0, 255])),
        None,
    )
    .unwrap();
    assert_eq!(missing.neutral.get_pixel(0, 0), [7, 8, 9, 255]);
    let broken = assemble_mapping(
        0,
        entry(light),
        entry(png_of(1, 1, [0, 0, 0, 255])),
        entry(png_of(1, 1, [0, 0, 0, 255])),
        entry(png_of(1, 1, [0, 0, 0, 255])),
        entry(b"garbage".to_vec()),
    )
    .unwrap();
    assert_eq!(broken.neutral.get_pixel(0, 0), [7, 8, 9, 255]);
}

#[test]
fn the_first_missing_or_broken_image_is_reported() {
    let ok = || entry(png_of(1, 1, [0, 0, 0, 255]));
    match assemble_mapping(3, None, None, ok(), ok(), ok()) {
        Err(Error::MissingFile(name)) => assert_eq!(name, "frame3_light.png"),
        _ => panic!("expected a missing light image"),
    }
    match assemble_mapping(3, ok(), ok(), ok(), None, ok()) {
        Err(Error::MissingFile(name)) => assert_eq!(name, "frame3_sel.png"),
        _ => panic!("expected a missing sel image"),
    }
    assert!(matches!(
        assemble_mapping(3, ok(), entry(b"xx".to_vec()), None, ok(), ok()),
        Err(Error::Image(_))
    ));
    match assemble_mapping(3, ok(), ok(), Some(Err(Error::Io("read failed".to_string()))), ok(), ok()) {
        Err(Error::Io(m)) => assert_eq!(m, "read failed"),
        _ => panic!("expected the read error"),
    }
}
