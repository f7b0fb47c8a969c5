use maple_render_core::error::Error;
use maple_render_core::frame::RgbaFrame;
use maple_render_core::gif_anim::{
    build_palette_table, differs, encode_gif, frame_order, merge_palette_frame, GifBlock,
    GifTimeline, PaletteImage,
};
use maple_render_core::quantize::Palette;

fn gif_message(e: Error) -> String {
    match e {
        Error::GifEncode(m) => m,
        other => panic!("unexpected error {:?}", other),
    }
}

#[test]
fn frame_order_rotates_from_the_first_frame() {
    assert_eq!(frame_order(0, -1, 4), 0);
    assert_eq!(frame_order(3, -1, 4), 3);
    assert_eq!(frame_order(0, 2, 4), 2);
    assert_eq!(frame_order(3, 2, 4), 1);
    assert_eq!(frame_order(1, 9, 4), 2);
}

#[test]
fn differs_compares_the_common_length() {
    assert!(!differs(&vec![1, 2, 3], &vec![1, 2]));
    assert!(differs(&vec![1, 2, 3], &vec![1, 5]));
    assert!(!differs(&vec![], &vec![4]));
}

#[test]
fn timeline_merges_unchanged_frames_and_keeps_total_delay() {
    let mut t = GifTimeline::new(vec![0, 0], 10, 50, 0, 3, 2, 1);
    assert!(!t.needs_render(0));
    assert!(t.needs_render(1));
    t.advance(0, None);
    t.advance(1, Some(vec![0, 0]));
    t.advance(2, Some(vec![1, 0]));
    let blocks = t.finish();
    assert_eq!(blocks.len(), 2);
    assert_eq!(blocks[0].data, vec![0, 0]);
    assert_eq!(blocks[0].delay, 20);
    assert_eq!(blocks[1].data, vec![1, 0]);
    assert_eq!(blocks[1].delay, 60);
    assert_eq!(blocks.iter().map(|b| b.delay as u32).sum::<u32>(), 3 * 10 + 50);
    assert!(blocks.iter().all(|b| b.width == 2 && b.height == 1));
}

#[test]
fn timeline_emits_every_change() {
    let mut t = GifTimeline::new(vec![7], 5, 0, -1, 3, 1, 1);
    t.advance(0, Some(vec![1]));
    t.advance(1, Some(vec![2]));
    t.advance(2, Some(vec![3]));
    let blocks = t.finish();
    let data: Vec<Vec<u8>> = blocks.iter().map(|b| b.data.clone()).collect();
    assert_eq!(data, vec![vec![1], vec![2], vec![3]]);
    let delays: Vec<u16> = blocks.iter().map(|b| b.delay).collect();
    assert_eq!(delays, vec![5, 5, 5]);
}

#[test]
fn timeline_delays_saturate() {
    let mut t = GifTimeline::new(vec![0], 40_000, 40_000, -1, 2, 1, 1);
    t.advance(0, Some(vec![0]));
    t.advance(1, Some(vec![0]));
    let blocks = t.finish();
    assert_eq!(blocks.len(), 1);
    assert_eq!(blocks[0].delay, 65_535);
}

#[test]
fn timeline_without_frames_emits_nothing() {
    let t = GifTimeline::new(vec![1, 2], 10, 10, 0, 0, 2, 1);
    assert!(t.finish().is_empty());
}

#[test]
fn palette_frames_interleave_pixels() {
    let mut base = RgbaFrame::from_pixel(3, 1, [0, 0, 0, 255]);
    let other = RgbaFrame::from_pixel(3, 1, [9, 9, 9, 255]);
    merge_palette_frame(&mut base, &other, 1, 2);
    assert_eq!(base.get_pixel(0, 0), [0, 0, 0, 255]);
    assert_eq!(base.get_pixel(1, 0), [9, 9, 9, 255]);
    assert_eq!(base.get_pixel(2, 0), [0, 0, 0, 255]);
}

#[test]
fn palette_image_gathers_frames() {
    assert!(matches!(PaletteImage::new(0), Err(Error::MissingData(_))));
    let none = PaletteImage::new(2).unwrap();
    assert!(matches!(none.finish(), Err(Error::MissingData(_))));

    let mut p = PaletteImage::new(2).unwrap();
    p.add_frame(0, &RgbaFrame::from_pixel(2, 2, [1, 1, 1, 255]));
    p.add_frame(1, &RgbaFrame::from_pixel(2, 2, [5, 5, 5, 255]));
    let img = p.finish().unwrap();
    assert_eq!(img.get_pixel(0, 0), [1, 1, 1, 255]);
    assert_eq!(img.get_pixel(1, 0), [5, 5, 5, 255]);
    assert_eq!(img.get_pixel(0, 1), [1, 1, 1, 255]);
    assert_eq!(img.get_pixel(1, 1), [5, 5, 5, 255]);
}

fn two_colour_palette() -> Palette {
    let mut p = Palette::new();
    p.set(0, 255, 0, 0);
    p.set(1, 0, 0, 255);
    p.colors_total = 2;
    p
}

#[test]
fn colour_table_is_padded_to_256_entries() {
    let blocks = vec![GifBlock { data: vec![0, 1], delay: 10, width: 2, height: 1 }];
    let (w, h, table) = build_palette_table(&blocks, &Some(two_colour_palette())).unwrap();
    assert_eq!((w, h), (2, 1));
    assert_eq!(table.len(), 768);
    assert_eq!(&table[..6], &[255, 0, 0, 0, 0, 255]);
    assert!(table[6..].iter().all(|&b| b == 0));
}

#[test]
fn colour_table_needs_frames_and_a_palette() {
    assert_eq!(
        gif_message(build_palette_table(&vec![], &Some(two_colour_palette())).unwrap_err()),
        "No frames to save"
    );
    let blocks = vec![GifBlock { data: vec![0], delay: 1, width: 1, height: 1 }];
    assert_eq!(gif_message(build_palette_table(&blocks, &None).unwrap_err()), "No palette available");
}

#[test]
fn encodes_a_looping_gif() {
    let blocks = vec![
        GifBlock { data: vec![0, 1, 1, 0], delay: 10, width: 2, height: 2 },
        GifBlock { data: vec![1, 0, 0, 1], delay: 20, width: 2, height: 2 },
    ];
    let bytes = encode_gif(&blocks, &Some(two_colour_palette())).unwrap();
    assert_eq!(&bytes[..6], b"GIF89a");
    assert_eq!(&bytes[6..10], &[2u8, 0, 2, 0]);
    assert_eq!(*bytes.last().unwrap(), 0x3B);
    assert!(bytes.windows(11).any(|w| w == b"NETSCAPE2.0"));
    assert_eq!(gif_message(encode_gif(&vec![], &None).unwrap_err()), "No frames to save");
}

#[test]
fn encoded_frames_decode_to_their_indices_and_delays() {
    let blocks = vec![
        GifBlock { data: vec![0, 1, 1, 0], delay: 10, width: 2, height: 2 },
        GifBlock { data: vec![1, 1, 1, 1], delay: 35, width: 2, height: 2 },
    ];
    let bytes = encode_gif(&blocks, &Some(two_colour_palette())).unwrap();
    let mut options = gif::DecodeOptions::new();
    options.set_color_output(gif::ColorOutput::Indexed);
    let mut decoder = options.read_info(bytes.as_slice()).unwrap();
    let mut frames = Vec::new();
    while let Some(frame) = decoder.read_next_frame().unwrap() {
        frames.push((frame.delay, frame.buffer.to_vec(), frame.width, frame.height));
    }
    assert_eq!(
        frames,
        vec![(10, vec![0, 1, 1, 0], 2, 2), (35, vec![1, 1, 1, 1], 2, 2)]
    );
    assert_eq!(&decoder.global_palette().unwrap()[..6], &[255, 0, 0, 0, 0, 255]);
}

#[test]
fn encoded_file_has_header_table_loop_block_and_trailer_in_order() {
    let blocks = vec![GifBlock { data: vec![1], delay: 7, width: 1, height: 1 }];
    let bytes = encode_gif(&blocks, &Some(two_colour_palette())).unwrap();
    assert_eq!(&bytes[..10], &[b'G', b'I', b'F', b'8', b'9', b'a', 1, 0, 1, 0]);
    assert_eq!(&bytes[10..13], &[0xF7, 0, 0]);
    assert_eq!(&bytes[13..19], &[255, 0, 0, 0, 0, 255]);
    assert!(bytes[19..781].iter().all(|&b| b == 0));
    let mut loop_block = vec![0x21u8, 0xFF, 0x0B];
    loop_block.extend_from_slice(b"NETSCAPE2.0");
    loop_block.extend_from_slice(&[0x03, 0x01, 0x00, 0x00, 0x00]);
    assert_eq!(&bytes[781..800], loop_block.as_slice());
    assert_eq!(&bytes[800..804], &[0x21, 0xF9, 0x04, 0x04]);
    assert_eq!(&bytes[804..806], &[7, 0]);
    assert_eq!(*bytes.last().unwrap(), 0x3B);
}
