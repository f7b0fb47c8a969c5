use maple_render_core::frame::RgbaFrame;
use maple_render_core::render::{
    composite_pixel, is_active, is_cloud_pixel, letterbox, mapped_points, post_process,
    smooth_edges, Mapping, RenderQuality,
};

#[test]
fn render_quality_defaults_to_sampled() {
    assert_eq!(RenderQuality::default(), RenderQuality::Sampled);
}

#[test]
fn mapping_defaults_to_one_pixel_frames() {
    let mut m = Mapping::new();
    assert_eq!((m.width(), m.height()), (1, 1));
    assert_eq!(m.scale, 1);
    assert!(!m.has_nonzero_smoothing());
}

#[test]
fn smoothing_is_detected_in_channel_two() {
    let mut m = Mapping::new();
    m.map2 = RgbaFrame::from_raw(2, 1, vec![0, 0, 0, 0, 9, 9, 0, 9]).unwrap();
    assert!(!m.has_nonzero_smoothing());
    let mut m = Mapping::new();
    m.map2 = RgbaFrame::from_raw(2, 1, vec![0, 0, 0, 0, 0, 0, 1, 0]).unwrap();
    assert!(m.has_nonzero_smoothing());
}

#[test]
fn smoothing_answer_is_kept_after_the_first_call() {
    let mut m = Mapping::new();
    m.map2 = RgbaFrame::from_raw(1, 1, vec![0, 0, 1, 0]).unwrap();
    assert_eq!(m.smooth_cache, None);
    assert!(m.has_nonzero_smoothing());
    assert_eq!(m.smooth_cache, Some(true));
    m.map2 = RgbaFrame::new(1, 1);
    assert!(m.has_nonzero_smoothing());
    let mut copy = m.clone();
    assert!(copy.has_nonzero_smoothing());
}

#[test]
fn full_sample_shows_light_and_none_shows_dark() {
    let out = [7, 7, 7, 200];
    let light = [200, 100, 50, 255];
    let dark = [20, 10, 5, 255];
    assert_eq!(composite_pixel(out, light, dark, [255, 255, 255, 255]), [200, 100, 50, 200]);
    assert_eq!(composite_pixel(out, light, dark, [0, 0, 0, 255]), [20, 10, 5, 200]);
}

#[test]
fn partial_opacity_blends_and_transparency_keeps() {
    let out = [100, 100, 100, 255];
    let light = [200, 200, 200, 255];
    let dark = [0, 0, 0, 255];
    // lit colour 200, blended halfway-ish (a = 128): 100 + (100 * 128) / 255 = 150
    assert_eq!(composite_pixel(out, light, dark, [255, 255, 255, 128]), [150, 150, 150, 255]);
    assert_eq!(composite_pixel(out, light, dark, [255, 255, 255, 0]), out);
    // the dark frame's alpha caps the opacity
    let dark_clear = [0, 0, 0, 0];
    assert_eq!(composite_pixel(out, light, dark_clear, [255, 255, 255, 255]), out);
}

#[test]
fn darker_than_dark_rounds_toward_zero() {
    let out = [0, 0, 0, 255];
    let light = [0, 0, 0, 255];
    let dark = [100, 100, 100, 255];
    // 100 + (-100 * 128) / 255 = 100 - 50 = 50
    assert_eq!(composite_pixel(out, light, dark, [128, 128, 128, 255]), [50, 50, 50, 255]);
}

#[test]
fn map_points_decode_and_reject_seams() {
    // map pixel: x low byte 10, y low byte 20, blue 0x21 (x nibble 1, y nibble 2), active
    let map1 = RgbaFrame::from_raw(
        2,
        2,
        vec![10, 20, 0x21, 255, 11, 20, 0x21, 255, 10, 21, 0x21, 255, 0, 0, 0, 255],
    )
    .unwrap();
    let map2 = RgbaFrame::from_pixel(2, 2, [1, 0, 0, 255]);
    let p = mapped_points(&map1, &map2, 0, 0, 0, 2, 2, 1).unwrap();
    assert_eq!(p, (10 + 256 - 2048, 20 + 512 - 2048, 11 + 256 - 2048, 20 + 512 - 2048, 10 + 256 - 2048, 21 + 512 - 2048));
    assert!(mapped_points(&map1, &map2, 0, 0, 0, 2, 2, 2).is_none());

    // a neighbour far away in the map is a seam: the pixel's own point is used
    let seam = RgbaFrame::from_raw(
        2,
        2,
        vec![10, 20, 0x21, 255, 11, 20, 0x2F, 255, 10, 21, 0x21, 255, 0, 0, 0, 255],
    )
    .unwrap();
    let q = mapped_points(&seam, &map2, 0, 0, 0, 2, 2, 1).unwrap();
    assert_eq!((q.2, q.3), (q.0, q.1));
    assert_eq!((q.4, q.5), (q.0, q.1));
}

#[test]
fn inactive_map_pixels_sample_nothing() {
    let map1 = RgbaFrame::from_pixel(1, 1, [0, 0, 0, 25]);
    let map2 = RgbaFrame::from_pixel(1, 1, [1, 0, 0, 255]);
    assert!(mapped_points(&map1, &map2, 0, 0, 0, 1, 1, 1).is_none());
}

#[test]
fn marked_edges_take_the_mean_of_unmarked_neighbours() {
    let mut data = Vec::new();
    for v in [10u8, 20, 30, 40, 50, 60, 70, 80, 90] {
        data.extend_from_slice(&[v, v, v, 255]);
    }
    let mut out = RgbaFrame::from_raw(3, 3, data).unwrap();
    let mut sel_data = vec![0u8; 36];
    sel_data[4 * 4 + 2] = 200; // centre marked
    sel_data[5 * 4 + 2] = 200; // right neighbour is an edge too
    let sel = RgbaFrame::from_raw(3, 3, sel_data).unwrap();
    smooth_edges(&mut out, &sel);
    // left 40, up 20, down 80: (40 + 20 + 80) / 3 = 46
    assert_eq!(out.get_pixel(1, 1), [46, 46, 46, 255]);
    assert_eq!(out.get_pixel(2, 1), [60, 60, 60, 255]);
    assert_eq!(out.get_pixel(0, 0), [10, 10, 10, 255]);
}

#[test]
fn post_process_needs_aligned_maps() {
    let mut m = Mapping::new();
    m.neutral = RgbaFrame::from_pixel(3, 3, [0, 0, 0, 255]);
    m.light = RgbaFrame::from_pixel(3, 3, [0, 0, 0, 255]);
    m.map1 = RgbaFrame::from_pixel(3, 3, [0, 0, 0, 255]);
    let mut sel = vec![0u8; 36];
    sel[4 * 4 + 2] = 1;
    m.map2 = RgbaFrame::from_raw(3, 3, sel).unwrap();
    let mut data = vec![0u8; 36];
    data[1 * 4] = 90;
    let mut out = RgbaFrame::from_raw(3, 3, data.clone()).unwrap();
    post_process(&mut out, &m);
    assert_eq!(out.get_pixel(1, 1)[0], 22);

    m.map1 = RgbaFrame::from_pixel(2, 3, [0, 0, 0, 255]);
    let mut out2 = RgbaFrame::from_raw(3, 3, data.clone()).unwrap();
    post_process(&mut out2, &m);
    assert_eq!(out2.as_raw(), &data);
}

#[test]
fn letterbox_centres_and_makes_opaque() {
    let src = RgbaFrame::from_raw(2, 1, vec![1, 2, 3, 0, 4, 5, 6, 7]).unwrap();
    let out = letterbox(&src, 4, 3, 0, 1, &vec![0, 0, 1, 1], &vec![0]);
    assert_eq!((out.width(), out.height()), (4, 3));
    assert_eq!(out.get_pixel(0, 0), [255, 255, 255, 255]);
    assert_eq!(out.get_pixel(1, 1), [1, 2, 3, 255]);
    assert_eq!(out.get_pixel(3, 1), [4, 5, 6, 255]);
    assert_eq!(out.get_pixel(2, 2), [255, 255, 255, 255]);
    // sample columns past the source are clamped to its last column
    let clamped = letterbox(&src, 1, 1, 0, 0, &vec![9], &vec![9]);
    assert_eq!(clamped.get_pixel(0, 0), [4, 5, 6, 255]);
}

#[test]
fn cloud_pixels_need_contrast_and_opacity() {
    let light = [200, 10, 10, 255];
    let dark = [100, 10, 10, 255];
    assert!(is_cloud_pixel(light, dark, [0, 0, 0, 26], [1, 0, 0, 0]));
    assert!(!is_cloud_pixel(light, dark, [0, 0, 0, 25], [1, 0, 0, 0]));
    assert!(!is_cloud_pixel(light, dark, [0, 0, 0, 26], [0, 0, 0, 0]));
    assert!(!is_cloud_pixel([105, 10, 10, 255], dark, [0, 0, 0, 99], [3, 0, 0, 0]));
    assert!(!is_cloud_pixel(light, [100, 10, 10, 100], [0, 0, 0, 99], [3, 0, 0, 0]));
}

#[test]
fn active_pixels_are_opaque_and_not_white() {
    assert!(is_active([0, 0, 0, 26]));
    assert!(!is_active([0, 0, 0, 25]));
    assert!(!is_active([250, 250, 250, 255]));
    assert!(is_active([250, 249, 250, 255]));
}

#[test]
fn mappings_clone_their_images_and_names() {
    let mut m = Mapping::new();
    m.light = RgbaFrame::from_pixel(2, 1, [1, 2, 3, 4]);
    m.scale = 3;
    m.light_name = "frame0_light.png".to_string();
    let copy = m.clone();
    assert_eq!(copy.light.as_raw(), m.light.as_raw());
    assert_eq!(copy.width(), 2);
    assert_eq!(copy.scale, 3);
    assert_eq!(copy.light_name, "frame0_light.png");
}
