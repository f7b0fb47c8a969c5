use maple_render_core::frame::RgbaFrame;
use maple_render_core::quantize::{sync_palette, Palette, Quantizer};

fn frame_of(width: u32, height: u32, pixels: &[[u8; 4]]) -> RgbaFrame {
    let mut data = Vec::new();
    for p in pixels {
        data.extend_from_slice(p);
    }
    RgbaFrame::from_raw(width, height, data).unwrap()
}

#[test]
fn palette_starts_empty_and_opaque() {
    let p = Palette::new();
    assert_eq!(p.colors_total, 0);
    assert_eq!(p.get(0), (0, 0, 0, 255));
    assert_eq!(p.get(255), (0, 0, 0, 255));
}

#[test]
fn palette_set_keeps_other_slots() {
    let mut p = Palette::new();
    p.set(3, 10, 20, 30);
    assert_eq!(p.get(3), (10, 20, 30, 255));
    assert_eq!(p.get(2), (0, 0, 0, 255));
    assert_eq!(p.colors_total, 0);
}

#[test]
fn sync_palette_copies_everything() {
    let mut from = Palette::new();
    from.set(0, 1, 2, 3);
    from.colors_total = 1;
    let mut to = Palette::new();
    sync_palette(&from, &mut to);
    assert_eq!(to.get(0), (1, 2, 3, 255));
    assert_eq!(to.colors_total, 1);
}

#[test]
fn two_colours_get_two_entries() {
    let img = frame_of(2, 1, &[[255, 0, 0, 255], [0, 0, 255, 255]]);
    let q = Quantizer::new(&img);
    let p = q.palette();
    assert_eq!(p.colors_total, 2);
    // Each entry is the centre of the one cell its box holds.
    assert_eq!(p.get(0), (4, 2, 252, 255));
    assert_eq!(p.get(1), (252, 2, 4, 255));
    assert_eq!(p.get(2), (0, 0, 0, 255));
}

#[test]
fn pixels_map_to_their_nearest_entry() {
    let img = frame_of(2, 1, &[[255, 0, 0, 255], [0, 0, 255, 255]]);
    let mut q = Quantizer::new(&img);
    assert_eq!(q.quantize_no_dither(&img), vec![1, 0]);
    let other = frame_of(3, 1, &[[200, 30, 10, 255], [10, 10, 200, 255], [250, 0, 0, 0]]);
    assert_eq!(q.quantize(&other, false), vec![1, 0, 1]);
}

#[test]
fn single_colour_dithers_to_its_entry() {
    let img = frame_of(3, 2, &[[40, 80, 120, 255]; 6]);
    let mut q = Quantizer::new(&img);
    assert_eq!(q.palette().colors_total, 1);
    assert_eq!(q.quantize_fs_dither(&img), vec![0; 6]);
    assert_eq!(q.quantize(&img, true), vec![0; 6]);
}

#[test]
fn dithering_spreads_the_error() {
    // Black and white in the palette; a mid grey dithers to a mix of both.
    let img = frame_of(2, 1, &[[0, 0, 0, 255], [255, 255, 255, 255]]);
    let mut q = Quantizer::new(&img);
    assert_eq!(q.palette().colors_total, 2);
    let grey = frame_of(4, 1, &[[128, 128, 128, 255]; 4]);
    let plain = q.quantize_no_dither(&grey);
    assert!(plain.iter().all(|&i| i == plain[0]));
    let dithered = q.quantize_fs_dither(&grey);
    assert_eq!(dithered.len(), 4);
    assert!(dithered.iter().any(|&i| i != dithered[0]));
}

#[test]
fn sync_palette_from_replaces_the_palette() {
    let img = frame_of(1, 1, &[[9, 9, 9, 255]]);
    let mut q = Quantizer::new(&img);
    let mut p = Palette::new();
    p.set(0, 1, 1, 1);
    p.set(1, 2, 2, 2);
    p.colors_total = 2;
    q.sync_palette_from(&p);
    assert_eq!(q.palette().colors_total, 2);
    assert_eq!(q.palette().get(1), (2, 2, 2, 255));
    q.palette_mut().colors_total = 1;
    assert_eq!(q.palette().colors_total, 1);
}

#[test]
fn median_cut_splits_the_longest_weighted_side_first() {
    // Red, green and blue fall in three corner cells. The whole box is cut
    // across channel 1 (green apart), then the red-blue box across channel 0.
    let img = frame_of(3, 1, &[[255, 0, 0, 255], [0, 255, 0, 255], [0, 0, 255, 255]]);
    let q = Quantizer::new(&img);
    let p = q.palette();
    assert_eq!(p.colors_total, 3);
    assert_eq!(p.get(0), (4, 2, 252, 255));
    assert_eq!(p.get(1), (4, 254, 4, 255));
    assert_eq!(p.get(2), (252, 2, 4, 255));
}

#[test]
fn one_colour_gives_the_centre_of_its_cell() {
    let img = frame_of(2, 2, &[[0, 0, 0, 255], [0, 0, 0, 255], [0, 0, 0, 255], [0, 0, 0, 255]]);
    let q = Quantizer::new(&img);
    assert_eq!(q.palette().colors_total, 1);
    assert_eq!(q.palette().get(0), (4, 2, 4, 255));
}

#[test]
fn cells_of_one_run_are_split_apart() {
    // Three cells along channel 0, the first holding two pixels: the run is
    // cut at its midpoint until every box holds one cell.
    let img = frame_of(4, 1, &[[0, 0, 0, 255], [8, 0, 0, 255], [16, 0, 0, 255], [0, 0, 0, 255]]);
    let q = Quantizer::new(&img);
    let p = q.palette();
    assert_eq!(p.colors_total, 3);
    assert_eq!(p.get(0), (4, 2, 4, 255));
    assert_eq!(p.get(1), (20, 2, 4, 255));
    assert_eq!(p.get(2), (12, 2, 4, 255));
}

#[test]
fn a_replaced_palette_leaves_cached_cells_alone() {
    let img = frame_of(2, 1, &[[255, 0, 0, 255], [0, 0, 255, 255]]);
    let mut q = Quantizer::new(&img);
    assert_eq!(q.quantize_no_dither(&img), vec![1, 0]);
    // Swap the two entries: the cells already cached keep their old indices,
    // a cell looked up for the first time gets its nearest new entry.
    let mut swapped = Palette::new();
    swapped.set(0, 252, 2, 4);
    swapped.set(1, 4, 2, 252);
    swapped.colors_total = 2;
    q.sync_palette_from(&swapped);
    let more = frame_of(3, 1, &[[255, 0, 0, 255], [0, 0, 255, 255], [0, 255, 0, 255]]);
    assert_eq!(q.quantize_no_dither(&more), vec![1, 0, 1]);
}

#[test]
fn default_palette_is_the_empty_palette() {
    let p = Palette::default();
    assert_eq!(p.colors_total, 0);
    assert_eq!(p.get(17), (0, 0, 0, 255));
}

#[test]
fn repeated_dithering_and_a_fresh_quantizer_agree() {
    let reference = frame_of(2, 2, &[[0, 0, 0, 255], [255, 255, 255, 255], [200, 30, 30, 255], [30, 30, 200, 255]]);
    let img = frame_of(3, 2, &[[128, 128, 128, 255], [90, 40, 40, 255], [250, 250, 250, 255], [10, 10, 10, 255], [60, 60, 160, 255], [128, 128, 128, 255]]);
    let mut q = Quantizer::new(&reference);
    let first = q.quantize_fs_dither(&img);
    let _ = q.quantize_no_dither(&reference);
    let second = q.quantize_fs_dither(&img);
    let mut fresh = Quantizer::new(&reference);
    let third = fresh.quantize_fs_dither(&img);
    assert_eq!(first, second);
    assert_eq!(first, third);
}
