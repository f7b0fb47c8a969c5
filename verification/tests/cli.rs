use maple_render_core::cli::{format_frame_path, parse_hex_color};

fn colour(text: &str) -> Option<[u8; 4]> {
    parse_hex_color(&Some(text.to_string()))
}

#[test]
fn hex_colours_parse_with_or_without_hash() {
    assert_eq!(colour("#FF8000"), Some([255, 128, 0, 255]));
    assert_eq!(colour("ff8000"), Some([255, 128, 0, 255]));
    assert_eq!(colour("##0a0B0c"), Some([10, 11, 12, 255]));
}

#[test]
fn hex_pairs_accept_a_leading_plus() {
    assert_eq!(colour("+F+F+F"), Some([15, 15, 15, 255]));
}

#[test]
fn malformed_hex_colours_are_rejected() {
    assert_eq!(colour("#FF80"), None);
    assert_eq!(colour("#FF800000"), None);
    assert_eq!(colour("GG0000"), None);
    assert_eq!(colour("-10000"), None);
    assert_eq!(parse_hex_color(&None), None);
}

#[test]
fn zero_padded_frame_numbers() {
    assert_eq!(format_frame_path("frame_%06d.jpg", 7), "frame_000007.jpg");
    assert_eq!(format_frame_path("%05d", -42), "-0042");
    assert_eq!(format_frame_path("%00d.png", 3), "3.png");
    assert_eq!(format_frame_path("%02d", 1234), "1234");
}

#[test]
fn plain_frame_numbers() {
    assert_eq!(format_frame_path("img_%d.png", 12), "img_12.png");
    assert_eq!(format_frame_path("%d-%d", 3), "3-3");
    assert_eq!(format_frame_path("%5d", 8), "8");
}

#[test]
fn patterns_without_a_conversion_are_kept() {
    assert_eq!(format_frame_path("still.png", 9), "still.png");
    assert_eq!(format_frame_path("100%.png", 9), "100%.png");
}

#[test]
fn plus_prefixed_inputs_share_the_previous_layer() {
    let args: Vec<String> =
        ["a.png", "b.png", "+c.png", "text:hi"].iter().map(|s| s.to_string()).collect();
    let layers = maple_render_core::cli::assign_layers(&args);
    assert_eq!(
        layers,
        vec![
            ("a.png".to_string(), 1),
            ("b.png".to_string(), 2),
            ("c.png".to_string(), 2),
            ("text:hi".to_string(), 3),
        ]
    );
}

#[test]
fn a_leading_plus_keeps_the_first_layer_and_its_name() {
    let args: Vec<String> = ["+a.png", "+b.png", "+"].iter().map(|s| s.to_string()).collect();
    let layers = maple_render_core::cli::assign_layers(&args);
    assert_eq!(
        layers,
        vec![("+a.png".to_string(), 1), ("b.png".to_string(), 1), ("".to_string(), 1)]
    );
}
