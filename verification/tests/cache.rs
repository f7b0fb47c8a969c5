use maple_render_core::archive::{frame_image_name, mapping_index};
use maple_render_core::cache::FrameCache;

#[test]
fn cached_values_come_back() {
    let mut cache = FrameCache::new();
    assert!(!cache.contains(3));
    cache.insert(3, "three");
    assert!(cache.contains(3));
    assert_eq!(cache.get(3), Some(&"three"));
    assert_eq!(cache.get(4), None);
    cache.insert(3, "again");
    assert_eq!(cache.get(3), Some(&"again"));
    assert_eq!(cache.len(), 1);
}

#[test]
fn the_peak_remembers_the_largest_count() {
    let mut cache = FrameCache::new();
    assert_eq!(cache.peak(), 0);
    cache.insert(0, 10);
    cache.insert(1, 11);
    assert_eq!(cache.peak(), 2);
    assert_eq!(cache.remove(0), Some(10));
    assert_eq!(cache.remove(0), None);
    assert_eq!(cache.len(), 1);
    assert_eq!(cache.peak(), 2);
    cache.insert(5, 15);
    assert_eq!(cache.peak(), 2);
    cache.insert(6, 16);
    assert_eq!(cache.peak(), 3);
}

#[test]
fn frame_images_are_named_by_frame_and_kind() {
    assert_eq!(frame_image_name(0, "light"), "frame0_light.png");
    assert_eq!(frame_image_name(12, "transparent"), "frame12_transparent.png");
    assert_eq!(frame_image_name(-3, "sel"), "frame-3_sel.png");
}

#[test]
fn still_templates_use_frame_zero() {
    assert_eq!(mapping_index(1, 7), 0);
    assert_eq!(mapping_index(0, 7), 0);
    assert_eq!(mapping_index(2, 7), 7);
    assert_eq!(mapping_index(30, -1), -1);
}

#[test]
fn held_values_can_be_changed_in_place() {
    let mut cache = FrameCache::new();
    cache.insert(2, 20);
    *cache.get_mut(2).unwrap() += 1;
    assert_eq!(cache.get(2), Some(&21));
    assert!(cache.get_mut(3).is_none());
    assert_eq!(cache.len(), 1);
    assert_eq!(cache.peak(), 1);
}
