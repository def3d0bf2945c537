use yazi_favorites::forms::init_tests;
use yazi_favorites::image::{Encoding, Image, ImageFilter, Orientation};

#[test]
fn filter_follows_the_setting() {
    assert_eq!(ImageFilter::Nearest, Image::filter("nearest"));
    assert_eq!(ImageFilter::Triangle, Image::filter("triangle"));
    assert_eq!(ImageFilter::CatmullRom, Image::filter("catmull-rom"));
    assert_eq!(ImageFilter::Gaussian, Image::filter("gaussian"));
    assert_eq!(ImageFilter::Lanczos3, Image::filter("lanczos3"));
    assert_eq!(ImageFilter::Triangle, Image::filter("bilinear"));
}

#[test]
fn oriented_size_swaps_for_quarter_turns() {
    assert_eq!((20, 10), Image::oriented_size(Orientation::Rotate90, (10, 20)));
    assert_eq!((20, 10), Image::oriented_size(Orientation::Rotate270FlipH, (10, 20)));
    assert_eq!((10, 20), Image::oriented_size(Orientation::Rotate180, (10, 20)));
    assert_eq!((10, 20), Image::oriented_size(Orientation::FlipVertical, (10, 20)));
    assert_eq!((10, 20), Image::oriented_size(Orientation::NoTransforms, (10, 20)));
}

#[test]
fn flip_size_widens_and_swaps() {
    assert_eq!((600, 400), Image::flip_size(Orientation::Rotate90FlipH, (400, 600)));
    assert_eq!((400, 600), Image::flip_size(Orientation::FlipHorizontal, (400, 600)));
}

#[test]
fn init_tests_can_run_twice() {
    init_tests();
    init_tests();
}

#[test]
fn decode_limits_follow_the_settings() {
    let l = Image::decode_limits(0, (0, 0));
    assert_eq!((None, None, None), (l.max_alloc, l.max_image_width, l.max_image_height));
    let l = Image::decode_limits(1024, (800, 0));
    assert_eq!((Some(1024), Some(800), None), (l.max_alloc, l.max_image_width, l.max_image_height));
}

#[test]
fn previews_shrink_only_larger_images() {
    assert!(Image::needs_resize((1200, 100), (1000, 1000)));
    assert!(Image::needs_resize((100, 1001), (1000, 1000)));
    assert!(!Image::needs_resize((1000, 1000), (1000, 1000)));
}

#[test]
fn previews_keep_alpha_in_png() {
    assert_eq!(Encoding::Png, Image::encoding(true));
    assert_eq!(Encoding::Jpeg, Image::encoding(false));
}

#[test]
fn ready_images_need_no_work() {
    assert!(Image::is_ready((10, 20), (10, 20), Orientation::NoTransforms));
    assert!(!Image::is_ready((10, 20), (10, 20), Orientation::Rotate90));
    assert!(!Image::is_ready((10, 20), (20, 10), Orientation::NoTransforms));
}
