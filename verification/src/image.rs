//! The choices of the image previewer that do not touch pixels: the
//! resampling filter, and sizes under an EXIF orientation.

use vstd::prelude::*;

use crate::url::text_eq;

verus! {

/// A resampling filter.
#[derive(PartialEq, Eq, Structural, Debug, Clone, Copy)]
pub enum ImageFilter {
    Nearest,
    Triangle,
    CatmullRom,
    Gaussian,
    Lanczos3,
}

/// An EXIF orientation.
#[derive(PartialEq, Eq, Structural, Debug, Clone, Copy)]
pub enum Orientation {
    NoTransforms,
    Rotate90,
    Rotate180,
    Rotate270,
    FlipHorizontal,
    FlipVertical,
    Rotate90FlipH,
    Rotate270FlipH,
}

/// The filter that the `image_filter` setting names; `triangle` for a
/// name it does not know.
pub open spec fn filter_spec(name: Seq<char>) -> ImageFilter {
    if name == "nearest"@ {
        ImageFilter::Nearest
    } else if name == "catmull-rom"@ {
        ImageFilter::CatmullRom
    } else if name == "gaussian"@ {
        ImageFilter::Gaussian
    } else if name == "lanczos3"@ {
        ImageFilter::Lanczos3
    } else {
        ImageFilter::Triangle
    }
}

/// Whether the orientation turns the image a quarter turn, which swaps
/// its width and height.
pub open spec fn swaps_sides(o: Orientation) -> bool {
    o == Orientation::Rotate90 || o == Orientation::Rotate270 || o == Orientation::Rotate90FlipH
        || o == Orientation::Rotate270FlipH
}

/// The limits that decoding an image is held to; `None` is no limit.
pub struct DecodeLimits {
    pub max_alloc: Option<u64>,
    pub max_image_width: Option<u32>,
    pub max_image_height: Option<u32>,
}

/// How a preview is stored.
#[derive(PartialEq, Eq, Structural, Debug, Clone, Copy)]
pub enum Encoding {
    Png,
    Jpeg,
}

/// The image previewer.
pub struct Image;

impl Image {
    /// The filter that the `image_filter` setting `name` names (see
    /// `filter_spec`).
    pub fn filter(name: &str) -> (res: ImageFilter)
        ensures
            res == filter_spec(name@),
    {
        proof {
            reveal_strlit("nearest");
            reveal_strlit("triangle");
            reveal_strlit("catmull-rom");
            reveal_strlit("gaussian");
            reveal_strlit("lanczos3");
            assert("triangle"@.len() != "nearest"@.len());
            assert("triangle"@.len() != "catmull-rom"@.len());
            assert("gaussian"@[0] != "triangle"@[0]);
            assert("lanczos3"@[0] != "triangle"@[0]);
        }
        if text_eq(name, "nearest") {
            ImageFilter::Nearest
        } else if text_eq(name, "triangle") {
            ImageFilter::Triangle
        } else if text_eq(name, "catmull-rom") {
            ImageFilter::CatmullRom
        } else if text_eq(name, "gaussian") {
            ImageFilter::Gaussian
        } else if text_eq(name, "lanczos3") {
            ImageFilter::Lanczos3
        } else {
            ImageFilter::Triangle
        }
    }

    /// The size `(w, h)` as it shows under `orientation`: swapped by a
    /// quarter turn.
    pub fn oriented_size(orientation: Orientation, size: (u32, u32)) -> (res: (u32, u32))
        ensures
            res == if swaps_sides(orientation) {
                (size.1, size.0)
            } else {
                size
            },
    {
        match orientation {
            Orientation::Rotate90 | Orientation::Rotate270 | Orientation::Rotate90FlipH
            | Orientation::Rotate270FlipH => (size.1, size.0),
            _ => size,
        }
    }

    /// The bound `(w, h)` as the image must meet it before it is turned by
    /// `orientation`.
    pub fn flip_size(orientation: Orientation, size: (u16, u16)) -> (res: (u32, u32))
        ensures
            res == if swaps_sides(orientation) {
                (size.1 as u32, size.0 as u32)
            } else {
                (size.0 as u32, size.1 as u32)
            },
    {
        Image::oriented_size(orientation, (size.0 as u32, size.1 as u32))
    }
}

impl Image {
    /// The decoding limits for the `image_alloc` setting (bytes) and the
    /// `image_bound` setting (width and height); 0 sets no limit.
    pub fn decode_limits(image_alloc: u32, image_bound: (u16, u16)) -> (res: DecodeLimits)
        ensures
            res.max_alloc == if image_alloc > 0 {
                Some(image_alloc as u64)
            } else {
                None
            },
            res.max_image_width == if image_bound.0 > 0 {
                Some(image_bound.0 as u32)
            } else {
                None
            },
            res.max_image_height == if image_bound.1 > 0 {
                Some(image_bound.1 as u32)
            } else {
                None
            },
    {
        DecodeLimits {
            max_alloc: if image_alloc > 0 {
                Some(image_alloc as u64)
            } else {
                None
            },
            max_image_width: if image_bound.0 > 0 {
                Some(image_bound.0 as u32)
            } else {
                None
            },
            max_image_height: if image_bound.1 > 0 {
                Some(image_bound.1 as u32)
            } else {
                None
            },
        }
    }

    /// Whether an image of `size` must be shrunk to fit `bound`: it is
    /// wider or taller.
    pub fn needs_resize(size: (u32, u32), bound: (u32, u32)) -> (res: bool)
        ensures
            res == (size.0 > bound.0 || size.1 > bound.1),
    {
        size.0 > bound.0 || size.1 > bound.1
    }

    /// How a preview is stored: PNG when the image has an alpha channel,
    /// JPEG otherwise.
    pub fn encoding(has_alpha: bool) -> (res: Encoding)
        ensures
            res == if has_alpha {
                Encoding::Png
            } else {
                Encoding::Jpeg
            },
    {
        if has_alpha {
            Encoding::Png
        } else {
            Encoding::Jpeg
        }
    }

    /// Whether a decoded image of `size` can be shown as it is: it already
    /// has the `target` size and needs no turning.
    pub fn is_ready(size: (u32, u32), target: (u32, u32), orientation: Orientation) -> (res: bool)
        ensures
            res == (size == target && orientation == Orientation::NoTransforms),
    {
        size.0 == target.0 && size.1 == target.1 && orientation == Orientation::NoTransforms
    }
}

} // verus!
