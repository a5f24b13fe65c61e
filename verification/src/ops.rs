//! The operation list: an ordered sequence of typed pixel operations,
//! pure data applied strictly left to right by the transform engine.

use vstd::prelude::*;

verus! {

/// How a resize changes the canvas: uniform resampling or content-aware
/// seam carving.
#[derive(Clone, Copy, PartialEq, Eq, Structural, Debug)]
pub enum ResizeType {
    Normal,
    SeamCarve,
}

/// The resampling kernel used by a normal resize; an undefined value
/// falls back to nearest-neighbor.
#[derive(Clone, Copy, PartialEq, Eq, Structural, Debug)]
pub enum SampleFilter {
    Undefined,
    Nearest,
    Triangle,
    CatmullRom,
    Gaussian,
    Lanczos3,
}

/// The fixed tint presets of the color filter operation.
#[derive(Clone, Copy, PartialEq, Eq, Structural, Debug)]
pub enum FilterPreset {
    Unspecified,
    Oceanic,
    Islands,
    Marine,
}

/// Change the canvas to `width` by `height`.
#[derive(Clone, Copy, PartialEq, Eq, Structural, Debug)]
pub struct Resize {
    pub width: u32,
    pub height: u32,
    pub rtype: ResizeType,
    pub filter: SampleFilter,
}

/// Keep the rectangle [x1, y1) to [x2, y2).
#[derive(Clone, Copy, PartialEq, Eq, Structural, Debug)]
pub struct Crop {
    pub x1: u32,
    pub y1: u32,
    pub x2: u32,
    pub y2: u32,
}

/// Global contrast adjustment; the level is in hundredths of the
/// neutral scale, 0 meaning no change.
#[derive(Clone, Copy, PartialEq, Eq, Structural, Debug)]
pub struct Contrast {
    pub contrast: i32,
}

/// Blend the whole image with the preset's tint color.
#[derive(Clone, Copy, PartialEq, Eq, Structural, Debug)]
pub struct Filter {
    pub filter: FilterPreset,
}

/// Mirror along the vertical axis.
#[derive(Clone, Copy, PartialEq, Eq, Structural, Debug)]
pub struct Fliph {
}

/// Mirror along the horizontal axis.
#[derive(Clone, Copy, PartialEq, Eq, Structural, Debug)]
pub struct Flipv {
}

/// Composite the fixed watermark asset with its top-left at (x, y).
#[derive(Clone, Copy, PartialEq, Eq, Structural, Debug)]
pub struct Watermark {
    pub x: u32,
    pub y: u32,
}

/// The closed union of operations; applying a list matches on each
/// variant exhaustively.
#[derive(Clone, Copy, PartialEq, Eq, Structural, Debug)]
pub enum SpecData {
    Resize(Resize),
    Crop(Crop),
    Flipv(Flipv),
    Fliph(Fliph),
    Contrast(Contrast),
    Filter(Filter),
    Watermark(Watermark),
}

/// One step of an operation list; an empty or unrecognized step carries
/// no data and is ignored when applied.
#[derive(Clone, Copy, PartialEq, Eq, Structural, Debug)]
pub struct Spec {
    pub data: Option<SpecData>,
}

/// The ordered operation list of one request.
#[derive(Clone, PartialEq, Eq, Debug)]
pub struct ImageSpec {
    pub specs: Vec<Spec>,
}

impl ImageSpec {
    pub fn new(specs: Vec<Spec>) -> (r: Self)
        ensures
            r.specs == specs,
    {
        Self { specs }
    }
}

impl Spec {
    pub fn new_resize_seam_carve(width: u32, height: u32) -> (r: Self)
        ensures
            r == (Spec {
                data: Some(SpecData::Resize(Resize {
                    width,
                    height,
                    rtype: ResizeType::SeamCarve,
                    filter: SampleFilter::Undefined,
                })),
            }),
    {
        Self {
            data: Some(SpecData::Resize(Resize {
                width,
                height,
                rtype: ResizeType::SeamCarve,
                filter: SampleFilter::Undefined,
            })),
        }
    }

    pub fn new_resize(width: u32, height: u32, filter: SampleFilter) -> (r: Self)
        ensures
            r == (Spec {
                data: Some(SpecData::Resize(Resize {
                    width,
                    height,
                    rtype: ResizeType::Normal,
                    filter,
                })),
            }),
    {
        Self {
            data: Some(SpecData::Resize(Resize {
                width,
                height,
                rtype: ResizeType::Normal,
                filter,
            })),
        }
    }

    pub fn new_filter(filter: FilterPreset) -> (r: Self)
        ensures
            r == (Spec { data: Some(SpecData::Filter(Filter { filter })) }),
    {
        Self { data: Some(SpecData::Filter(Filter { filter })) }
    }

    pub fn new_watermark(x: u32, y: u32) -> (r: Self)
        ensures
            r == (Spec { data: Some(SpecData::Watermark(Watermark { x, y })) }),
    {
        Self { data: Some(SpecData::Watermark(Watermark { x, y })) }
    }
}

} // verus!
