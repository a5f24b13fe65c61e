//! On-demand image transformation library.
//!
//! An ordered list of pixel operations (crop, resize, contrast, color
//! filter, flip, watermark) is applied to an RGBA pixel buffer; the
//! operation list travels as a compact binary serialization wrapped in
//! URL-safe base64, and fetched source bytes are deduplicated by a
//! capacity-bounded least-recently-used cache.

pub mod blend;
pub mod cache;
pub mod codec;
pub mod engine;
pub mod ops;
pub mod pixel;
pub mod seam;

pub use blend::adjust_contrast;
pub use blend::mix_with_color;
pub use blend::overlay;
pub use blend::Tint;
pub use cache::hash_key;
pub use cache::SourceCache;
pub use engine::process_image;
pub use engine::Engine;
pub use engine::ImageEngine;
pub use engine::OutputFormat;
pub use engine::ProcessError;
pub use engine::SpecTransform;
pub use codec::decode_image_spec;
pub use codec::encode_image_spec;
pub use codec::SpecDecodeError;
pub use ops::Contrast;
pub use ops::Crop;
pub use ops::Filter;
pub use ops::FilterPreset;
pub use ops::Fliph;
pub use ops::Flipv;
pub use ops::ImageSpec;
pub use ops::Resize;
pub use ops::ResizeType;
pub use ops::SampleFilter;
pub use ops::Spec;
pub use ops::SpecData;
pub use ops::Watermark;
pub use pixel::Pixel;
pub use pixel::PixelBuffer;
pub use seam::find_vertical_seam;
