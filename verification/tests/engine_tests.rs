use thumbor::Engine;
use thumbor::FilterPreset;
use thumbor::ImageEngine;
use thumbor::ImageSpec;
use thumbor::OutputFormat;
use thumbor::PixelBuffer;
use thumbor::ProcessError;
use thumbor::SampleFilter;
use thumbor::Spec;
use thumbor::find_vertical_seam;
use thumbor::process_image;

fn solid(w: u32, h: u32, p: [u8; 4]) -> PixelBuffer {
    let mut raw = Vec::new();
    for _ in 0..(w * h) {
        raw.extend_from_slice(&p);
    }
    PixelBuffer::from_raw(w, h, raw).unwrap()
}

fn tiny_mark() -> PixelBuffer {
    solid(1, 1, [0, 0, 0, 0])
}

fn avg_blue(buf: &PixelBuffer) -> f64 {
    let mut sum: u64 = 0;
    let mut count: u64 = 0;
    for y in 0..buf.height() {
        for x in 0..buf.width() {
            sum += buf.get_pixel(x, y).unwrap().b as u64;
            count += 1;
        }
    }
    sum as f64 / count as f64
}

#[test]
fn normal_resize_yields_exactly_the_requested_dimensions() {
    for filter in [
        SampleFilter::Undefined,
        SampleFilter::Nearest,
        SampleFilter::Triangle,
        SampleFilter::CatmullRom,
        SampleFilter::Gaussian,
        SampleFilter::Lanczos3,
    ] {
        let mut engine = ImageEngine { buf: solid(8, 6, [1, 2, 3, 255]), mark: tiny_mark() };
        engine.apply(&vec![Spec::new_resize(13, 5, filter)]);
        assert_eq!(engine.buf.width(), 13);
        assert_eq!(engine.buf.height(), 5);
    }
}

#[test]
fn resizing_a_solid_image_keeps_its_color() {
    let mut engine = ImageEngine { buf: solid(8, 8, [40, 50, 60, 255]), mark: tiny_mark() };
    engine.apply(&vec![Spec::new_resize(4, 4, SampleFilter::Triangle)]);
    for y in 0..4 {
        for x in 0..4 {
            let p = engine.buf.get_pixel(x, y).unwrap();
            assert_eq!((p.r, p.g, p.b), (40, 50, 60));
        }
    }
}

#[test]
fn seam_carve_shrinks_both_axes() {
    let mut engine = ImageEngine { buf: solid(5, 4, [9, 9, 9, 255]), mark: tiny_mark() };
    engine.apply(&vec![Spec::new_resize_seam_carve(3, 2)]);
    assert_eq!(engine.buf.width(), 3);
    assert_eq!(engine.buf.height(), 2);
}

#[test]
fn seam_carve_never_grows_an_axis() {
    let mut engine = ImageEngine { buf: solid(3, 3, [9, 9, 9, 255]), mark: tiny_mark() };
    engine.apply(&vec![Spec::new_resize_seam_carve(50, 2)]);
    assert_eq!(engine.buf.width(), 3);
    assert_eq!(engine.buf.height(), 2);
}

#[test]
fn seam_follows_the_least_gradient_column() {
    // Column values 0, 100, 200, 200: only the rightmost column has
    // equal horizontal neighbors, so it alone has zero energy and the
    // seam runs straight down it.
    let values: [u8; 4] = [0, 100, 200, 200];
    let mut raw = Vec::new();
    for _y in 0..4 {
        for x in 0..4usize {
            let v = values[x];
            raw.extend_from_slice(&[v, v, v, 255]);
        }
    }
    let buf = PixelBuffer::from_raw(4, 4, raw).unwrap();
    let seam = find_vertical_seam(&buf);
    assert_eq!(seam.len(), 4);
    for y in 0..4 {
        assert!(seam[y] < 4);
        if y > 0 {
            let d = seam[y] as i64 - seam[y - 1] as i64;
            assert!(-1 <= d && d <= 1);
        }
        assert_eq!(seam[y], 3);
    }
}

#[test]
fn removing_a_seam_closes_the_gap() {
    let raw: Vec<u8> = (0u8..32u8).collect();
    let mut buf = PixelBuffer::from_raw(4, 2, raw).unwrap();
    let seam = vec![1u32, 2u32];
    buf.remove_vertical_seam(&seam);
    assert_eq!(buf.width(), 3);
    assert_eq!(buf.height(), 2);
    // Row 0 lost column 1, row 1 lost column 2.
    assert_eq!(buf.to_raw(), vec![
        0, 1, 2, 3, 8, 9, 10, 11, 12, 13, 14, 15,
        16, 17, 18, 19, 20, 21, 22, 23, 28, 29, 30, 31,
    ]);
}

#[test]
fn operations_apply_strictly_in_list_order() {
    // Crop then flip differs from flip then crop on an asymmetric
    // image, pinning the left-to-right chaining.
    let raw: Vec<u8> = (0u8..16u8).collect();
    let buf = PixelBuffer::from_raw(2, 2, raw.clone()).unwrap();
    let crop = Spec {
        data: Some(thumbor::SpecData::Crop(thumbor::Crop { x1: 0, y1: 0, x2: 1, y2: 2 })),
    };
    let fliph = Spec { data: Some(thumbor::SpecData::Fliph(thumbor::Fliph {})) };

    let mut ab = ImageEngine { buf, mark: tiny_mark() };
    ab.apply(&vec![crop, fliph]);
    let mut ba = ImageEngine { buf: PixelBuffer::from_raw(2, 2, raw).unwrap(), mark: tiny_mark() };
    ba.apply(&vec![fliph, crop]);
    assert_eq!(ab.buf.width(), 1);
    assert_eq!(ba.buf.width(), 1);
    assert_ne!(ab.buf.to_raw(), ba.buf.to_raw());
}

#[test]
fn empty_steps_are_ignored() {
    let raw: Vec<u8> = (0u8..16u8).collect();
    let mut engine = ImageEngine {
        buf: PixelBuffer::from_raw(2, 2, raw.clone()).unwrap(),
        mark: tiny_mark(),
    };
    engine.apply(&vec![Spec { data: None }, Spec { data: None }]);
    assert_eq!(engine.buf.to_raw(), raw);
}

#[test]
fn generated_png_decodes_back_to_the_buffer() {
    let raw: Vec<u8> = (0u8..64u8).collect();
    let engine = ImageEngine {
        buf: PixelBuffer::from_raw(4, 4, raw.clone()).unwrap(),
        mark: tiny_mark(),
    };
    let bytes = engine.generate(OutputFormat::Png).unwrap();
    let img = image::load_from_memory(&bytes).unwrap().to_rgba8();
    assert_eq!(img.dimensions(), (4, 4));
    assert_eq!(img.into_raw(), raw);
}

#[test]
fn generated_jpeg_is_opaque_rgb() {
    let engine = ImageEngine { buf: solid(8, 8, [10, 20, 30, 130]), mark: tiny_mark() };
    let bytes = engine.generate(OutputFormat::Jpeg).unwrap();
    let img = image::load_from_memory(&bytes).unwrap();
    assert_eq!(image::GenericImageView::dimensions(&img), (8, 8));
}

#[test]
fn filter_preset_applies_its_tint() {
    let mut buf = solid(1, 1, [100, 100, 100, 255]);
    FilterPreset::Marine.apply(&mut buf);
    let p = buf.get_pixel(0, 0).unwrap();
    assert_eq!((p.r, p.g, p.b, p.a), (80, 83, 104, 255));
}

#[test]
fn unspecified_preset_uses_the_oceanic_tint() {
    let mut a = solid(2, 2, [100, 100, 100, 255]);
    let mut b = solid(2, 2, [100, 100, 100, 255]);
    FilterPreset::Unspecified.apply(&mut a);
    FilterPreset::Oceanic.apply(&mut b);
    assert_eq!(a.to_raw(), b.to_raw());
}

#[test]
fn png_encoding_fails_only_on_an_empty_canvas() {
    let empty = ImageEngine {
        buf: PixelBuffer::from_raw(0, 0, vec![]).unwrap(),
        mark: tiny_mark(),
    };
    assert_eq!(empty.generate(OutputFormat::Png), Err(ProcessError::ImageEncode));
    let one = ImageEngine { buf: solid(1, 1, [1, 2, 3, 4]), mark: tiny_mark() };
    assert!(one.generate(OutputFormat::Png).is_ok());
}

#[test]
fn jpeg_encoding_fails_outside_its_dimension_range() {
    let wide = ImageEngine { buf: solid(70000, 1, [9, 9, 9, 255]), mark: tiny_mark() };
    assert_eq!(wide.generate(OutputFormat::Jpeg), Err(ProcessError::ImageEncode));
    let one = ImageEngine { buf: solid(1, 1, [1, 2, 3, 255]), mark: tiny_mark() };
    assert!(one.generate(OutputFormat::Jpeg).is_ok());
}

#[test]
fn shrinking_to_an_empty_canvas_is_an_encode_error() {
    // The source decodes, but the operation list leaves nothing the
    // PNG encoder accepts.
    let img = image::RgbaImage::from_pixel(4, 4, image::Rgba([1, 2, 3, 255]));
    let mut png: Vec<u8> = Vec::new();
    let mut cur = std::io::Cursor::new(&mut png);
    image::DynamicImage::ImageRgba8(img).write_to(&mut cur, image::ImageFormat::Png).unwrap();
    let ops = ImageSpec::new(vec![Spec::new_resize(0, 0, SampleFilter::Nearest)]);
    let r = process_image(&png, &ops, tiny_mark(), OutputFormat::Png);
    assert_eq!(r, Err(ProcessError::ImageEncode));
}

#[test]
fn undecodable_source_bytes_are_a_decode_error() {
    let source = vec![1, 2, 3, 4];
    let ops = ImageSpec::new(vec![]);
    let r = process_image(&source, &ops, tiny_mark(), OutputFormat::Png);
    assert_eq!(r, Err(ProcessError::ImageDecode));
}

#[test]
fn example_end_to_end_filter_raises_average_blue() {
    // An 800x600 opaque source with low blue everywhere; after
    // Resize{400,300,Normal,Lanczos3} and Filter{Marine} the output is
    // 400x300 and its average blue is above the unfiltered resize,
    // the tint pulling towards (0, 14, 119).
    let mut raw = Vec::with_capacity(800 * 600 * 4);
    for y in 0..600u32 {
        for x in 0..800u32 {
            raw.extend_from_slice(&[(x % 251) as u8, (y % 241) as u8, 30, 255]);
        }
    }
    let img = image::RgbaImage::from_raw(800, 600, raw).unwrap();
    let mut png: Vec<u8> = Vec::new();
    let mut cur = std::io::Cursor::new(&mut png);
    image::DynamicImage::ImageRgba8(img).write_to(&mut cur, image::ImageFormat::Png).unwrap();

    let with_filter = ImageSpec::new(vec![
        Spec::new_resize(400, 300, SampleFilter::Lanczos3),
        Spec::new_filter(FilterPreset::Marine),
    ]);
    let without_filter = ImageSpec::new(vec![Spec::new_resize(400, 300, SampleFilter::Lanczos3)]);

    let out = process_image(&png, &with_filter, tiny_mark(), OutputFormat::Png).unwrap();
    let plain = process_image(&png, &without_filter, tiny_mark(), OutputFormat::Png).unwrap();

    let out_img = image::load_from_memory(&out).unwrap().to_rgba8();
    let plain_img = image::load_from_memory(&plain).unwrap().to_rgba8();
    assert_eq!(out_img.dimensions(), (400, 300));
    assert_eq!(plain_img.dimensions(), (400, 300));

    let filtered = PixelBuffer::from_raw(400, 300, out_img.into_raw()).unwrap();
    let unfiltered = PixelBuffer::from_raw(400, 300, plain_img.into_raw()).unwrap();
    assert!(avg_blue(&filtered) > avg_blue(&unfiltered));
}
