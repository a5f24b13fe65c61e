use thumbor::Pixel;
use thumbor::PixelBuffer;
use thumbor::Tint;
use thumbor::adjust_contrast;
use thumbor::mix_with_color;
use thumbor::overlay;

fn solid(w: u32, h: u32, p: [u8; 4]) -> PixelBuffer {
    let mut raw = Vec::new();
    for _ in 0..(w * h) {
        raw.extend_from_slice(&p);
    }
    PixelBuffer::from_raw(w, h, raw).unwrap()
}

fn px(r: u8, g: u8, b: u8, a: u8) -> Pixel {
    Pixel { r, g, b, a }
}

#[test]
fn from_raw_checks_length() {
    assert!(PixelBuffer::from_raw(2, 2, vec![0; 16]).is_some());
    assert!(PixelBuffer::from_raw(2, 2, vec![0; 15]).is_none());
    assert!(PixelBuffer::from_raw(2, 2, vec![0; 17]).is_none());
}

#[test]
fn raw_bytes_round_trip() {
    let raw: Vec<u8> = (0u8..24u8).collect();
    let buf = PixelBuffer::from_raw(3, 2, raw.clone()).unwrap();
    assert_eq!(buf.to_raw(), raw);
    assert_eq!(buf.get_pixel(0, 0), Some(px(0, 1, 2, 3)));
    assert_eq!(buf.get_pixel(2, 1), Some(px(20, 21, 22, 23)));
    assert_eq!(buf.get_pixel(3, 0), None);
    assert_eq!(buf.get_pixel(0, 2), None);
}

#[test]
fn flip_h_mirrors_and_is_an_involution() {
    let raw: Vec<u8> = (0u8..24u8).collect();
    let buf0 = PixelBuffer::from_raw(3, 2, raw.clone()).unwrap();
    let mut buf = PixelBuffer::from_raw(3, 2, raw).unwrap();
    buf.flip_h();
    assert_eq!(buf.get_pixel(0, 0), buf0.get_pixel(2, 0));
    assert_eq!(buf.get_pixel(1, 0), buf0.get_pixel(1, 0));
    assert_eq!(buf.get_pixel(2, 1), buf0.get_pixel(0, 1));
    buf.flip_h();
    assert_eq!(buf.to_raw(), buf0.to_raw());
}

#[test]
fn flip_v_mirrors_and_is_an_involution() {
    let raw: Vec<u8> = (0u8..24u8).collect();
    let buf0 = PixelBuffer::from_raw(3, 2, raw.clone()).unwrap();
    let mut buf = PixelBuffer::from_raw(3, 2, raw).unwrap();
    buf.flip_v();
    assert_eq!(buf.get_pixel(0, 0), buf0.get_pixel(0, 1));
    assert_eq!(buf.get_pixel(2, 1), buf0.get_pixel(2, 0));
    buf.flip_v();
    assert_eq!(buf.to_raw(), buf0.to_raw());
}

#[test]
fn crop_keeps_the_clamped_rectangle() {
    let raw: Vec<u8> = (0u8..64u8).collect();
    let buf0 = PixelBuffer::from_raw(4, 4, raw.clone()).unwrap();
    let mut buf = PixelBuffer::from_raw(4, 4, raw).unwrap();
    buf.crop(1, 2, 3, 4);
    assert_eq!(buf.width(), 2);
    assert_eq!(buf.height(), 2);
    assert_eq!(buf.get_pixel(0, 0), buf0.get_pixel(1, 2));
    assert_eq!(buf.get_pixel(1, 1), buf0.get_pixel(2, 3));
}

#[test]
fn crop_beyond_bounds_equals_crop_clamped() {
    let raw: Vec<u8> = (0u8..64u8).collect();
    let mut far = PixelBuffer::from_raw(4, 4, raw.clone()).unwrap();
    let mut clamped = PixelBuffer::from_raw(4, 4, raw).unwrap();
    far.crop(1, 1, 4000, 4000);
    clamped.crop(1, 1, 4, 4);
    assert_eq!(far.to_raw(), clamped.to_raw());
    assert_eq!(far.width(), clamped.width());
    assert_eq!(far.height(), clamped.height());
}

#[test]
fn degenerate_crop_changes_nothing() {
    let raw: Vec<u8> = (0u8..64u8).collect();
    let mut buf = PixelBuffer::from_raw(4, 4, raw.clone()).unwrap();
    buf.crop(3, 0, 2, 4);
    assert_eq!(buf.to_raw(), raw);
    buf.crop(0, 2, 4, 2);
    assert_eq!(buf.to_raw(), raw);
}

#[test]
fn quarter_turns_compose_to_identity() {
    let raw: Vec<u8> = (0u8..24u8).collect();
    let buf0 = PixelBuffer::from_raw(3, 2, raw.clone()).unwrap();
    let mut buf = PixelBuffer::from_raw(3, 2, raw).unwrap();
    buf.rotate90();
    assert_eq!(buf.width(), 2);
    assert_eq!(buf.height(), 3);
    assert_eq!(buf.get_pixel(0, 0), buf0.get_pixel(0, 1));
    buf.rotate270();
    assert_eq!(buf.width(), 3);
    assert_eq!(buf.height(), 2);
    assert_eq!(buf.to_raw(), buf0.to_raw());
}

#[test]
fn blend_at_zero_opacity_is_identity() {
    let mut buf = solid(2, 2, [10, 200, 30, 77]);
    let before = buf.to_raw();
    mix_with_color(&mut buf, Tint { r: 255, g: 0, b: 255 }, 0);
    assert_eq!(buf.to_raw(), before);
}

#[test]
fn blend_at_full_opacity_equals_the_tint() {
    let mut buf = solid(2, 2, [10, 200, 30, 77]);
    mix_with_color(&mut buf, Tint { r: 255, g: 3, b: 0 }, 100);
    assert_eq!(buf.get_pixel(1, 1), Some(px(255, 3, 0, 77)));
}

#[test]
fn blend_is_clamped_above_full_opacity() {
    let mut a = solid(1, 1, [50, 60, 70, 255]);
    let mut b = solid(1, 1, [50, 60, 70, 255]);
    mix_with_color(&mut a, Tint { r: 0, g: 0, b: 0 }, 100);
    mix_with_color(&mut b, Tint { r: 0, g: 0, b: 0 }, 200);
    assert_eq!(a.to_raw(), b.to_raw());
}

#[test]
fn blend_rounds_the_linear_mix() {
    // (tint * 20 + old * 80 + 50) / 100, channel by channel.
    let mut buf = solid(1, 1, [100, 100, 100, 255]);
    mix_with_color(&mut buf, Tint { r: 0, g: 14, b: 119 }, 20);
    assert_eq!(buf.get_pixel(0, 0), Some(px(80, 83, 104, 255)));
}

#[test]
fn contrast_at_level_zero_is_identity() {
    let mut buf = solid(2, 1, [5, 128, 250, 9]);
    let before = buf.to_raw();
    adjust_contrast(&mut buf, 0);
    assert_eq!(buf.to_raw(), before);
}

#[test]
fn contrast_scales_distance_from_neutral() {
    // At level 50 a channel at distance d from 128 moves to
    // 128 +/- d * 150 / 100, clamped to the channel range.
    let mut buf = solid(1, 1, [200, 100, 255, 31]);
    adjust_contrast(&mut buf, 50);
    assert_eq!(buf.get_pixel(0, 0), Some(px(236, 86, 255, 31)));
}

#[test]
fn negative_contrast_pulls_towards_neutral() {
    let mut buf = solid(1, 1, [200, 100, 128, 31]);
    adjust_contrast(&mut buf, -50);
    assert_eq!(buf.get_pixel(0, 0), Some(px(164, 114, 128, 31)));
}

#[test]
fn opaque_watermark_replaces_covered_pixels() {
    let mut buf = solid(4, 4, [0, 0, 255, 255]);
    let mark = solid(2, 2, [255, 0, 0, 255]);
    overlay(&mut buf, &mark, 1, 1);
    assert_eq!(buf.get_pixel(0, 0), Some(px(0, 0, 255, 255)));
    assert_eq!(buf.get_pixel(1, 1), Some(px(255, 0, 0, 255)));
    assert_eq!(buf.get_pixel(2, 2), Some(px(255, 0, 0, 255)));
    assert_eq!(buf.get_pixel(3, 3), Some(px(0, 0, 255, 255)));
}

#[test]
fn transparent_watermark_changes_nothing() {
    let mut buf = solid(3, 3, [9, 8, 7, 255]);
    let before = buf.to_raw();
    let mark = solid(2, 2, [255, 255, 255, 0]);
    overlay(&mut buf, &mark, 0, 0);
    assert_eq!(buf.to_raw(), before);
}

#[test]
fn watermark_outside_the_buffer_is_clipped() {
    let mut buf = solid(2, 2, [0, 0, 255, 255]);
    let mark = solid(2, 2, [255, 0, 0, 255]);
    overlay(&mut buf, &mark, 1, 1);
    assert_eq!(buf.get_pixel(1, 1), Some(px(255, 0, 0, 255)));
    assert_eq!(buf.get_pixel(0, 1), Some(px(0, 0, 255, 255)));
    assert_eq!(buf.get_pixel(1, 0), Some(px(0, 0, 255, 255)));
}
