use thumbor::FilterPreset;
use thumbor::ImageSpec;
use thumbor::SampleFilter;
use thumbor::Spec;
use thumbor::SpecDecodeError;
use thumbor::decode_image_spec;
use thumbor::encode_image_spec;

#[test]
fn test_encoded_spec_could_be_decoded() {
    let spec1 = Spec::new_resize(600, 600, SampleFilter::CatmullRom);
    let spec2 = Spec::new_filter(FilterPreset::Marine);
    let image_spec = ImageSpec::new(vec![spec1, spec2]);
    let s: String = image_spec.to_base64();
    assert_eq!(image_spec, ImageSpec::try_from_base64(s.as_str()).unwrap());
}

#[test]
fn encoding_matches_known_transport_string() {
    let spec1 = Spec::new_resize(600, 600, SampleFilter::CatmullRom);
    let spec2 = Spec::new_filter(FilterPreset::Marine);
    let image_spec = ImageSpec::new(vec![spec1, spec2]);
    assert_eq!(image_spec.to_base64(), "CgwKCgjYBBDYBBgAIAMKBDICCAM");
}

#[test]
fn watermark_encoding_known_bytes_and_string() {
    let image_spec = ImageSpec::new(vec![Spec::new_watermark(1, 2)]);
    let bytes = encode_image_spec(&image_spec);
    assert_eq!(bytes, vec![0x0a, 0x06, 0x3a, 0x04, 0x08, 0x01, 0x10, 0x02]);
    assert_eq!(image_spec.to_base64(), "CgY6BAgBEAI");
}

#[test]
fn every_operation_round_trips() {
    let specs = vec![
        Spec::new_resize(800, 2, SampleFilter::Lanczos3),
        Spec::new_resize_seam_carve(10, 20),
        Spec::new_filter(FilterPreset::Islands),
        Spec::new_watermark(4_000_000_000, 0),
        Spec {
            data: Some(thumbor::SpecData::Crop(thumbor::Crop {
                x1: 0,
                y1: 5,
                x2: 1000,
                y2: 2000,
            })),
        },
        Spec {
            data: Some(thumbor::SpecData::Contrast(thumbor::Contrast { contrast: -25 })),
        },
        Spec {
            data: Some(thumbor::SpecData::Fliph(thumbor::Fliph {})),
        },
        Spec {
            data: Some(thumbor::SpecData::Flipv(thumbor::Flipv {})),
        },
        Spec { data: None },
    ];
    let image_spec = ImageSpec::new(specs);
    let s = image_spec.to_base64();
    assert_eq!(image_spec, ImageSpec::try_from_base64(s.as_str()).unwrap());
}

#[test]
fn empty_list_round_trips_to_empty_string() {
    let image_spec = ImageSpec::new(vec![]);
    let s = image_spec.to_base64();
    assert_eq!(s, "");
    assert_eq!(image_spec, ImageSpec::try_from_base64("").unwrap());
}

#[test]
fn invalid_base64_is_rejected() {
    assert_eq!(
        ImageSpec::try_from_base64("!!!"),
        Err(SpecDecodeError::InvalidBase64)
    );
}

#[test]
fn padded_base64_is_rejected() {
    // The transport form is unpadded; a padded string must not decode.
    assert_eq!(
        ImageSpec::try_from_base64("CgY6BAgBEAI="),
        Err(SpecDecodeError::InvalidBase64)
    );
}

#[test]
fn malformed_framing_is_rejected() {
    // Valid base64 of bytes that do not frame an operation list.
    assert_eq!(
        ImageSpec::try_from_base64("_w"),
        Err(SpecDecodeError::InvalidData)
    );
}

#[test]
fn truncated_binary_is_rejected() {
    // A list element that promises more payload than there is.
    let bytes = vec![0x0a, 0x06, 0x3a];
    assert!(decode_image_spec(&bytes).is_err());
}

#[test]
fn unknown_operation_field_is_ignored() {
    // Field number eight is no operation this format knows; the step
    // decodes as an empty one.
    let bytes = vec![0x0a, 0x02, 0x42, 0x00];
    let decoded = decode_image_spec(&bytes).unwrap();
    assert_eq!(decoded.specs.len(), 1);
    assert_eq!(decoded.specs[0], Spec { data: None });
}
