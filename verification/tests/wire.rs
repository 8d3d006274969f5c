use dashc::bindings::BoundValue;
use dashc::diagnostics::Profile;
use dashc::wire::{
    decode_compile_request, encode_response, image_refs_request_text, CompileRequest, ImageAsset, ImageFormat,
    Status,
};
use dashc::EmitPolicy;

/// One test row's value, tagged the way the TypeScript codec tags it.
enum WireValue {
    Float(f32),
    Color([f32; 4]),
}

/// Encodes a request the way the TypeScript codec does.
fn encode_request(
    profile: u32,
    json: &str,
    images: &[(&str, u32, &[u8])],
    bindings: &[(&str, &str, &str, WireValue)],
    strict: Option<u32>,
) -> Vec<u8> {
    let mut out = Vec::new();
    out.extend_from_slice(&profile.to_le_bytes());
    out.extend_from_slice(&(json.len() as u32).to_le_bytes());
    out.extend_from_slice(json.as_bytes());
    out.extend_from_slice(&(images.len() as u32).to_le_bytes());
    for (image_ref, format, bytes) in images {
        out.extend_from_slice(&(image_ref.len() as u32).to_le_bytes());
        out.extend_from_slice(image_ref.as_bytes());
        out.extend_from_slice(&format.to_le_bytes());
        out.extend_from_slice(&(bytes.len() as u32).to_le_bytes());
        out.extend_from_slice(bytes);
    }
    out.extend_from_slice(&(bindings.len() as u32).to_le_bytes());
    for (node_id, property, signal, value) in bindings {
        for field in [node_id, property, signal] {
            out.extend_from_slice(&(field.len() as u32).to_le_bytes());
            out.extend_from_slice(field.as_bytes());
        }
        match value {
            WireValue::Float(v) => {
                out.extend_from_slice(&0u32.to_le_bytes());
                out.extend_from_slice(&v.to_le_bytes());
            }
            WireValue::Color(components) => {
                out.extend_from_slice(&1u32.to_le_bytes());
                for component in components {
                    out.extend_from_slice(&component.to_le_bytes());
                }
            }
        }
    }
    if let Some(flag) = strict {
        out.extend_from_slice(&flag.to_le_bytes());
    }
    out
}

/// The image the request carries under `image_ref`.
fn image<'a>(request: &'a CompileRequest, image_ref: &str) -> &'a ImageAsset {
    &request
        .images
        .iter()
        .find(|entry| entry.image_ref == image_ref)
        .expect("the request carries the image")
        .asset
}

#[test]
fn a_request_round_trips() {
    let bytes = encode_request(1, "{}", &[("abc", 0, &[1, 2, 3])], &[], None);
    let request = decode_compile_request(&bytes).expect("the request decodes");

    assert_eq!(request.profile, Profile::Full);
    assert_eq!(request.json, "{}");
    assert_eq!(request.images.len(), 1);
    let asset = image(&request, "abc");
    assert_eq!(asset.format, ImageFormat::Png);
    assert_eq!(asset.bytes, vec![1, 2, 3]);
    assert!(request.bindings.is_empty());
}

#[test]
fn a_jpeg_image_format_round_trips() {
    let bytes = encode_request(0, "{}", &[("abc", 1, &[0xff, 0xd8, 0xff])], &[], None);
    let request = decode_compile_request(&bytes).expect("the request decodes");
    assert_eq!(image(&request, "abc").format, ImageFormat::Jpeg);
}

#[test]
fn a_gif_image_format_round_trips() {
    let bytes = encode_request(0, "{}", &[("abc", 2, &[0x47, 0x49, 0x46, 0x38])], &[], None);
    let request = decode_compile_request(&bytes).expect("the request decodes");
    assert_eq!(image(&request, "abc").format, ImageFormat::Gif);
}

#[test]
fn a_request_without_a_policy_flag_decodes_as_strict() {
    let bytes = encode_request(0, "{}", &[], &[], None);
    let request = decode_compile_request(&bytes).expect("decodes");
    assert_eq!(request.policy, EmitPolicy::Strict);
}

#[test]
fn a_trailing_zero_flag_decodes_as_partial() {
    let bytes = encode_request(0, "{}", &[], &[], Some(0));
    let request = decode_compile_request(&bytes).expect("decodes");
    assert_eq!(request.policy, EmitPolicy::Partial);
    let bytes = encode_request(0, "{}", &[], &[], Some(1));
    let request = decode_compile_request(&bytes).expect("decodes");
    assert_eq!(request.policy, EmitPolicy::Strict);
}

#[test]
fn binding_rows_round_trip_both_value_types() {
    let bytes = encode_request(
        0,
        "{}",
        &[],
        &[
            ("1:8", "itemSpacing", "size/gap", WireValue::Float(16.0)),
            (
                "1:9",
                "fills[0].color",
                "color/accent@dark",
                WireValue::Color([0.4, 0.65, 1.0, 1.0]),
            ),
        ],
        None,
    );
    let request = decode_compile_request(&bytes).expect("the request decodes");

    assert_eq!(request.bindings.len(), 2);
    let first = &request.bindings[0];
    assert_eq!(first.node_id, "1:8");
    assert_eq!(first.property, "itemSpacing");
    assert_eq!(first.signal, "size/gap");
    assert_eq!(first.value, BoundValue::Float(16.0f32.to_bits()));
    assert_eq!(
        request.bindings[1].value,
        BoundValue::Color {
            r: 0.4f32.to_bits(),
            g: 0.65f32.to_bits(),
            b: 1.0f32.to_bits(),
            a: 1.0f32.to_bits(),
        }
    );
}

#[test]
fn an_unknown_bound_value_type_is_an_error() {
    let mut bytes = encode_request(0, "{}", &[], &[], None);
    let at = bytes.len() - 4;
    bytes[at..].copy_from_slice(&1u32.to_le_bytes());
    for field in ["1:8", "itemSpacing", "size/gap"] {
        bytes.extend_from_slice(&(field.len() as u32).to_le_bytes());
        bytes.extend_from_slice(field.as_bytes());
    }
    bytes.extend_from_slice(&9u32.to_le_bytes());
    bytes.extend_from_slice(&1.0f32.to_le_bytes());
    assert!(decode_compile_request(&bytes).is_err());
}

#[test]
fn a_truncated_request_is_an_error_not_a_panic() {
    let bytes = encode_request(0, "{}", &[("abc", 0, &[1, 2, 3])], &[], None);
    for cut in 0..bytes.len() {
        assert!(
            decode_compile_request(&bytes[..cut]).is_err(),
            "prefix of {cut} bytes"
        );
    }
}

#[test]
fn trailing_bytes_are_an_error() {
    let mut bytes = encode_request(0, "{}", &[], &[], None);
    bytes.push(0);
    assert!(decode_compile_request(&bytes).is_err());
}

#[test]
fn an_unknown_profile_is_an_error() {
    let bytes = encode_request(7, "{}", &[], &[], None);
    assert!(decode_compile_request(&bytes).is_err());
}

#[test]
fn an_unknown_image_format_is_an_error() {
    let bytes = encode_request(0, "{}", &[("abc", 9, &[1])], &[], None);
    assert!(decode_compile_request(&bytes).is_err());
}

#[test]
fn a_response_is_length_prefixed() {
    let response = encode_response(Status::Succeeded.code(), &[7, 8], "{}");

    let total = u32::from_le_bytes(response[0..4].try_into().unwrap()) as usize;
    assert_eq!(
        total,
        response.len() - 4,
        "the prefix counts everything after itself"
    );
    assert_eq!(u32::from_le_bytes(response[4..8].try_into().unwrap()), 0);
    assert_eq!(u32::from_le_bytes(response[8..12].try_into().unwrap()), 2);
    assert_eq!(&response[12..14], &[7, 8]);
    assert_eq!(u32::from_le_bytes(response[14..18].try_into().unwrap()), 2);
    assert_eq!(&response[18..20], b"{}");
}

#[test]
fn status_codes_are_the_wire_values() {
    assert_eq!(Status::Succeeded.code(), 0);
    assert_eq!(Status::CompileError.code(), 1);
    assert_eq!(Status::MalformedRequest.code(), 2);
}

#[test]
fn a_request_that_is_not_utf8_is_an_error() {
    let mut bytes = encode_request(0, "ab", &[], &[], None);
    bytes[8] = 0xff;
    let error = decode_compile_request(&bytes).expect_err("a json field that is not UTF-8 is refused");
    assert!(error.starts_with("not UTF-8"), "{error}");
}

#[test]
fn a_duplicate_image_ref_is_an_error() {
    let bytes = encode_request(0, "{}", &[("abc", 0, &[1]), ("abc", 1, &[2])], &[], None);
    let error = decode_compile_request(&bytes).expect_err("one imageRef names one image");
    assert_eq!(error, "imageRef abc appears twice");
}

#[test]
fn an_unknown_profile_names_the_profiles() {
    let bytes = encode_request(7, "{}", &[], &[], None);
    assert_eq!(
        decode_compile_request(&bytes).expect_err("refused"),
        "unknown profile 7 (0 = core, 1 = full)"
    );
}

#[test]
fn a_huge_binding_count_with_no_rows_names_the_first_missing_field() {
    let bytes = [0, 0, 0, 0, 0, 0, 0, 0, 0, 0, 0, 0, 0xFF, 0xFF, 0xFF, 0xFF];
    assert_eq!(
        decode_compile_request(&bytes).expect_err("no rows follow"),
        "want 4 bytes at offset 16, have 0"
    );
}

#[test]
fn a_field_cut_short_names_its_length_and_offset() {
    let bytes = encode_request(0, "{\"a\":1}", &[], &[], None);
    assert_eq!(
        decode_compile_request(&bytes[..10]).expect_err("cut inside the json"),
        "want 7 bytes at offset 8, have 2"
    );
}

#[test]
fn bytes_after_the_flag_are_counted() {
    let mut bytes = encode_request(0, "{}", &[], &[], Some(1));
    bytes.extend_from_slice(&[9, 9, 9]);
    assert_eq!(
        decode_compile_request(&bytes).expect_err("three stray bytes"),
        "3 trailing byte(s) after the request"
    );
}

#[test]
fn an_image_refs_request_that_is_not_utf8_is_refused_by_name() {
    assert_eq!(image_refs_request_text(b"{\"a\":1}").unwrap(), "{\"a\":1}");
    let message = image_refs_request_text(&[b'{', 0xff]).unwrap_err();
    assert_eq!(
        message,
        "the file JSON is not UTF-8: invalid utf-8 sequence of 1 bytes from index 1"
    );
}
