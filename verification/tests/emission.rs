use dashc::diagnostics::{Location, Severity};
use dashc::document::{Asset, AssetKind, Binding, BindingChannel, BindingTransform, Document};
use dashc::emission::{refusals, CUSTOM_TRANSFORM, IMAGE_NO_BYTES};
use dashc::wire::ImageFormat;

fn binding(transform: BindingTransform) -> Binding {
    Binding { signal: 0, node: 0, channel: BindingChannel::X, transform }
}

fn asset(bytes: &[u8]) -> Asset {
    Asset {
        format: ImageFormat::Png,
        kind: AssetKind::Image,
        bytes: bytes.to_vec(),
        width: 1,
        height: 1,
    }
}

#[test]
fn a_custom_binding_is_refused_by_name_and_position() {
    let mut doc = Document::new();
    doc.bindings.push(binding(BindingTransform::Identity));
    doc.bindings.push(binding(BindingTransform::Custom(7)));
    let found = refusals(&doc).expect("a Custom binding withholds the bytes");
    assert_eq!(found.len(), 1);
    assert_eq!(found[0].rule, CUSTOM_TRANSFORM);
    assert_eq!(found[0].rule, "binding.custom-transform");
    assert_eq!(found[0].severity, Severity::Error);
    assert!(matches!(found[0].at, Location::Binding(1)));
    assert_eq!(
        found[0].message,
        "binding 1 carries a Custom transform (closure 7), which does not serialize; keep Custom \
         bindings producer-side or use the declarative vocabulary (Identity, Scale, MapRange, Clamp)"
    );
}

#[test]
fn every_custom_binding_is_named_in_order() {
    let mut doc = Document::new();
    doc.bindings.push(binding(BindingTransform::Custom(3)));
    doc.bindings.push(binding(BindingTransform::Scale(2.0f32.to_bits())));
    doc.bindings.push(binding(BindingTransform::Custom(12)));
    let found = refusals(&doc).expect("refused");
    assert_eq!(found.len(), 2);
    assert!(matches!(found[0].at, Location::Binding(0)));
    assert!(matches!(found[1].at, Location::Binding(2)));
    assert!(found[1].message.contains("closure 12"));
}

#[test]
fn an_empty_asset_is_refused_by_name_and_position() {
    let mut doc = Document::new();
    doc.assets.push(asset(&[1, 2, 3]));
    doc.assets.push(asset(&[]));
    let found = refusals(&doc).expect("an empty payload withholds the bytes");
    assert_eq!(found.len(), 1);
    assert_eq!(found[0].rule, IMAGE_NO_BYTES);
    assert_eq!(found[0].rule, "asset.image-no-bytes");
    assert_eq!(found[0].severity, Severity::Error);
    assert!(matches!(found[0].at, Location::ImageAsset(1)));
    assert!(found[0].message.starts_with("asset carries no bytes"));
}

#[test]
fn custom_bindings_are_reported_before_empty_assets() {
    let mut doc = Document::new();
    doc.assets.push(asset(&[]));
    doc.bindings.push(binding(BindingTransform::Custom(1)));
    let found = refusals(&doc).expect("refused");
    assert_eq!(found.len(), 1);
    assert_eq!(found[0].rule, CUSTOM_TRANSFORM);
}

#[test]
fn a_clean_document_has_no_refusals() {
    let mut doc = Document::new();
    doc.assets.push(asset(&[9]));
    doc.bindings.push(binding(BindingTransform::Clamp { lo: 0, hi: 1.0f32.to_bits() }));
    assert!(refusals(&doc).is_none());
}
