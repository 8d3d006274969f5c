use dashc::diagnostics::{Location, Severity};
use dashc::document::{AssetKind, Color, Document, Node};
use dashc::figma::{CompileError, FigmaPaint, GradientStop, Point};
use dashc::paints::{
    admit_image, paint_kind, withdraw_assets, FillSpec, GradientKind, IdentifiedImage, ImageHeader, ScaleMode, IMAGE_FORMAT_MISMATCH,
    IMAGE_HEADER_MALFORMED, IMAGE_UNKNOWN_SIGNATURE, IMAGE_ZERO_DIMENSION, ONE_BITS,
};
use dashc::wire::{ImageAsset, ImageEntry, ImageFormat};

fn paint(kind: &str) -> FigmaPaint {
    FigmaPaint {
        kind: kind.to_string(),
        blend_mode: None,
        visible: None,
        opacity: None,
        image_ref: None,
        color: None,
        gradient_handle_positions: vec![],
        gradient_stops: vec![],
        scale_mode: None,
        image_transform: None,
        scaling_factor: None,
    }
}

fn red() -> Color {
    Color { r: 1f32.to_bits(), g: 0, b: 0, a: 1f32.to_bits() }
}

fn image_paint(image_ref: &str, scale_mode: Option<&str>) -> FigmaPaint {
    let mut p = paint("IMAGE");
    p.image_ref = Some(image_ref.to_string());
    p.scale_mode = scale_mode.map(str::to_string);
    p
}

fn image(image_ref: &str, format: ImageFormat, bytes: &[u8], header: ImageHeader) -> IdentifiedImage {
    IdentifiedImage {
        entry: ImageEntry { image_ref: image_ref.to_string(), asset: ImageAsset { format, bytes: bytes.to_vec() } },
        header,
    }
}

fn png(width: u32, height: u32) -> ImageHeader {
    ImageHeader::Read { format: ImageFormat::Png, width, height }
}

fn refusal(r: Result<FillSpec, CompileError>) -> (String, String) {
    match r {
        Err(CompileError::Unsupported { path, what }) => (path, what),
        other => panic!("expected a refusal, got {other:?}"),
    }
}

fn finding(r: Result<FillSpec, CompileError>) -> dashc::diagnostics::Diagnostic {
    match r {
        Err(CompileError::Diagnostics(mut ds)) => {
            assert_eq!(ds.len(), 1);
            ds.remove(0)
        }
        other => panic!("expected a finding, got {other:?}"),
    }
}

#[test]
fn a_solid_lowers_its_colour_and_opacity() {
    let mut p = paint("SOLID");
    p.color = Some(red());
    p.opacity = Some(0.5f32.to_bits());
    let mut doc = Document::new();
    let mut cache = Vec::new();
    match paint_kind(&p, "/a", &vec![], &mut cache, &mut doc) {
        Ok(FillSpec::Solid { color, opacity }) => {
            assert_eq!(color, red());
            assert_eq!(opacity, Some(0.5f32.to_bits()));
        }
        other => panic!("{other:?}"),
    }
}

#[test]
fn a_solid_without_a_colour_is_refused() {
    let mut doc = Document::new();
    let (path, what) = refusal(paint_kind(&paint("SOLID"), "/a/b", &vec![], &mut Vec::new(), &mut doc));
    assert_eq!(path, "/a/b");
    assert_eq!(what, "a SOLID with no color");
}

#[test]
fn a_gradient_lowers_by_its_three_handles() {
    let mut p = paint("GRADIENT_RADIAL");
    p.gradient_handle_positions = vec![
        Point { x: 0, y: 1 },
        Point { x: 2, y: 3 },
        Point { x: 4, y: 5 },
    ];
    p.gradient_stops = vec![GradientStop { position: 0, color: red() }];
    let mut doc = Document::new();
    match paint_kind(&p, "/g", &vec![], &mut Vec::new(), &mut doc) {
        Ok(FillSpec::Gradient { kind, origin, primary, secondary, stops, opacity }) => {
            assert_eq!(kind, GradientKind::Radial);
            assert_eq!(origin, Point { x: 0, y: 1 });
            assert_eq!(primary, Point { x: 2, y: 3 });
            assert_eq!(secondary, Point { x: 4, y: 5 });
            assert_eq!(stops, vec![GradientStop { position: 0, color: red() }]);
            assert_eq!(opacity, None);
        }
        other => panic!("{other:?}"),
    }
    for (name, kind) in [
        ("GRADIENT_LINEAR", GradientKind::Linear),
        ("GRADIENT_ANGULAR", GradientKind::Angular),
        ("GRADIENT_DIAMOND", GradientKind::Diamond),
    ] {
        p.kind = name.to_string();
        match paint_kind(&p, "/g", &vec![], &mut Vec::new(), &mut doc) {
            Ok(FillSpec::Gradient { kind: k, .. }) => assert_eq!(k, kind),
            other => panic!("{other:?}"),
        }
    }
}

#[test]
fn a_gradient_without_three_handles_is_refused() {
    let mut p = paint("GRADIENT_LINEAR");
    p.gradient_handle_positions = vec![Point { x: 0, y: 0 }, Point { x: 1, y: 1 }];
    let mut doc = Document::new();
    let (_, what) = refusal(paint_kind(&p, "/g", &vec![], &mut Vec::new(), &mut doc));
    assert_eq!(what, "a gradient without three handles");
}

#[test]
fn an_unknown_paint_kind_is_refused_by_name() {
    let mut doc = Document::new();
    let (_, what) = refusal(paint_kind(&paint("VIDEO"), "/v", &vec![], &mut Vec::new(), &mut doc));
    assert_eq!(what, "a VIDEO paint");
}

#[test]
fn an_image_fill_without_a_ref_is_refused() {
    let mut p = paint("IMAGE");
    p.scale_mode = Some("FILL".to_string());
    let mut doc = Document::new();
    let (_, what) = refusal(paint_kind(&p, "/i", &vec![], &mut Vec::new(), &mut doc));
    assert_eq!(what, "an IMAGE fill with no imageRef");
}

#[test]
fn an_unsupplied_ref_is_unresolved() {
    let mut doc = Document::new();
    match paint_kind(&image_paint("abc", Some("FILL")), "/i", &vec![], &mut Vec::new(), &mut doc) {
        Err(CompileError::UnresolvedImage { path, image_ref }) => {
            assert_eq!(path, "/i");
            assert_eq!(image_ref, "abc");
        }
        other => panic!("{other:?}"),
    }
    assert!(doc.assets.is_empty());
}

#[test]
fn an_identified_image_enters_the_document_once() {
    let images = vec![image("abc", ImageFormat::Png, &[1, 2, 3], png(4, 5))];
    let mut doc = Document::new();
    let mut cache = Vec::new();
    match paint_kind(&image_paint("abc", Some("FILL")), "/i", &images, &mut cache, &mut doc) {
        Ok(FillSpec::Image { image, scale_mode, transform, tile_scale }) => {
            assert_eq!(image, 0);
            assert_eq!(scale_mode, ScaleMode::Fill);
            assert_eq!(transform, [ONE_BITS, 0, 0, ONE_BITS, 0, 0]);
            assert_eq!(tile_scale, ONE_BITS);
        }
        other => panic!("{other:?}"),
    }
    assert_eq!(doc.assets.len(), 1);
    assert_eq!(doc.assets[0].kind, AssetKind::Image);
    assert_eq!((doc.assets[0].width, doc.assets[0].height), (4, 5));
    assert_eq!(doc.assets[0].bytes, vec![1, 2, 3]);
    assert_eq!(cache, vec![("abc".to_string(), 0)]);

    // A second reference reuses the entry without reading the images again.
    match paint_kind(&image_paint("abc", Some("TILE")), "/j", &vec![], &mut cache, &mut doc) {
        Ok(FillSpec::Image { image, scale_mode, .. }) => {
            assert_eq!(image, 0);
            assert_eq!(scale_mode, ScaleMode::Tile);
        }
        other => panic!("{other:?}"),
    }
    assert_eq!(doc.assets.len(), 1);
    assert_eq!(cache.len(), 1);
}

#[test]
fn two_refs_to_the_same_bytes_share_an_entry() {
    let images = vec![
        image("a", ImageFormat::Png, &[7, 7], png(1, 1)),
        image("b", ImageFormat::Png, &[7, 7], png(1, 1)),
    ];
    let mut doc = Document::new();
    let mut cache = Vec::new();
    assert_eq!(admit_image("a", "/x", &images, &mut cache, &mut doc).unwrap(), 0);
    assert_eq!(admit_image("b", "/y", &images, &mut cache, &mut doc).unwrap(), 0);
    assert_eq!(doc.assets.len(), 1);
    assert_eq!(cache, vec![("a".to_string(), 0), ("b".to_string(), 0)]);
}

#[test]
fn an_image_fill_carries_its_crop_and_tile_scale() {
    let images = vec![image("abc", ImageFormat::Gif, &[1], ImageHeader::Read { format: ImageFormat::Gif, width: 2, height: 2 })];
    let mut p = image_paint("abc", Some("CROP"));
    // Row-major a, b, tx, c, d, ty.
    p.image_transform = Some([10, 11, 12, 13, 14, 15]);
    p.scaling_factor = Some(2f32.to_bits());
    let mut doc = Document::new();
    match paint_kind(&p, "/i", &images, &mut Vec::new(), &mut doc) {
        Ok(FillSpec::Image { scale_mode, transform, tile_scale, .. }) => {
            assert_eq!(scale_mode, ScaleMode::Crop);
            assert_eq!(transform, [10, 11, 13, 14, 12, 15]);
            assert_eq!(tile_scale, 2f32.to_bits());
        }
        other => panic!("{other:?}"),
    }
    p.scale_mode = Some("FIT".to_string());
    match paint_kind(&p, "/i", &images, &mut Vec::new(), &mut doc) {
        Ok(FillSpec::Image { scale_mode, .. }) => assert_eq!(scale_mode, ScaleMode::Fit),
        other => panic!("{other:?}"),
    }
}

#[test]
fn unreadable_bytes_are_a_finding_at_the_next_node() {
    let images = vec![
        image("u", ImageFormat::Png, &[0], ImageHeader::UnknownSignature("no known signature".to_string())),
        image("m", ImageFormat::Png, &[1], ImageHeader::Malformed("truncated header".to_string())),
    ];
    let mut doc = Document::new();
    doc.push(Node::default());
    let d = finding(paint_kind(&image_paint("u", Some("FILL")), "/p", &images, &mut Vec::new(), &mut doc));
    assert_eq!(d.rule, IMAGE_UNKNOWN_SIGNATURE);
    assert_eq!(d.rule, "figma.image-unknown-signature");
    assert_eq!(d.severity, Severity::Error);
    assert_eq!(d.message, "imageRef u: no known signature");
    match d.at {
        Location::Node(p) => {
            assert_eq!(p.index, 1);
            assert_eq!(p.path, "/p");
        }
        other => panic!("{other:?}"),
    }
    let d = finding(paint_kind(&image_paint("m", Some("FILL")), "/p", &images, &mut Vec::new(), &mut doc));
    assert_eq!(d.rule, IMAGE_HEADER_MALFORMED);
    assert_eq!(d.message, "imageRef m: truncated header");
    assert!(doc.assets.is_empty());
}

#[test]
fn a_header_contradicting_the_tag_is_a_finding() {
    let images = vec![image("abc", ImageFormat::Png, &[1], ImageHeader::Read { format: ImageFormat::Jpeg, width: 3, height: 3 })];
    let mut doc = Document::new();
    let d = finding(paint_kind(&image_paint("abc", Some("FILL")), "/p", &images, &mut Vec::new(), &mut doc));
    assert_eq!(d.rule, IMAGE_FORMAT_MISMATCH);
    assert_eq!(
        d.message,
        "imageRef abc: the bytes' own signature is Jpeg, which contradicts the producer's tag Png"
    );
    assert!(doc.assets.is_empty());
}

#[test]
fn a_zero_extent_is_a_finding() {
    let images = vec![image("abc", ImageFormat::Png, &[1], png(0, 5))];
    let mut doc = Document::new();
    let d = finding(paint_kind(&image_paint("abc", Some("FILL")), "/p", &images, &mut Vec::new(), &mut doc));
    assert_eq!(d.rule, IMAGE_ZERO_DIMENSION);
    assert_eq!(d.message, "imageRef abc: the header reports 0x5");
}

#[test]
fn the_scale_mode_is_read_after_the_image_is_admitted() {
    let images = vec![image("abc", ImageFormat::Png, &[1, 2], png(1, 1))];
    let mut doc = Document::new();
    let mut cache = Vec::new();
    let (_, what) = refusal(paint_kind(&image_paint("abc", None), "/p", &images, &mut cache, &mut doc));
    assert_eq!(what, "an IMAGE fill with no scaleMode");
    assert_eq!(doc.assets.len(), 1);
    assert_eq!(cache.len(), 1);
    let (_, what) = refusal(paint_kind(&image_paint("abc", Some("STRETCH")), "/p", &images, &mut cache, &mut doc));
    assert_eq!(what, "an image scaleMode STRETCH");
}

#[test]
fn withdrawing_a_refused_nodes_images_forgets_their_refs() {
    let images = vec![
        image("a", ImageFormat::Png, &[1], png(1, 1)),
        image("b", ImageFormat::Png, &[2], png(2, 2)),
    ];
    let mut doc = Document::new();
    let mut cache = Vec::new();
    assert_eq!(admit_image("a", "/x", &images, &mut cache, &mut doc).unwrap(), 0);
    let kept = doc.assets.len();
    assert_eq!(admit_image("b", "/y", &images, &mut cache, &mut doc).unwrap(), 1);
    withdraw_assets(&mut doc, &mut cache, kept);
    assert_eq!(doc.assets.len(), 1);
    assert_eq!(cache, vec![("a".to_string(), 0)]);
    // A later fill naming the withdrawn ref admits it afresh.
    assert_eq!(admit_image("b", "/z", &images, &mut cache, &mut doc).unwrap(), 1);
    assert_eq!(doc.assets.len(), 2);
    assert_eq!(doc.assets[1].bytes, vec![2]);
}
