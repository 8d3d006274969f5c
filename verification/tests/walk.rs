use dashc::diagnostics::{Diagnostic, Location, NodePath, Severity};
use dashc::document::{
    AxisSizing, Box2D, Color, CrossAxisAlign, Document, EdgeInsets, LayoutConstraints, LayoutContainer, LayoutMode,
    MainAxisAlign, Node, TextAlign, TextAlignV,
};
use dashc::figma::{
    CompileError, ComplexStrokeProperties, FigmaEffect, FigmaLayout, FigmaNode, FigmaPaint, FigmaTextStyle, Flow, Geometry,
};
use dashc::walk::{
    blur_on_text, child_flow, field_input, kind_refusal, lower_gap, no_content, node_intent, node_kind, refused_subtree,
    single_visible_paint, sole_fill, stroke_of, text_of, unlowered_shadow, unsupported_at, KindVerdict,
    OnePaint, StrokeAlign, StrokeIntent, NO_CONTENT, SUBTREE_DROPPED, UNSUPPORTED,
};
use dashc::vector::WindingRule;
use dashc::walk::skip_blocked;
use dashc::paints::{fills_of, FillSpec, IdentifiedImage, ImageHeader};
use dashc::walk::fill_of;
use dashc::wire::{ImageAsset, ImageEntry};
use dashc::wire::ImageFormat;
use dashc::document::{Asset, AssetKind};
use dashc::EmitPolicy;

fn placed(name: &str, kind: &str) -> FigmaNode {
    FigmaNode {
        id: None,
        name: name.to_string(),
        kind: kind.to_string(),
        children: vec![],
        fills: vec![],
        strokes: vec![],
        effects: vec![],
        blend_mode: None,
        corner_smoothing: None,
        layout: FigmaLayout::default(),
        absolute_bounding_box: Some(Box2D {
            x: 0,
            y: 0,
            width: 100f32.to_bits(),
            height: 40f32.to_bits(),
        }),
        rotation: None,
        size: None,
        is_mask: None,
        mask_type: None,
        section_contents_hidden: None,
        layout_positioning: None,
        strokes_included_in_layout: None,
        item_reverse_z_index: None,
        complex_stroke_properties: None,
        stroke_dashes: None,
        stroke_align: None,
        characters: None,
        style: None,
        style_overrides: 0,
        component_id: None,
        compared: dashc::figma::ComparedFields::none(),
        facts: dashc::figma::WalkFacts::plain(),
        interactions: vec![],
    }
}

fn effect(kind: &str, visible: Option<bool>) -> FigmaEffect {
    FigmaEffect {
        kind: kind.to_string(),
        visible,
        blur_type: None,
        blend_mode: None,
        color: None,
        offset: None,
        radius: None,
        spread: None,
    }
}

fn flex(mode: LayoutMode, gap: f32, main_align: MainAxisAlign) -> LayoutContainer {
    LayoutContainer {
        mode,
        gap: gap.to_bits(),
        padding: EdgeInsets { left: 0, top: 0, right: 0, bottom: 0 },
        main_align,
        cross_align: CrossAxisAlign::Start,
        cross_gap: None,
        grid_rows: vec![],
        grid_columns: vec![],
    }
}

#[test]
fn node_kinds_split_into_definitions_lowerings_and_refusals() {
    assert_eq!(node_kind("COMPONENT"), KindVerdict::Definition);
    assert_eq!(node_kind("COMPONENT_SET"), KindVerdict::Definition);
    for kind in ["FRAME", "INSTANCE", "TEXT", "ELLIPSE", "RECTANGLE", "SECTION", "GROUP", "VECTOR"] {
        assert_eq!(node_kind(kind), KindVerdict::Lowered, "{kind}");
    }
    assert_eq!(node_kind("BOOLEAN_OPERATION"), KindVerdict::Refused);
    assert_eq!(node_kind("frame"), KindVerdict::Refused);
    assert_eq!(kind_refusal("STAR"), "node type STAR");
}

#[test]
fn an_omission_is_an_error_under_strict_and_a_warning_under_partial() {
    let strict = unsupported_at(3, "/card", "a luminance mask", EmitPolicy::Strict);
    assert_eq!(strict.rule, UNSUPPORTED);
    assert_eq!(strict.severity, Severity::Error);
    assert_eq!(strict.message, "a luminance mask is not in the document vocabulary yet");
    match &strict.at {
        Location::Node(p) => {
            assert_eq!(p.index, 3);
            assert_eq!(p.path, "/card");
        }
        other => panic!("{other:?}"),
    }
    let partial = unsupported_at(3, "/card", "a luminance mask", EmitPolicy::Partial);
    assert_eq!(partial.severity, Severity::Warning);
    assert_eq!(partial.message, strict.message);
    assert_eq!(partial.rule, strict.rule);
}

#[test]
fn a_refused_subtree_counts_every_layer_below_it() {
    let mut inner = placed("inner", "FRAME");
    inner.children.push(placed("leaf", "TEXT"));
    let mut root = placed("root", "STAR");
    root.children.push(inner);
    root.children.push(placed("other", "RECTANGLE"));
    let d = refused_subtree(7, "/root", &root, EmitPolicy::Partial).expect("three layers went with it");
    assert_eq!(d.rule, SUBTREE_DROPPED);
    assert_eq!(d.severity, Severity::Warning);
    assert_eq!(
        d.message,
        "this layer was refused, so the 3 layer(s) below it in the Figma file were dropped with it and are \
         not named individually; they have no parent to attach to. Some may not have lowered on their own \
         terms either"
    );
    let strict = refused_subtree(7, "/root", &root, EmitPolicy::Strict).unwrap();
    assert_eq!(strict.severity, Severity::Error);
    assert!(refused_subtree(7, "/leaf", &placed("leaf", "STAR"), EmitPolicy::Strict).is_none());
}

#[test]
fn a_plain_frame_has_no_blocker() {
    let mut blockers = Vec::new();
    let (mask, constraints) = node_intent(&placed("card", "FRAME"), None, &mut blockers);
    assert!(!mask);
    assert!(blockers.is_empty(), "{blockers:?}");
    assert!(constraints.is_none());
}

#[test]
fn every_structural_blocker_is_named_in_order() {
    let mut n = placed("card", "SECTION");
    n.is_mask = Some(true);
    n.mask_type = Some("ALPHA".to_string());
    n.rotation = Some(0.5f32.to_bits());
    n.children.push(placed("child", "FRAME"));
    n.section_contents_hidden = Some(true);
    n.layout_positioning = Some("ABSOLUTE".to_string());
    n.strokes_included_in_layout = Some(true);
    n.item_reverse_z_index = Some(true);
    n.absolute_bounding_box = None;
    let mut blockers = vec!["earlier".to_string()];
    let (mask, _) = node_intent(&n, None, &mut blockers);
    assert!(!mask);
    assert_eq!(
        blockers,
        vec![
            "earlier",
            "an alpha mask (a soft mask has no hard box-clip lowering)",
            "a rotated node with children (a rotation does not compose down the tree)",
            "a rotated node with no size",
            "a section with hidden contents (sectionContentsHidden)",
            "absolute positioning inside auto-layout",
            "strokes included in layout (strokesIncludedInLayout)",
            "reversed child paint order (itemReverseZIndex)",
            "node card has no absoluteBoundingBox",
        ]
    );
}

#[test]
fn masks_lower_only_as_box_outlines() {
    let mut outline = placed("m", "RECTANGLE");
    outline.is_mask = Some(true);
    let mut blockers = Vec::new();
    assert!(node_intent(&outline, None, &mut blockers).0);
    assert!(blockers.is_empty());

    let mut luminance = placed("m", "RECTANGLE");
    luminance.is_mask = Some(true);
    luminance.mask_type = Some("LUMINANCE".to_string());
    assert!(!node_intent(&luminance, None, &mut blockers).0);
    assert_eq!(blockers, vec!["a luminance mask"]);

    let mut text = placed("t", "TEXT");
    text.is_mask = Some(true);
    text.mask_type = Some("GEOMETRY".to_string());
    blockers.clear();
    assert!(!node_intent(&text, None, &mut blockers).0);
    assert_eq!(blockers, vec!["a text node used as a mask (letterforms are not a box)"]);
}

#[test]
fn a_zero_rotation_of_either_sign_is_unrotated() {
    let mut n = placed("card", "FRAME");
    n.children.push(placed("child", "FRAME"));
    let mut blockers = Vec::new();
    n.rotation = Some(0.0f32.to_bits());
    node_intent(&n, None, &mut blockers);
    n.rotation = Some((-0.0f32).to_bits());
    node_intent(&n, None, &mut blockers);
    assert!(blockers.is_empty(), "{blockers:?}");
    n.rotation = Some(f32::NAN.to_bits());
    node_intent(&n, None, &mut blockers);
    assert_eq!(blockers.len(), 2);
}

#[test]
fn a_fill_child_on_a_hug_axis_is_named_with_its_intent() {
    let mut n = placed("child", "FRAME");
    n.layout.layout_sizing_horizontal = Some("FILL".to_string());
    let flow = Flow {
        horizontal: true,
        leading_margin: 0,
        parent_hugs_h: true,
        parent_hugs_v: false,
    };
    let mut blockers = Vec::new();
    let (_, constraints) = node_intent(&n, Some(&flow), &mut blockers);
    assert_eq!(blockers, vec!["a Fill child on its parent's hug axis (horizontal)"]);
    assert_eq!(constraints.map(|c| c.sizing_h), Some(AxisSizing::Fill));
}

#[test]
fn shadows_on_text_and_vectors_are_named_and_elsewhere_lower() {
    let mut blockers = Vec::new();
    let mut text = placed("label", "TEXT");
    text.effects.push(effect("DROP_SHADOW", None));
    unlowered_shadow(&text, &mut blockers);
    let mut vector = placed("icon", "VECTOR");
    vector.effects.push(effect("INNER_SHADOW", Some(true)));
    unlowered_shadow(&vector, &mut blockers);
    assert_eq!(blockers, vec!["a shadow on a text node", "a shadow on a vector node"]);

    blockers.clear();
    let mut frame = placed("card", "FRAME");
    frame.effects.push(effect("DROP_SHADOW", None));
    unlowered_shadow(&frame, &mut blockers);
    let mut hidden = placed("label", "TEXT");
    hidden.effects.push(effect("DROP_SHADOW", Some(false)));
    unlowered_shadow(&hidden, &mut blockers);
    assert!(blockers.is_empty(), "{blockers:?}");
}

#[test]
fn a_backdrop_blur_on_text_is_named() {
    let mut blockers = Vec::new();
    let mut text = placed("label", "TEXT");
    text.effects.push(effect("LAYER_BLUR", None));
    blur_on_text(&text, &mut blockers);
    assert!(blockers.is_empty());
    text.effects.push(effect("BACKGROUND_BLUR", None));
    blur_on_text(&text, &mut blockers);
    assert_eq!(blockers, vec!["a blur on a text node"]);
    let mut frame = placed("card", "FRAME");
    frame.effects.push(effect("BACKGROUND_BLUR", None));
    blockers.clear();
    blur_on_text(&frame, &mut blockers);
    assert!(blockers.is_empty());
}

#[test]
fn a_negative_flex_gap_becomes_the_leading_margin() {
    let (c, margin) = lower_gap(flex(LayoutMode::Horizontal, -8.0, MainAxisAlign::Start));
    assert_eq!(c.gap, 0);
    assert_eq!(margin, (-8.0f32).to_bits());

    let (c, margin) = lower_gap(flex(LayoutMode::Vertical, 12.0, MainAxisAlign::Center));
    assert_eq!(c.gap, 12.0f32.to_bits());
    assert_eq!(margin, 0);

    let (c, margin) = lower_gap(flex(LayoutMode::Horizontal, 24.0, MainAxisAlign::SpaceBetween));
    assert_eq!(c.gap, 0);
    assert_eq!(margin, 0);

    let (c, margin) = lower_gap(flex(LayoutMode::Grid, -4.0, MainAxisAlign::Start));
    assert_eq!(c.gap, (-4.0f32).to_bits());
    assert_eq!(margin, 0);

    let (c, margin) = lower_gap(flex(LayoutMode::Horizontal, -0.0, MainAxisAlign::Start));
    assert_eq!(c.gap, (-0.0f32).to_bits());
    assert_eq!(margin, 0);
}

#[test]
fn the_first_child_absorbs_no_margin() {
    let (c, margin) = lower_gap(flex(LayoutMode::Horizontal, -8.0, MainAxisAlign::Start));
    let mut hug = LayoutConstraints::default();
    hug.sizing_v = AxisSizing::Hug;
    let container = Some(c);
    let first = child_flow(&container, margin, &Some(hug), 0).unwrap();
    let second = child_flow(&container, margin, &Some(hug), 1).unwrap();
    assert!(first.horizontal);
    assert_eq!(first.leading_margin, 0);
    assert_eq!(second.leading_margin, (-8.0f32).to_bits());
    assert!(!second.parent_hugs_h && second.parent_hugs_v);
    let no_sizing = child_flow(&container, margin, &None, 2).unwrap();
    assert!(!no_sizing.parent_hugs_h && !no_sizing.parent_hugs_v);
    assert!(child_flow(&None, margin, &Some(hug), 1).is_none());
}

#[test]
fn a_file_of_definitions_only_is_refused_by_name() {
    let button = placed("Button", "COMPONENT");
    let icons = placed("Icons", "COMPONENT_SET");
    let doc = Document::new();
    let d = no_content(&[&button, &icons], &doc, &vec![]).expect("nothing lowered");
    assert_eq!(d.rule, NO_CONTENT);
    assert_eq!(d.severity, Severity::Error);
    assert_eq!(
        d.message,
        "the document lowered to no content: its only top-level nodes are component definitions \
         (Button (COMPONENT), Icons (COMPONENT_SET)), which resolve but do not paint"
    );
    match &d.at {
        Location::Node(p) => assert_eq!((p.index, p.path.as_str()), (0, "/")),
        other => panic!("{other:?}"),
    }
    let plain = no_content(&[], &doc, &vec![]).unwrap();
    assert_eq!(plain.message, "the document lowered to no content");
    let mut lowered = Document::new();
    lowered.push(Node::default());
    assert!(no_content(&[&button], &lowered, &vec![]).is_none());
}

#[test]
fn an_error_already_explains_an_empty_document() {
    let star = placed("star", "STAR");
    let doc = Document::new();
    let error = unsupported_at(0, "/star", "node type STAR", EmitPolicy::Strict);
    assert!(no_content(&[&star], &doc, &vec![error]).is_none());
    let warning = Diagnostic {
        rule: UNSUPPORTED,
        severity: Severity::Warning,
        at: Location::Node(NodePath::new(0, "/star".to_string())),
        message: "node type STAR is not in the document vocabulary yet".to_string(),
    };
    assert!(no_content(&[&star], &doc, &vec![warning]).is_some());
}

#[test]
fn a_lowered_gap_lowers_to_itself() {
    for (mode, gap, align) in [
        (LayoutMode::Horizontal, -8.0f32, MainAxisAlign::Start),
        (LayoutMode::Vertical, 6.0, MainAxisAlign::End),
        (LayoutMode::Horizontal, -3.0, MainAxisAlign::SpaceBetween),
    ] {
        let (once, _) = lower_gap(flex(mode, gap, align));
        let gap_once = once.gap;
        let (twice, margin) = lower_gap(once);
        assert_eq!(twice.gap, gap_once);
        assert_eq!(margin, 0);
        assert!(f32::from_bits(twice.gap) >= 0.0);
    }
}

fn stroke(kind: &str, visible: Option<bool>, color: Option<Color>) -> FigmaPaint {
    FigmaPaint {
        kind: kind.to_string(),
        blend_mode: None,
        visible,
        image_ref: None,
        color,
        opacity: None,
        gradient_handle_positions: vec![],
        gradient_stops: vec![],
        scale_mode: None,
        image_transform: None,
        scaling_factor: None,
    }
}

fn white() -> Option<Color> {
    Some(Color {
        r: 1f32.to_bits(),
        g: 1f32.to_bits(),
        b: 1f32.to_bits(),
        a: 1f32.to_bits(),
    })
}

#[test]
fn visible_paints_are_counted_past_hidden_ones() {
    assert_eq!(single_visible_paint(&vec![]), OnePaint::Nothing);
    let hidden = stroke("SOLID", Some(false), white());
    assert_eq!(single_visible_paint(&vec![hidden.clone()]), OnePaint::Nothing);
    let shown = stroke("SOLID", None, white());
    assert_eq!(
        single_visible_paint(&vec![hidden.clone(), shown.clone(), hidden.clone()]),
        OnePaint::One(1)
    );
    assert_eq!(
        single_visible_paint(&vec![shown.clone(), hidden, stroke("GRADIENT_LINEAR", Some(true), None)]),
        OnePaint::Many
    );
}

#[test]
fn a_solid_stroke_lowers_with_its_alignment() {
    let mut n = placed("card", "FRAME");
    n.strokes.push(stroke("SOLID", Some(false), None));
    n.strokes.push(stroke("SOLID", None, white()));
    n.stroke_align = Some("OUTSIDE".to_string());
    let mut blockers = Vec::new();
    assert_eq!(
        stroke_of(&n, &mut blockers),
        Some(StrokeIntent { paint: 1, align: StrokeAlign::Outside })
    );
    assert!(blockers.is_empty());
    n.stroke_align = None;
    assert_eq!(stroke_of(&n, &mut blockers).map(|s| s.align), Some(StrokeAlign::Inside));
}

#[test]
fn a_node_without_a_shown_stroke_has_no_stroke_findings() {
    let mut n = placed("card", "FRAME");
    n.stroke_align = Some("WEIRD".to_string());
    n.stroke_dashes = Some(vec![4f32.to_bits()]);
    let mut blockers = Vec::new();
    assert_eq!(stroke_of(&n, &mut blockers), None);
    assert!(blockers.is_empty());
}

#[test]
fn every_stroke_refusal_is_collected() {
    let mut n = placed("card", "FRAME");
    n.strokes.push(stroke("GRADIENT_LINEAR", None, None));
    n.complex_stroke_properties = Some(ComplexStrokeProperties {
        stroke_type: Some("VARIABLE_WIDTH".to_string()),
    });
    n.stroke_dashes = Some(vec![4f32.to_bits(), 2f32.to_bits()]);
    n.stroke_align = Some("SIDEWAYS".to_string());
    let mut blockers = Vec::new();
    assert_eq!(stroke_of(&n, &mut blockers), None);
    assert_eq!(
        blockers,
        vec![
            "a VARIABLE_WIDTH stroke",
            "a dashed stroke",
            "a non-solid stroke",
            "a SIDEWAYS stroke alignment",
        ]
    );

    let mut stacked = placed("card", "FRAME");
    stacked.strokes.push(stroke("SOLID", None, white()));
    stacked.strokes.push(stroke("SOLID", None, None));
    stacked.complex_stroke_properties = Some(ComplexStrokeProperties {
        stroke_type: Some("BASIC".to_string()),
    });
    stacked.stroke_dashes = Some(vec![]);
    blockers.clear();
    assert_eq!(stroke_of(&stacked, &mut blockers), None);
    assert_eq!(blockers, vec!["more than one visible stroke"]);

    let mut colourless = placed("card", "FRAME");
    colourless.strokes.push(stroke("SOLID", None, None));
    blockers.clear();
    assert_eq!(stroke_of(&colourless, &mut blockers), None);
    assert_eq!(blockers, vec!["a SOLID stroke with no color"]);
}

#[test]
fn a_dashed_stroke_still_names_its_paint_for_the_skipped_node() {
    let mut n = placed("card", "FRAME");
    n.strokes.push(stroke("SOLID", None, white()));
    n.stroke_dashes = Some(vec![4f32.to_bits()]);
    let mut blockers = Vec::new();
    assert!(stroke_of(&n, &mut blockers).is_some());
    assert_eq!(blockers, vec!["a dashed stroke"]);
}

fn fill(kind: &str) -> FigmaPaint {
    let mut p = stroke(kind, None, white());
    if kind == "IMAGE" {
        p.color = None;
    }
    p
}

fn image_fill(image_ref: &str) -> FigmaPaint {
    let mut p = fill("IMAGE");
    p.image_ref = Some(image_ref.to_string());
    p.scale_mode = Some("FILL".to_string());
    p
}

fn lower_fills(
    fills: Vec<FigmaPaint>,
    images: &Vec<IdentifiedImage>,
    policy: EmitPolicy,
    blockers: &mut Vec<String>,
) -> Result<Vec<FillSpec>, CompileError> {
    let mut n = placed("hero", "FRAME");
    n.fills = fills;
    let mut doc = Document::new();
    fills_of(&n, "/hero", policy, images, &mut Vec::new(), &mut doc, blockers)
}

#[test]
fn lowered_fills_keep_their_order_and_refusals_are_named() {
    let mut blockers = Vec::new();
    let mut hidden = fill("SOLID");
    hidden.visible = Some(false);
    let kinds =
        lower_fills(vec![fill("SOLID"), fill("PATTERN"), hidden, fill("SOLID")], &vec![], EmitPolicy::Strict, &mut blockers)
            .unwrap();
    assert_eq!(kinds.len(), 2);
    assert!(kinds.iter().all(|k| matches!(k, FillSpec::Solid { .. })));
    assert_eq!(blockers, vec!["a PATTERN paint"]);
}

#[test]
fn an_unresolved_image_aborts_under_strict() {
    let mut blockers = vec!["a dashed stroke".to_string()];
    match lower_fills(
        vec![fill("PATTERN"), image_fill("abc"), fill("VIDEO")],
        &vec![],
        EmitPolicy::Strict,
        &mut blockers,
    ) {
        Err(CompileError::UnresolvedImage { path, image_ref }) => {
            assert_eq!((path.as_str(), image_ref.as_str()), ("/hero", "abc"))
        }
        other => panic!("{other:?}"),
    }
    assert_eq!(blockers, vec!["a dashed stroke", "a PATTERN paint"]);
}

#[test]
fn under_partial_an_unresolved_image_joins_another_blocker() {
    let mut blockers = Vec::new();
    let kinds = lower_fills(
        vec![image_fill("abc"), fill("SOLID"), fill("PATTERN"), image_fill("def")],
        &vec![],
        EmitPolicy::Partial,
        &mut blockers,
    )
    .unwrap();
    assert_eq!(kinds.len(), 1);
    assert_eq!(
        blockers,
        vec![
            "a PATTERN paint",
            "an IMAGE fill with an unresolved imageRef abc",
            "an IMAGE fill with an unresolved imageRef def",
        ]
    );
}

#[test]
fn under_partial_an_unresolved_image_alone_still_aborts() {
    let mut blockers = Vec::new();
    match lower_fills(
        vec![fill("SOLID"), image_fill("abc"), image_fill("def")],
        &vec![],
        EmitPolicy::Partial,
        &mut blockers,
    ) {
        Err(CompileError::UnresolvedImage { image_ref, .. }) => assert_eq!(image_ref, "abc"),
        other => panic!("{other:?}"),
    }
    assert!(blockers.is_empty());
}

#[test]
fn an_image_diagnostic_aborts_even_with_an_image_set_aside() {
    let images = vec![IdentifiedImage {
        entry: ImageEntry {
            image_ref: "bad".to_string(),
            asset: ImageAsset { format: ImageFormat::Png, bytes: vec![0] },
        },
        header: ImageHeader::UnknownSignature("no known signature".to_string()),
    }];
    for policy in [EmitPolicy::Strict, EmitPolicy::Partial] {
        let mut blockers = vec!["earlier".to_string()];
        let r = lower_fills(vec![image_fill("abc"), image_fill("bad"), fill("PATTERN")], &images, policy, &mut blockers);
        match policy {
            EmitPolicy::Strict => assert!(matches!(r, Err(CompileError::UnresolvedImage { .. })), "{r:?}"),
            EmitPolicy::Partial => assert!(matches!(r, Err(CompileError::Diagnostics(_))), "{r:?}"),
        }
        assert_eq!(blockers, vec!["earlier"]);
    }
}

#[test]
fn fills_share_the_images_they_admit() {
    let images = vec![IdentifiedImage {
        entry: ImageEntry { image_ref: "abc".to_string(), asset: ImageAsset { format: ImageFormat::Png, bytes: vec![5] } },
        header: ImageHeader::Read { format: ImageFormat::Png, width: 2, height: 3 },
    }];
    let mut n = placed("hero", "FRAME");
    n.fills = vec![image_fill("abc"), image_fill("abc")];
    let mut doc = Document::new();
    let mut cache = Vec::new();
    let mut blockers = Vec::new();
    let kinds = fills_of(&n, "/hero", EmitPolicy::Strict, &images, &mut cache, &mut doc, &mut blockers).unwrap();
    assert_eq!(kinds.len(), 2);
    assert!(kinds.iter().all(|k| matches!(k, FillSpec::Image { image: 0, .. })));
    assert_eq!(doc.assets.len(), 1);
    assert_eq!(cache.len(), 1);
}

#[test]
fn an_entry_with_one_fill_takes_the_sole_shown_one() {
    let mut n = placed("dot", "ELLIPSE");
    let mut blockers = Vec::new();
    assert_eq!(sole_fill(&n, Vec::<u32>::new(), &mut blockers), None);
    n.fills.push(stroke("SOLID", None, white()));
    assert_eq!(sole_fill(&n, vec![7u32], &mut blockers), Some(7));
    assert_eq!(sole_fill(&n, Vec::<u32>::new(), &mut blockers), None);
    assert!(blockers.is_empty());
    n.fills.push(stroke("SOLID", None, white()));
    assert_eq!(sole_fill(&n, vec![7u32, 8], &mut blockers), None);
    assert_eq!(blockers, vec!["more than one visible fill"]);
}

fn style() -> FigmaTextStyle {
    FigmaTextStyle {
        font_family: "Inter".to_string(),
        font_size: 16f32.to_bits(),
        font_weight: None,
        font_style: Some("Regular".to_string()),
        text_align_horizontal: None,
        text_align_vertical: None,
        line_height_unit: Some("INTRINSIC_%".to_string()),
        line_height_px: Some(19f32.to_bits()),
        letter_spacing: None,
        text_decoration: Some("NONE".to_string()),
        text_case: Some("ORIGINAL".to_string()),
        text_auto_resize: "WIDTH_AND_HEIGHT".to_string(),
        hyperlink: false,
        opentype_flags: vec![],
    }
}

fn label() -> FigmaNode {
    let mut n = placed("label", "TEXT");
    n.characters = Some("Hello".to_string());
    n.style = Some(style());
    n.fills.push(stroke("SOLID", None, white()));
    n
}

#[test]
fn a_plain_label_lowers_its_characters_and_style() {
    let mut blockers = Vec::new();
    let (chars, intent) = text_of(&label(), &mut blockers);
    assert!(blockers.is_empty(), "{blockers:?}");
    assert_eq!(chars.as_deref(), Some("Hello"));
    let t = intent.expect("a styled label");
    assert_eq!(t.family, "Inter");
    assert_eq!(t.size, 16f32.to_bits());
    assert_eq!(t.weight, 400);
    assert_eq!(t.fill, 0);
    assert_eq!(t.line_height_px, None);
    assert_eq!(t.letter_spacing, 0);
    assert_eq!(t.text_align, TextAlign::Left);
    assert_eq!(t.text_align_v, TextAlignV::Top);
    assert!(!t.ligatures_off);
}

#[test]
fn the_lowered_text_axes_carry_their_values() {
    let mut n = label();
    let st = n.style.as_mut().unwrap();
    st.text_align_horizontal = Some("RIGHT".to_string());
    st.text_align_vertical = Some("CENTER".to_string());
    st.line_height_unit = Some("PIXELS".to_string());
    st.font_weight = Some(700);
    st.letter_spacing = Some(0.5f32.to_bits());
    st.opentype_flags = vec![("LIGA".to_string(), Some(0))];
    let mut blockers = Vec::new();
    let t = text_of(&n, &mut blockers).1.unwrap();
    assert!(blockers.is_empty(), "{blockers:?}");
    assert_eq!(t.text_align, TextAlign::Right);
    assert_eq!(t.text_align_v, TextAlignV::Center);
    assert_eq!(t.line_height_px, Some(19f32.to_bits()));
    assert_eq!(t.weight, 700);
    assert_eq!(t.letter_spacing, 0.5f32.to_bits());
    assert!(t.ligatures_off);
}

#[test]
fn every_unlowerable_text_feature_is_named() {
    let mut n = label();
    n.style_overrides = 2;
    n.strokes.push(stroke("SOLID", None, white()));
    n.fills[0].kind = "GRADIENT_LINEAR".to_string();
    let st = n.style.as_mut().unwrap();
    st.text_align_horizontal = Some("JUSTIFIED".to_string());
    st.text_align_vertical = Some("BASELINE".to_string());
    st.line_height_unit = Some("FONT_SIZE_%".to_string());
    st.font_style = Some("Bold Italic".to_string());
    st.text_decoration = Some("UNDERLINE".to_string());
    st.text_case = Some("UPPER".to_string());
    st.text_auto_resize = "TRUNCATE".to_string();
    st.hyperlink = true;
    st.opentype_flags = vec![("LIGA".to_string(), Some(1))];
    let mut blockers = Vec::new();
    let (chars, intent) = text_of(&n, &mut blockers);
    assert_eq!(chars.as_deref(), Some("Hello"));
    assert!(intent.is_none());
    assert_eq!(
        blockers,
        vec![
            "multiple text style segments (styleOverrideTable)",
            "text alignment JUSTIFIED",
            "vertical text alignment BASELINE",
            "a FONT_SIZE_% line height",
            "italic text",
            "text decoration",
            "a text case transform",
            "text truncation",
            "a text hyperlink",
            "OpenType features",
            "a text stroke (outline)",
            "a non-solid text fill",
        ]
    );
}

#[test]
fn a_text_node_without_characters_or_style_names_only_that() {
    let mut n = label();
    n.characters = None;
    n.style.as_mut().unwrap().hyperlink = true;
    let mut blockers = Vec::new();
    assert!(matches!(text_of(&n, &mut blockers), (None, None)));
    assert_eq!(blockers, vec!["a text node with no characters"]);
    let mut m = label();
    m.style = None;
    blockers.clear();
    assert!(matches!(text_of(&m, &mut blockers), (None, None)));
    assert_eq!(blockers, vec!["a text node with no style"]);
}

#[test]
fn the_glyph_colour_needs_one_coloured_solid_fill() {
    let mut blockers = Vec::new();
    let mut none = label();
    none.fills.clear();
    let (chars, intent) = text_of(&none, &mut blockers);
    assert_eq!(chars.as_deref(), Some("Hello"));
    assert!(intent.is_none());
    let mut two = label();
    two.fills.push(stroke("SOLID", None, white()));
    text_of(&two, &mut blockers);
    let mut colourless = label();
    colourless.fills[0].color = None;
    text_of(&colourless, &mut blockers);
    let mut resize = label();
    resize.style.as_mut().unwrap().text_auto_resize = "SHRINK".to_string();
    text_of(&resize, &mut blockers);
    assert_eq!(
        blockers,
        vec![
            "a text node with no fill",
            "more than one visible text fill",
            "a text SOLID fill with no color",
            "text auto-resize SHRINK",
        ]
    );
}

fn contour(path: &str, rule: Option<&str>) -> Geometry {
    Geometry {
        path: path.to_string(),
        winding_rule: rule.map(str::to_string),
    }
}

#[test]
fn a_vectors_contours_join_into_one_path_under_one_rule() {
    let (path, rule) = field_input(&[
        contour("M 0 0 L 10 0 L 10 10 Z", Some("NONZERO")),
        contour("M 2 2 L 4 2 L 4 4 Z", Some("NONZERO")),
    ])
    .unwrap();
    assert_eq!(path, "M 0 0 L 10 0 L 10 10 Z M 2 2 L 4 2 L 4 4 Z");
    assert_eq!(rule, WindingRule::NonZero);
    assert_eq!(
        field_input(&[contour("M 0 0 Z", Some("EVENODD"))]).unwrap(),
        ("M 0 0 Z".to_string(), WindingRule::EvenOdd)
    );
}

#[test]
fn a_vector_without_geometry_or_with_mixed_rules_is_refused() {
    assert_eq!(field_input(&[]).unwrap_err(), "a vector with no path geometry");
    assert_eq!(
        field_input(&[contour("M 0 0 Z", Some("NONZERO")), contour("M 1 1 Z", Some("EVENODD"))]).unwrap_err(),
        "a vector with mixed per-contour winding rules"
    );
}

#[test]
fn a_blocked_node_withdraws_its_images_and_names_each_blocker() {
    let mut doc = Document::new();
    doc.push(Node::default());
    let asset = |b: u8| Asset { format: ImageFormat::Png, kind: AssetKind::Image, bytes: vec![b], width: 1, height: 1 };
    doc.push_asset(asset(1));
    let before = doc.assets.len();
    doc.push_asset(asset(2));
    let mut cache = vec![("kept".to_string(), 0), ("mine".to_string(), 1)];
    let mut diagnostics: Vec<Diagnostic> = Vec::new();
    let mut frame = placed("card", "FRAME");
    frame.children.push(placed("a", "FRAME"));
    frame.children[0].children.push(placed("b", "TEXT"));
    skip_blocked(
        &mut doc,
        &mut cache,
        before,
        &mut diagnostics,
        "/card",
        &frame,
        vec!["a luminance mask".to_string(), "reversed child paint order (itemReverseZIndex)".to_string()],
        EmitPolicy::Partial,
    );
    assert_eq!(doc.assets.len(), 1);
    assert_eq!(cache, vec![("kept".to_string(), 0)]);
    assert_eq!(diagnostics.len(), 3);
    assert_eq!(diagnostics[0].rule, UNSUPPORTED);
    assert_eq!(diagnostics[0].message, "a luminance mask is not in the document vocabulary yet");
    assert_eq!(diagnostics[0].severity, Severity::Warning);
    assert!(matches!(&diagnostics[1].at, Location::Node(NodePath { index: 1, path }) if path == "/card"));
    assert_eq!(diagnostics[2].rule, SUBTREE_DROPPED);
    assert!(diagnostics[2].message.starts_with("this layer was refused, so the 2 layer(s) below it"));
}

#[test]
fn a_single_fill_entry_names_a_stack_and_each_refusal() {
    let mut n = placed("dot", "ELLIPSE");
    n.fills = vec![fill("SOLID"), fill("PATTERN")];
    let mut doc = Document::new();
    let mut blockers = Vec::new();
    let f = fill_of(&n, "/dot", EmitPolicy::Strict, &vec![], &mut Vec::new(), &mut doc, &mut blockers).unwrap();
    assert!(f.is_none());
    assert_eq!(blockers, vec!["a PATTERN paint", "more than one visible fill"]);
    n.fills = vec![fill("SOLID")];
    let mut blockers = Vec::new();
    let f = fill_of(&n, "/dot", EmitPolicy::Strict, &vec![], &mut Vec::new(), &mut doc, &mut blockers).unwrap();
    assert!(matches!(f, Some(FillSpec::Solid { .. })));
    assert!(blockers.is_empty());
}
