use dashc::bindings::{
    apply, classify_property, conflict_diagnostic, intern_signal, BoundValue, BoundVariable, Finding, LoweredNode,
    PropertySite, SIGNAL_CONFLICT, UNLOWERED_NODE, UNSUPPORTED_PROPERTY,
};
use dashc::diagnostics::{Location, NodePath, Severity};
use dashc::document::{
    BindingChannel, BindingTransform, Color, CrossAxisAlign, Document, EdgeInsets, FillKind,
    LayoutContainer, LayoutMode, MainAxisAlign, Node, Paint,
};

#[test]
fn property_paths_classify_by_shape() {
    assert!(matches!(
        classify_property("itemSpacing"),
        PropertySite::ItemSpacing
    ));
    assert!(matches!(
        classify_property("fills[0].color"),
        PropertySite::FillColor
    ));
    assert!(matches!(
        classify_property("fills[12].color"),
        PropertySite::FillColor
    ));
    assert!(matches!(
        classify_property("opacity"),
        PropertySite::Opacity
    ));
    for other in [
        "strokes[0].color",
        "fills[0].gradientStops[2].color",
        "effects[0].color",
        "rectangleCornerRadii.RECTANGLE_TOP_LEFT_CORNER_RADIUS",
        "fills[].color",
        "fills[x].color",
    ] {
        assert!(
            matches!(classify_property(other), PropertySite::Other),
            "{other} must not classify as a supported site"
        );
    }
}

fn row(node_id: &str, property: &str, signal: &str, value: BoundValue) -> BoundVariable {
    BoundVariable {
        node_id: node_id.to_string(),
        property: property.to_string(),
        signal: signal.to_string(),
        value,
    }
}

fn lowered(node_id: &str, index: u32, path: &str, fill_opacity: f32) -> LoweredNode {
    LoweredNode {
        node_id: node_id.to_string(),
        index,
        path: path.to_string(),
        fill_opacity: fill_opacity.to_bits(),
    }
}

/// A document of two nodes: a flex row, and a solid-filled card.
fn two_node_document() -> Document {
    let mut doc = Document::new();
    let mut row_node = Node::default();
    row_node.container = Some(LayoutContainer {
        mode: LayoutMode::Horizontal,
        gap: 8.0f32.to_bits(),
        padding: EdgeInsets { left: 0, top: 0, right: 0, bottom: 0 },
        main_align: MainAxisAlign::Start,
        cross_align: CrossAxisAlign::Start,
        cross_gap: None,
        grid_rows: vec![],
        grid_columns: vec![],
    });
    doc.push(row_node);
    let mut card = Node::default();
    card.paint = Some(Paint {
        fill: Some(FillKind::Solid(Color { r: 0, g: 0, b: 0, a: 1.0f32.to_bits() })),
        clip: false,
        shape_field: None,
    });
    doc.push(card);
    doc
}

fn note_of(finding: &Finding) -> (&'static str, Severity, String) {
    match finding {
        Finding::Note(d) => (d.rule, d.severity, d.message.clone()),
        Finding::Conflict(..) => panic!("expected a finished finding, got a conflict"),
    }
}

#[test]
fn an_item_spacing_row_binds_the_gap() {
    let mut doc = two_node_document();
    let index = vec![lowered("1:1", 0, "/row", 1.0)];
    let findings = apply(
        &mut doc,
        &[row("1:1", "itemSpacing", "size/gap", BoundValue::Float(16.0f32.to_bits()))],
        &index,
    );
    assert!(findings.is_empty());
    assert_eq!(doc.signals.len(), 1);
    assert_eq!(doc.signals[0].name, "size/gap");
    assert_eq!(doc.signals[0].initial, 16.0f32.to_bits());
    assert_eq!(doc.bindings.len(), 1);
    assert_eq!(doc.bindings[0].signal, 0);
    assert_eq!(doc.bindings[0].node, 0);
    assert_eq!(doc.bindings[0].channel, BindingChannel::Gap);
    assert_eq!(doc.bindings[0].transform, BindingTransform::Identity);
}

#[test]
fn a_fill_color_binds_four_channels_and_folds_the_paint_opacity_into_alpha() {
    let mut doc = two_node_document();
    let index = vec![lowered("1:2", 1, "/card", 0.5)];
    let color = BoundValue::Color {
        r: 0.25f32.to_bits(),
        g: 0.5f32.to_bits(),
        b: 0.75f32.to_bits(),
        a: 1.0f32.to_bits(),
    };
    let findings = apply(&mut doc, &[row("1:2", "fills[0].color", "accent", color)], &index);
    assert!(findings.is_empty());
    let names: Vec<&str> = doc.signals.iter().map(|s| s.name.as_str()).collect();
    assert_eq!(names, vec!["accent.r", "accent.g", "accent.b", "accent.a"]);
    let channels: Vec<BindingChannel> = doc.bindings.iter().map(|b| b.channel).collect();
    assert_eq!(
        channels,
        vec![BindingChannel::FillR, BindingChannel::FillG, BindingChannel::FillB, BindingChannel::FillA]
    );
    assert_eq!(doc.bindings[0].transform, BindingTransform::Identity);
    assert_eq!(doc.bindings[3].transform, BindingTransform::Scale(0.5f32.to_bits()));
}

#[test]
fn an_opaque_fill_binds_alpha_unscaled() {
    let mut doc = two_node_document();
    let index = vec![lowered("1:2", 1, "/card", 1.0)];
    let color = BoundValue::Color { r: 0, g: 0, b: 0, a: 1.0f32.to_bits() };
    apply(&mut doc, &[row("1:2", "fills[0].color", "accent", color)], &index);
    assert_eq!(doc.bindings[3].transform, BindingTransform::Identity);
}

#[test]
fn a_row_on_an_unlowered_node_is_named() {
    let mut doc = two_node_document();
    let findings = apply(
        &mut doc,
        &[row("9:9", "opacity", "fade", BoundValue::Float(0))],
        &vec![],
    );
    assert_eq!(findings.len(), 1);
    let (rule, severity, message) = note_of(&findings[0]);
    assert_eq!(rule, UNLOWERED_NODE);
    assert_eq!(severity, Severity::Warning);
    assert_eq!(
        message,
        "binding of \"fade\" targets Figma node 9:9, which lowered to no document node \
         (a definition, or a node outside the export); the binding is not carried"
    );
    match &findings[0] {
        Finding::Note(d) => match &d.at {
            Location::Node(p) => {
                assert_eq!(p.index, 0);
                assert_eq!(p.path, "<figma:9:9>");
            }
            other => panic!("unexpected location {other:?}"),
        },
        Finding::Conflict(..) => unreachable!(),
    }
    assert!(doc.signals.is_empty() && doc.bindings.is_empty());
}

#[test]
fn a_gap_on_a_node_without_a_container_is_named() {
    let mut doc = two_node_document();
    let index = vec![lowered("1:2", 1, "/card", 1.0)];
    let findings = apply(
        &mut doc,
        &[row("1:2", "itemSpacing", "size/gap", BoundValue::Float(0))],
        &index,
    );
    let (rule, severity, message) = note_of(&findings[0]);
    assert_eq!(rule, UNSUPPORTED_PROPERTY);
    assert_eq!(severity, Severity::Warning);
    assert_eq!(
        message,
        "itemSpacing is bound on /card, but the node lowered without an auto-layout container; \
         the resolved literal ships in the document, but the live binding of \"size/gap\" is not carried"
    );
}

#[test]
fn a_value_of_the_other_type_and_an_unknown_path_are_named() {
    let mut doc = two_node_document();
    let index = vec![lowered("1:1", 0, "/row", 1.0)];
    let color = BoundValue::Color { r: 0, g: 0, b: 0, a: 0 };
    let findings = apply(
        &mut doc,
        &[
            row("1:1", "itemSpacing", "gap", color),
            row("1:1", "strokes[0].color", "edge", BoundValue::Float(0)),
        ],
        &index,
    );
    assert_eq!(findings.len(), 2);
    assert_eq!(
        note_of(&findings[0]).2,
        "a COLOR variable is bound to itemSpacing, which takes the other value type; the resolved \
         literal ships in the document, but the live binding of \"gap\" is not carried"
    );
    assert_eq!(
        note_of(&findings[1]).2,
        "strokes[0].color has no binding channel in the vocabulary yet; the resolved literal ships \
         in the document, but the live binding of \"edge\" is not carried"
    );
}

#[test]
fn one_name_with_two_values_is_a_conflict() {
    let mut doc = two_node_document();
    let index = vec![lowered("1:1", 0, "/row", 1.0), lowered("1:2", 1, "/card", 1.0)];
    let findings = apply(
        &mut doc,
        &[
            row("1:1", "opacity", "fade", BoundValue::Float(0.5f32.to_bits())),
            row("1:2", "opacity", "fade", BoundValue::Float(0.5f32.to_bits())),
            row("1:2", "opacity", "fade", BoundValue::Float(0.25f32.to_bits())),
        ],
        &index,
    );
    assert_eq!(doc.signals.len(), 1, "a repeated name with the same value shares its signal");
    assert_eq!(doc.bindings.len(), 2);
    assert_eq!(findings.len(), 1);
    match &findings[0] {
        Finding::Conflict(at, conflict) => {
            assert_eq!(at.index, 1);
            assert_eq!(at.path, "/card");
            assert_eq!(conflict.name, "fade");
            assert_eq!(conflict.declared, 0.5f32.to_bits());
            assert_eq!(conflict.initial, 0.25f32.to_bits());
        }
        Finding::Note(d) => panic!("expected a conflict, got {d:?}"),
    }
    assert_eq!(SIGNAL_CONFLICT, "figma.bindings.signal-conflict");
}

#[test]
fn interning_reuses_only_signals_declared_from_the_start_index() {
    let mut doc = two_node_document();
    assert_eq!(intern_signal(&mut doc, 0, "a".to_string(), 1).ok(), Some(0));
    assert_eq!(intern_signal(&mut doc, 0, "a".to_string(), 1).ok(), Some(0));
    assert_eq!(intern_signal(&mut doc, 1, "a".to_string(), 1).ok(), Some(1));
    let conflict = intern_signal(&mut doc, 0, "a".to_string(), 2).expect_err("two values");
    assert_eq!((conflict.declared, conflict.initial), (1, 2));
}

#[test]
fn a_signal_conflict_is_an_error_quoting_both_values() {
    let conflict = dashc::bindings::SignalConflict {
        name: "size/gap".to_string(),
        declared: 8.0f32.to_bits(),
        initial: 12.5f32.to_bits(),
    };
    let d = conflict_diagnostic(
        NodePath { index: 3, path: "/card".to_string() },
        conflict,
        "8",
        "12.5",
    );
    assert_eq!(d.rule, SIGNAL_CONFLICT);
    assert_eq!(d.severity, Severity::Error);
    assert!(matches!(&d.at, Location::Node(n) if n.index == 3 && n.path == "/card"));
    assert_eq!(
        d.message,
        "signal \"size/gap\" is declared with initial 8 and bound again with 12.5; one \
         mode-qualified name resolves to one value, so the joined rows are inconsistent"
    );
}
