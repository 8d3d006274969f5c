use dashc::bindings::{BoundValue, BoundVariable};
use dashc::diagnostics::{Location, Profile, Severity};
use dashc::document::{Box2D, Color, FillKind};
use dashc::figma::{CompileError, ComparedFields, FigmaLayout, FigmaNode, FigmaPaint, WalkFacts};
use dashc::lower::{lower, lower_with_bindings, lower_with_bindings_and_policy, Lowering};
use dashc::paints::{IdentifiedImage, ImageHeader};
use dashc::wire::{ImageAsset, ImageEntry, ImageFormat};
use dashc::walk::{SUBTREE_DROPPED, UNSUPPORTED};
use dashc::EmitPolicy;

fn node(name: &str, kind: &str) -> FigmaNode {
    FigmaNode {
        id: None,
        name: name.to_string(),
        kind: kind.to_string(),
        children: vec![],
        fills: vec![],
        strokes: vec![],
        effects: vec![],
        blend_mode: None,
        corner_smoothing: None,
        layout: FigmaLayout::default(),
        absolute_bounding_box: Some(Box2D { x: 0, y: 0, width: 100f32.to_bits(), height: 40f32.to_bits() }),
        rotation: None,
        size: None,
        is_mask: None,
        mask_type: None,
        section_contents_hidden: None,
        layout_positioning: None,
        strokes_included_in_layout: None,
        item_reverse_z_index: None,
        complex_stroke_properties: None,
        stroke_dashes: None,
        stroke_align: None,
        characters: None,
        style: None,
        style_overrides: 0,
        component_id: None,
        compared: ComparedFields::none(),
        facts: WalkFacts::plain(),
        interactions: vec![],
    }
}

fn with_id(mut n: FigmaNode, id: &str) -> FigmaNode {
    n.id = Some(id.to_string());
    n
}

fn with_children(mut n: FigmaNode, children: Vec<FigmaNode>) -> FigmaNode {
    n.children = children;
    n
}

fn red() -> Color {
    Color { r: 1f32.to_bits(), g: 0, b: 0, a: 1f32.to_bits() }
}

fn solid(opacity: Option<f32>) -> FigmaPaint {
    FigmaPaint {
        kind: "SOLID".to_string(),
        blend_mode: None,
        visible: None,
        opacity: opacity.map(f32::to_bits),
        image_ref: None,
        color: Some(red()),
        gradient_handle_positions: vec![],
        gradient_stops: vec![],
        scale_mode: None,
        image_transform: None,
        scaling_factor: None,
    }
}

/// A file whose one canvas holds `roots`.
fn file(roots: Vec<FigmaNode>) -> FigmaNode {
    with_children(node("Document", "DOCUMENT"), vec![with_children(node("Page", "CANVAS"), roots)])
}

fn no_images() -> Vec<IdentifiedImage> {
    vec![]
}

fn names(l: &Lowering) -> Vec<String> {
    l.doc.nodes.iter().map(|n| n.name.clone().unwrap_or_default()).collect()
}

fn node_path(at: &Location) -> (u32, String) {
    match at {
        Location::Node(p) => (p.index, p.path.clone()),
        other => panic!("{other:?}"),
    }
}

#[test]
fn lowering_walks_every_root_depth_first_in_document_order() {
    let mut a1 = node("a1", "RECTANGLE");
    a1.fills.push(solid(None));
    a1.facts.offset_in_parent = Some((8f32.to_bits(), 4f32.to_bits()));
    let a = with_children(node("a", "FRAME"), vec![a1, node("a2", "FRAME")]);
    let f = file(vec![a, node("b", "FRAME")]);
    let l = lower(&f, Profile::Core, &no_images()).expect("the file lowers");
    assert_eq!(names(&l), vec!["a", "a1", "a2", "b"]);
    let parents: Vec<Option<u32>> = l.doc.nodes.iter().map(|n| n.parent).collect();
    assert_eq!(parents, vec![None, Some(0), Some(0), None]);
    assert!(l.diagnostics.is_empty());
    assert!(l.triaged.is_empty());
    assert!(l.findings.is_empty());
    assert_eq!(l.profile, Profile::Core);
    // A root is relative to itself; a child sits at its offset in its parent.
    assert_eq!(l.doc.nodes[0].box2d, Box2D { x: 0, y: 0, width: 100f32.to_bits(), height: 40f32.to_bits() });
    assert_eq!(l.doc.nodes[1].box2d.x, 8f32.to_bits());
    assert_eq!(l.doc.nodes[1].box2d.y, 4f32.to_bits());
    // Only the filled rectangle draws: the empty frames carry no entry.
    assert!(l.entries[0].is_none());
    assert!(l.entries[1].is_some());
    let paint = l.doc.nodes[1].paint.clone().expect("a painted rectangle");
    assert_eq!(paint.fill, Some(FillKind::Solid(red())));
    assert!(!paint.clip);
    assert_eq!(l.entries.len(), l.doc.nodes.len());
}

#[test]
fn a_component_definition_resolves_but_paints_nothing() {
    let definition = with_children(node("Button", "COMPONENT"), vec![node("label", "STAR")]);
    let f = file(vec![definition, node("screen", "FRAME")]);
    let l = lower(&f, Profile::Core, &no_images()).unwrap();
    assert_eq!(names(&l), vec!["screen"]);
    // The definition's own refusable member is never reached.
    assert!(l.diagnostics.is_empty());
}

#[test]
fn a_kind_without_a_lowering_is_refused_with_its_subtree() {
    let star = with_children(node("star", "STAR"), vec![node("x", "FRAME"), node("y", "FRAME")]);
    let f = file(vec![node("first", "FRAME"), star]);
    let l = lower_with_bindings_and_policy(&f, Profile::Core, &no_images(), &[], EmitPolicy::Partial).unwrap();
    assert_eq!(names(&l), vec!["first"]);
    assert_eq!(l.diagnostics.len(), 2);
    assert_eq!(l.diagnostics[0].rule, UNSUPPORTED);
    assert_eq!(l.diagnostics[0].severity, Severity::Warning);
    assert_eq!(l.diagnostics[0].message, "node type STAR is not in the document vocabulary yet");
    assert_eq!(node_path(&l.diagnostics[0].at), (1, "/star".to_string()));
    assert_eq!(l.diagnostics[1].rule, SUBTREE_DROPPED);
    assert_eq!(l.diagnostics[1].severity, Severity::Warning);
    assert!(l.diagnostics[1].message.starts_with("this layer was refused, so the 2 layer(s) below it"));
    let strict = lower(&f, Profile::Core, &no_images()).unwrap();
    assert_eq!(strict.diagnostics[0].severity, Severity::Error);
    assert_eq!(strict.diagnostics[1].severity, Severity::Error);
}

#[test]
fn a_blocked_node_is_skipped_with_every_reason_and_its_children() {
    let mut blocked = with_children(node("card", "FRAME"), vec![node("inside", "FRAME")]);
    blocked.layout_positioning = Some("ABSOLUTE".to_string());
    blocked.item_reverse_z_index = Some(true);
    let f = file(vec![with_children(node("root", "FRAME"), vec![blocked, node("after", "FRAME")])]);
    let l = lower(&f, Profile::Core, &no_images()).unwrap();
    assert_eq!(names(&l), vec!["root", "after"]);
    let messages: Vec<&str> = l.diagnostics.iter().map(|d| d.message.as_str()).collect();
    assert_eq!(messages[0], "absolute positioning inside auto-layout is not in the document vocabulary yet");
    assert_eq!(messages[1], "reversed child paint order (itemReverseZIndex) is not in the document vocabulary yet");
    assert_eq!(l.diagnostics[2].rule, SUBTREE_DROPPED);
    assert_eq!(l.diagnostics.len(), 3);
    for d in &l.diagnostics {
        assert_eq!(d.severity, Severity::Error);
        assert_eq!(node_path(&d.at), (1, "/root/card".to_string()));
    }
    // The sibling after the skipped node takes the index the skipped one would have.
    assert_eq!(l.doc.nodes[1].parent, Some(0));
}

#[test]
fn a_file_with_no_root_is_refused() {
    let f = with_children(node("Document", "DOCUMENT"), vec![node("Page", "CANVAS")]);
    match lower(&f, Profile::Core, &no_images()) {
        Err(CompileError::Unsupported { path, what }) => {
            assert_eq!(path, "/");
            assert_eq!(what, "a document with no top-level node under any CANVAS");
        }
        other => panic!("{:?}", other.map(|l| names(&l))),
    }
}

#[test]
fn each_lowered_figma_id_is_recorded_with_its_path_and_fill_opacity() {
    let mut x1 = with_id(node("x", "RECTANGLE"), "1:3");
    x1.fills.push(solid(Some(0.5)));
    let x2 = with_id(node("x", "FRAME"), "1:4");
    let root = with_id(with_children(node("root", "FRAME"), vec![x1, x2]), "1:2");
    let l = lower(&file(vec![root]), Profile::Core, &no_images()).unwrap();
    let landed: Vec<(String, u32, String, u32)> =
        l.index_of_id.iter().map(|n| (n.node_id.clone(), n.index, n.path.clone(), n.fill_opacity)).collect();
    assert_eq!(
        landed,
        vec![
            ("1:2".to_string(), 0, "/root".to_string(), 1f32.to_bits()),
            ("1:3".to_string(), 1, "/root/x (1:3)".to_string(), 0.5f32.to_bits()),
            ("1:4".to_string(), 2, "/root/x (1:4)".to_string(), 1f32.to_bits()),
        ]
    );
}

#[test]
fn the_binding_rows_apply_to_the_nodes_they_name() {
    let root = with_id(node("root", "FRAME"), "1:2");
    let rows = vec![BoundVariable {
        node_id: "1:2".to_string(),
        property: "opacity".to_string(),
        signal: "fade/light".to_string(),
        value: BoundValue::Float(0.5f32.to_bits()),
    }];
    let l = lower_with_bindings(&file(vec![root]), Profile::Core, &no_images(), &rows).unwrap();
    assert_eq!(l.doc.signals.len(), 1);
    assert_eq!(l.doc.signals[0].name, "fade/light");
    assert_eq!(l.doc.bindings.len(), 1);
    assert_eq!(l.doc.bindings[0].node, 0);
    assert_eq!(l.doc.bindings[0].signal, 0);
}

#[test]
fn a_hidden_node_keeps_its_index_and_lowers_invisible() {
    let mut hidden = node("hidden", "FRAME");
    hidden.facts.visible = Some(false);
    hidden.facts.opacity = 0.25f32.to_bits();
    let l = lower(&file(vec![hidden, node("shown", "FRAME")]), Profile::Core, &no_images()).unwrap();
    assert_eq!(names(&l), vec!["hidden", "shown"]);
    assert!(!l.doc.nodes[0].visible);
    assert_eq!(l.doc.nodes[0].opacity, 0.25f32.to_bits());
    assert!(l.doc.nodes[1].visible);
}

fn label_style() -> dashc::figma::FigmaTextStyle {
    dashc::figma::FigmaTextStyle {
        font_family: "Inter".to_string(),
        font_size: 16f32.to_bits(),
        font_weight: None,
        font_style: Some("Regular".to_string()),
        text_align_horizontal: None,
        text_align_vertical: None,
        line_height_unit: Some("INTRINSIC_%".to_string()),
        line_height_px: Some(19f32.to_bits()),
        letter_spacing: None,
        text_decoration: Some("NONE".to_string()),
        text_case: Some("ORIGINAL".to_string()),
        text_auto_resize: "WIDTH_AND_HEIGHT".to_string(),
        hyperlink: false,
        opentype_flags: vec![],
    }
}

#[test]
fn a_text_node_lowers_its_characters_and_its_glyph_colour() {
    let mut label = node("label", "TEXT");
    label.characters = Some("Hello".to_string());
    label.style = Some(label_style());
    label.fills.push(solid(Some(0.5)));
    label.layout.text_auto_resize = Some("WIDTH_AND_HEIGHT".to_string());
    let faded = Color { r: 1f32.to_bits(), g: 0, b: 0, a: 0.5f32.to_bits() };
    label.facts.fill_colors = vec![Some(faded)];
    let root = with_children(node("root", "FRAME"), vec![label]);
    let l = lower(&file(vec![root]), Profile::Core, &no_images()).unwrap();
    assert!(l.diagnostics.is_empty(), "{:?}", l.diagnostics);
    let text = &l.doc.nodes[1];
    assert_eq!(text.text.as_deref(), Some("Hello"));
    let style = text.text_style.clone().expect("a styled label");
    assert_eq!(style.family, "Inter");
    assert_eq!(style.size, 16f32.to_bits());
    assert_eq!(style.weight, 400);
    assert_eq!(style.color, faded);
    // A hugging label carries no extent: the solver sizes it.
    assert_eq!(text.box2d.width, 0);
    assert_eq!(text.box2d.height, 0);
    // Its fill is the glyph colour, not a paint entry.
    assert!(text.paint.is_none());
    assert!(l.entries[1].is_none());
}

#[test]
fn a_circle_lowers_as_a_rounded_box_and_an_oval_is_refused() {
    let mut circle = node("dot", "ELLIPSE");
    circle.absolute_bounding_box = Some(Box2D { x: 0, y: 0, width: 20f32.to_bits(), height: 20f32.to_bits() });
    circle.fills.push(solid(None));
    circle.facts.ellipse.radius = 10f32.to_bits();
    let mut oval = node("oval", "ELLIPSE");
    oval.fills.push(solid(None));
    oval.facts.ellipse.circular = false;
    let l = lower(&file(vec![circle, oval]), Profile::Core, &no_images()).unwrap();
    assert_eq!(names(&l), vec!["dot"]);
    let entry = l.entries[0].as_ref().expect("a painted circle");
    assert_eq!(entry.corners.top_left, 10f32.to_bits());
    assert_eq!(entry.corners.bottom_right, 10f32.to_bits());
    assert_eq!(l.doc.nodes[0].paint.clone().unwrap().fill, Some(FillKind::Solid(red())));
    assert_eq!(l.diagnostics.len(), 1);
    assert_eq!(
        l.diagnostics[0].message,
        "a non-circular ellipse (unequal extents) is not in the document vocabulary yet"
    );
    assert_eq!(node_path(&l.diagnostics[0].at), (1, "/oval".to_string()));
}

#[test]
fn a_flex_child_sits_at_the_origin_of_its_slot() {
    let mut row = node("row", "FRAME");
    row.layout.layout_mode = Some("HORIZONTAL".to_string());
    let mut cell = node("cell", "FRAME");
    cell.facts.offset_in_parent = Some((30f32.to_bits(), 5f32.to_bits()));
    let l = lower(&file(vec![with_children(row, vec![cell])]), Profile::Core, &no_images()).unwrap();
    assert!(l.diagnostics.is_empty(), "{:?}", l.diagnostics);
    assert!(l.doc.nodes[0].container.is_some());
    assert_eq!(l.doc.nodes[1].box2d.x, 0);
    assert_eq!(l.doc.nodes[1].box2d.y, 0);
    assert_eq!(l.doc.nodes[1].parent, Some(0));
}

#[test]
fn a_file_of_definitions_only_is_refused_as_no_content() {
    let f = file(vec![node("Button", "COMPONENT")]);
    for policy in [EmitPolicy::Strict, EmitPolicy::Partial] {
        let l = lower_with_bindings_and_policy(&f, Profile::Core, &no_images(), &[], policy).unwrap();
        assert!(l.doc.nodes.is_empty());
        assert!(l.diagnostics.is_empty());
        let d = l.no_content.expect("the refusal is owed");
        assert_eq!(d.rule, "figma.no-content");
        assert_eq!(d.severity, Severity::Error);
        assert_eq!(node_path(&d.at), (0, "/".to_string()));
        assert_eq!(
            d.message,
            "the document lowered to no content: its only top-level nodes are component definitions (Button (COMPONENT)), which resolve but do not paint"
        );
    }
}

#[test]
fn an_unsupported_only_root_owes_no_content_only_where_it_is_a_warning() {
    let f = file(vec![node("line", "LINE")]);
    let strict = lower_with_bindings_and_policy(&f, Profile::Core, &no_images(), &[], EmitPolicy::Strict).unwrap();
    assert!(strict.doc.nodes.is_empty());
    assert_eq!(strict.diagnostics[0].rule, UNSUPPORTED);
    assert_eq!(strict.diagnostics[0].severity, Severity::Error);
    assert_eq!(strict.diagnostics[0].message, "node type LINE is not in the document vocabulary yet");
    assert_eq!(node_path(&strict.diagnostics[0].at), (0, "/line".to_string()));
    assert!(strict.no_content.is_none());
    let partial = lower_with_bindings_and_policy(&f, Profile::Core, &no_images(), &[], EmitPolicy::Partial).unwrap();
    assert!(partial.doc.nodes.is_empty());
    assert_eq!(partial.diagnostics[0].severity, Severity::Warning);
    let d = partial.no_content.expect("nothing else withholds the document");
    assert_eq!(d.severity, Severity::Error);
    assert_eq!(d.message, "the document lowered to no content");
}

#[test]
fn a_figma_id_lowered_twice_names_its_last_node() {
    let a = with_id(node("a", "FRAME"), "1:5");
    let b = with_id(node("b", "FRAME"), "1:5");
    let l = lower(&file(vec![a, b]), Profile::Core, &no_images()).unwrap();
    let landed: Vec<(String, u32)> = l.index_of_id.iter().map(|n| (n.node_id.clone(), n.index)).collect();
    assert_eq!(landed, vec![("1:5".to_string(), 1)]);
}

/// A two-member set whose members' `dot` layers sit `dx` apart, and an
/// instance of the first member.
fn set_and_instance(second_dot_kind: &str) -> FigmaNode {
    let mut dot_a = with_id(node("dot", "RECTANGLE"), "1:3");
    dot_a.facts.props_offset = Some((0, 0));
    let mut dot_b = with_id(node("dot", second_dot_kind), "1:4");
    dot_b.facts.props_offset = Some((10f32.to_bits(), 0));
    let a = with_children(with_id(node("A", "COMPONENT"), "1:1"), vec![dot_a]);
    let b = with_children(with_id(node("B", "COMPONENT"), "1:2"), vec![dot_b]);
    let set = with_children(with_id(node("Toggle", "COMPONENT_SET"), "1:0"), vec![a, b]);
    let baked_dot = with_id(node("dot", "RECTANGLE"), "I2:1;1:3");
    let mut instance = with_children(with_id(node("toggle", "INSTANCE"), "2:1"), vec![baked_dot]);
    instance.component_id = Some("1:1".to_string());
    file(vec![set, instance])
}

#[test]
fn an_instance_of_a_set_lowers_a_variant_table() {
    let l = lower(&set_and_instance("RECTANGLE"), Profile::Core, &no_images()).unwrap();
    assert_eq!(names(&l), vec!["toggle", "dot"]);
    assert!(l.variants.is_empty());
    assert!(l.no_content.is_none());
    assert_eq!(l.doc.variant_sets.len(), 1);
    let set = &l.doc.variant_sets[0];
    assert_eq!(set.active_member, 0);
    assert_eq!(set.members.len(), 2);
    assert_eq!(set.members[0].name.as_deref(), Some("A"));
    assert!(set.members[0].overrides.is_empty());
    assert_eq!(set.members[1].name.as_deref(), Some("B"));
    assert_eq!(set.members[1].overrides.len(), 1);
    assert_eq!(set.members[1].overrides[0].node, 1);
    assert_eq!(set.members[1].overrides[0].value, dashc::document::VariantValue::X(10f32.to_bits()));
    assert!(set.members[1].transition.is_none());
}

#[test]
fn a_set_whose_members_differ_in_kind_lowers_no_table_and_says_why() {
    let l = lower(&set_and_instance("ELLIPSE"), Profile::Core, &no_images()).unwrap();
    assert!(l.doc.variant_sets.is_empty());
    assert_eq!(l.variants.len(), 1);
    match &l.variants[0] {
        dashc::variants::VariantFinding::Note(d) => {
            assert_eq!(d.rule, "figma.variants.unlowerable-set");
            assert_eq!(d.severity, Severity::Warning);
            assert_eq!(node_path(&d.at), (0, "/Toggle".to_string()));
            assert_eq!(
                d.message,
                "members \"A\" and \"B\" differ in node type on \"dot\", which no variant override can express, so this component set lowers no variant table; its instances still paint the member they show"
            );
        }
        _ => panic!("a note"),
    }
}

fn change_to(destination: &str) -> dashc::prototype::Interaction {
    dashc::prototype::Interaction {
        trigger: Some(dashc::prototype::Trigger { kind: "ON_CLICK".to_string() }),
        actions: vec![dashc::prototype::Action {
            kind: "NODE".to_string(),
            destination_id: Some(destination.to_string()),
            navigation: Some("CHANGE_TO".to_string()),
            transition: None,
        }],
    }
}

#[test]
fn a_switch_into_no_set_is_an_error_only_under_strict() {
    let mut button = with_id(node("button", "FRAME"), "3:1");
    button.interactions = vec![change_to("9:9")];
    let f = file(vec![button]);
    let expected = "a CHANGE_TO names destination 9:9, and this layer belongs to no component set, so the switch lowers nowhere";
    for (policy, severity) in [(EmitPolicy::Strict, Severity::Error), (EmitPolicy::Partial, Severity::Warning)] {
        let l = lower_with_bindings_and_policy(&f, Profile::Core, &no_images(), &[], policy).unwrap();
        assert_eq!(l.variants.len(), 1);
        match &l.variants[0] {
            dashc::variants::VariantFinding::Note(d) => {
                assert_eq!(d.rule, "figma.prototype.unsupported-interaction");
                assert_eq!(d.severity, severity);
                assert_eq!(d.message, expected);
                assert_eq!(node_path(&d.at), (0, "/button".to_string()));
            }
            _ => panic!("a note"),
        }
        assert!(l.no_content.is_none());
    }
}

#[test]
fn an_image_fill_admits_its_image_with_the_header_extent() {
    let images = vec![IdentifiedImage {
        entry: ImageEntry { image_ref: "abc".to_string(), asset: ImageAsset { format: ImageFormat::Png, bytes: vec![7, 7] } },
        header: ImageHeader::Read { format: ImageFormat::Png, width: 2, height: 3 },
    }];
    let mut hero = node("hero", "FRAME");
    let mut fill = solid(None);
    fill.kind = "IMAGE".to_string();
    fill.color = None;
    fill.image_ref = Some("abc".to_string());
    fill.scale_mode = Some("FILL".to_string());
    hero.fills.push(fill);
    let l = lower(&file(vec![hero]), Profile::Core, &images).unwrap();
    assert_eq!(l.doc.assets.len(), 1);
    let a = &l.doc.assets[0];
    assert_eq!(a.format, ImageFormat::Png);
    assert_eq!(a.kind, dashc::document::AssetKind::Image);
    assert_eq!(a.bytes, vec![7, 7]);
    assert_eq!((a.width, a.height), (2, 3));
    assert_eq!(l.image_of, vec![("abc".to_string(), 0)]);
}

#[test]
fn an_instance_whose_layer_moved_from_its_member_is_refused_with_both_values() {
    let mut f = set_and_instance("RECTANGLE");
    let canvas = &mut f.children[0];
    canvas.children[1].children[0].facts.offset_in_parent = Some((5f32.to_bits(), 0));
    let l = lower(&f, Profile::Core, &no_images()).unwrap();
    assert!(l.doc.variant_sets.is_empty());
    assert_eq!(l.variants.len(), 1);
    match &l.variants[0] {
        dashc::variants::VariantFinding::Refused { at, key, prop, lowered, authored, member } => {
            assert_eq!(node_path(at), (0, "/toggle".to_string()));
            assert_eq!(key, "dot");
            assert_eq!(*prop, dashc::tweens::Prop::X);
            assert_eq!(*lowered, 5f32.to_bits());
            assert_eq!(*authored, 0);
            assert_eq!(member, "A");
            let d = dashc::variants::refused_diagnostic(at.clone(), key, *prop, "5", "0", member);
            assert_eq!(d.rule, "figma.variants.unlowerable-set");
            assert_eq!(d.severity, Severity::Warning);
            assert_eq!(
                d.message,
                "the instance's \"dot\" lowered x 5, and the member it shows (\"A\") authors 0 \u{2014} an instance-level override the variant table cannot express, so this instance lowers no variant table; its baked subtree still paints"
            );
        }
        _ => panic!("a refused instance"),
    }
}

#[test]
fn a_switch_declared_on_a_member_animates_every_instance_table() {
    let mut f = set_and_instance("RECTANGLE");
    let mut switch = change_to("1:2");
    switch.actions[0].transition = Some(dashc::prototype::Transition {
        kind: "SMART_ANIMATE".to_string(),
        easing: Some(dashc::prototype::TransitionEasing { kind: "EASE_IN".to_string() }),
        duration: Some(0.3f32.to_bits()),
    });
    f.children[0].children[0].children[0].interactions = vec![switch];
    let l = lower(&f, Profile::Core, &no_images()).unwrap();
    assert!(l.variants.is_empty());
    assert_eq!(l.doc.variant_sets.len(), 1);
    let set = &l.doc.variant_sets[0];
    assert!(set.members[0].transition.is_none());
    let t = set.members[1].transition.as_ref().expect("the switch to B animates");
    assert_eq!(t.stagger, 0);
    assert_eq!(t.tracks.len(), 1);
    assert_eq!(t.tracks[0].node, 1);
    assert_eq!(t.tracks[0].channel, dashc::document::BindingChannel::X);
    assert_eq!(
        t.tracks[0].spec,
        dashc::document::TransitionSpec::Tween { duration: 0.3f32.to_bits(), easing: dashc::prototype::Easing::EaseIn }
    );
}
