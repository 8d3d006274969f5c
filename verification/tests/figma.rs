use dashc::document::{
    AxisSizing, CrossAxisAlign, EdgeInsets, GridTrack, LayoutConstraints, LayoutMode, MainAxisAlign,
};
use dashc::figma::{
    depth_refusal, image_refs, top_level_nodes, CompileError, MAX_JSON_DEPTH,
    constraints_of, container_of, disambiguated_segments, grid_tracks_of, json_depth,
    split_top_level_whitespace, text_sizing, track_shape, uniform_winding, FigmaLayout, FigmaNode,
    Flow, Geometry, GridToken, TrackShape,
};
use dashc::vector::{vector_field_blocker, Tokenizer, VectorFieldError, WindingRule};

fn some(s: &str) -> Option<String> {
    Some(s.to_string())
}

fn bits(v: f32) -> u32 {
    v.to_bits()
}

#[test]
fn depth_counts_nesting_outside_strings() {
    assert_eq!(json_depth(""), 0);
    assert_eq!(json_depth("{}"), 1);
    assert_eq!(json_depth("{\"a\":[1,{\"b\":[]}]}"), 4);
    assert_eq!(json_depth("{\"a\":\"{[{[\"}"), 1, "braces in a string do not nest");
    assert_eq!(json_depth("{\"a\":\"\\\"{\"}"), 1, "an escaped quote does not end the string");
    assert_eq!(json_depth("]]]{"), 1, "a closer at depth zero stays at zero");
    let deep = "[".repeat(300);
    assert_eq!(json_depth(&deep), 300);
}

#[test]
fn tracks_split_on_top_level_whitespace() {
    assert_eq!(
        split_top_level_whitespace("160px minmax(0, 1fr)  minmax(0,1fr)"),
        vec!["160px", "minmax(0, 1fr)", "minmax(0,1fr)"]
    );
    assert_eq!(split_top_level_whitespace("   "), Vec::<String>::new());
    assert_eq!(split_top_level_whitespace("a\u{3000}b"), vec!["a", "b"]);
}

#[test]
fn track_tokens_have_three_shapes() {
    assert!(matches!(track_shape("160px"), TrackShape::Length(n) if n == "160"));
    assert!(matches!(track_shape(" 12.5 px"), TrackShape::Length(n) if n == "12.5"));
    match track_shape("minmax(0px, 2fr)") {
        TrackShape::Fraction { minimum, weight } => {
            assert_eq!(minimum, "0");
            assert_eq!(weight, "2");
        }
        other => panic!("{other:?}"),
    }
    match track_shape("minmax( 0% ,1 fr)") {
        TrackShape::Fraction { minimum, weight } => {
            assert_eq!(minimum, "0");
            assert_eq!(weight, "1");
        }
        other => panic!("{other:?}"),
    }
    assert!(matches!(track_shape("auto"), TrackShape::Unlowerable));
    assert!(matches!(track_shape("1fr"), TrackShape::Unlowerable));
    assert!(matches!(track_shape("minmax(0, 100)"), TrackShape::Unlowerable));
    assert!(matches!(track_shape("minmax(0 1fr)"), TrackShape::Unlowerable));
}

fn token(text: &str, track: Option<GridTrack>) -> GridToken {
    GridToken { text: text.to_string(), track }
}

#[test]
fn an_unlowerable_track_is_named() {
    let sizing = Some(vec![
        token("160px", Some(GridTrack::Fixed(bits(160.0)))),
        token("auto", None),
        token("minmax(0,1fr)", Some(GridTrack::Fraction(bits(1.0)))),
    ]);
    let mut blockers = vec![];
    let tracks = grid_tracks_of(LayoutMode::Grid, &sizing, &mut blockers);
    assert_eq!(tracks, vec![GridTrack::Fixed(bits(160.0)), GridTrack::Fraction(bits(1.0))]);
    assert_eq!(blockers, vec!["an unsupported grid track (auto)"]);
    let mut blockers = vec![];
    assert!(grid_tracks_of(LayoutMode::Horizontal, &sizing, &mut blockers).is_empty());
    assert!(blockers.is_empty());
}

#[test]
fn no_layout_mode_is_no_container() {
    let mut blockers = vec![];
    assert!(container_of(&FigmaLayout::default(), &mut blockers).is_none());
    let mut layout = FigmaLayout::default();
    layout.layout_mode = some("NONE");
    assert!(container_of(&layout, &mut blockers).is_none());
    assert!(blockers.is_empty());
    layout.layout_mode = some("SPIRAL");
    assert!(container_of(&layout, &mut blockers).is_none());
    assert_eq!(blockers, vec!["auto-layout (SPIRAL)"]);
}

#[test]
fn a_horizontal_frame_lowers_its_gap_padding_and_alignment() {
    let mut layout = FigmaLayout::default();
    layout.layout_mode = some("HORIZONTAL");
    layout.item_spacing = Some(bits(12.0));
    layout.counter_axis_spacing = Some(bits(4.0));
    layout.padding_left = Some(bits(8.0));
    layout.primary_axis_align_items = some("SPACE_BETWEEN");
    layout.counter_axis_align_items = some("BASELINE");
    let mut blockers = vec![];
    let c = container_of(&layout, &mut blockers).expect("a container");
    assert!(blockers.is_empty());
    assert_eq!(c.mode, LayoutMode::Horizontal);
    assert_eq!(c.gap, bits(12.0));
    assert_eq!(c.cross_gap, None, "a row's cross gap follows its main gap");
    assert_eq!(c.padding, EdgeInsets { left: bits(8.0), top: 0, right: 0, bottom: 0 });
    assert_eq!(c.main_align, MainAxisAlign::SpaceBetween);
    assert_eq!(c.cross_align, CrossAxisAlign::Baseline);
}

#[test]
fn a_wrapping_row_refuses_negative_gaps_and_line_distribution() {
    let mut layout = FigmaLayout::default();
    layout.layout_mode = some("HORIZONTAL");
    layout.layout_wrap = some("WRAP");
    layout.item_spacing = Some(bits(-4.0));
    layout.counter_axis_spacing = Some(bits(-2.0));
    layout.counter_axis_align_content = some("SPACE_BETWEEN");
    let mut blockers = vec![];
    let c = container_of(&layout, &mut blockers).expect("a container");
    assert_eq!(c.mode, LayoutMode::Wrap);
    assert_eq!(c.cross_gap, Some(bits(-2.0)));
    assert_eq!(
        blockers,
        vec![
            "wrap line distribution (counterAxisAlignContent SPACE_BETWEEN)",
            "a wrapping row with a negative gap (layoutWrap WRAP + negative itemSpacing)",
            "a wrapping row with a negative cross gap (layoutWrap WRAP + negative counterAxisSpacing)",
        ]
    );
}

#[test]
fn wrap_on_a_column_and_unknown_alignments_are_named() {
    let mut layout = FigmaLayout::default();
    layout.layout_mode = some("VERTICAL");
    layout.layout_wrap = some("WRAP");
    layout.item_spacing = Some(bits(-4.0));
    layout.primary_axis_align_items = some("STRETCH");
    layout.counter_axis_align_items = some("STRETCH");
    let mut blockers = vec![];
    let c = container_of(&layout, &mut blockers).expect("a container");
    assert_eq!(c.mode, LayoutMode::Vertical);
    assert_eq!(c.gap, bits(-4.0), "a column's negative gap lowers as a leading margin later");
    assert_eq!(
        blockers,
        vec![
            "wrapping auto-layout (WRAP) on a non-horizontal frame",
            "main-axis alignment STRETCH",
            "cross-axis alignment STRETCH",
        ]
    );
}

#[test]
fn a_grid_reads_its_per_axis_gaps_and_tracks() {
    let mut layout = FigmaLayout::default();
    layout.layout_mode = some("GRID");
    layout.item_spacing = Some(bits(99.0));
    layout.grid_column_gap = Some(bits(-1.0));
    layout.grid_row_gap = Some(bits(6.0));
    layout.grid_columns_sizing = Some(vec![token("160px", Some(GridTrack::Fixed(bits(160.0))))]);
    let mut blockers = vec![];
    let c = container_of(&layout, &mut blockers).expect("a container");
    assert_eq!(c.mode, LayoutMode::Grid);
    assert_eq!(c.gap, bits(-1.0));
    assert_eq!(c.cross_gap, Some(bits(6.0)));
    assert!(c.grid_rows.is_empty(), "an absent string is implicit auto tracks");
    assert_eq!(c.grid_columns, vec![GridTrack::Fixed(bits(160.0))]);
    assert_eq!(blockers, vec!["a grid with a negative column gap (negative gridColumnGap)"]);
}

#[test]
fn default_constraints_are_absent() {
    let mut blockers = vec![];
    assert_eq!(constraints_of(&FigmaLayout::default(), None, &mut blockers), None);
    let flow = Flow { horizontal: true, leading_margin: bits(-0.0), parent_hugs_h: false, parent_hugs_v: false };
    assert_eq!(constraints_of(&FigmaLayout::default(), Some(&flow), &mut blockers), None);
    assert!(blockers.is_empty());
}

#[test]
fn a_fill_child_on_a_hug_axis_is_refused_per_axis() {
    let mut layout = FigmaLayout::default();
    layout.layout_sizing_horizontal = some("FILL");
    layout.layout_sizing_vertical = some("FILL");
    let flow = Flow { horizontal: false, leading_margin: bits(-8.0), parent_hugs_h: true, parent_hugs_v: true };
    let mut blockers = vec![];
    let c = constraints_of(&layout, Some(&flow), &mut blockers).expect("constraints");
    assert_eq!(c.sizing_h, AxisSizing::Fill);
    assert_eq!(c.margin, EdgeInsets { left: 0, top: bits(-8.0), right: 0, bottom: 0 });
    assert_eq!(
        blockers,
        vec![
            "a Fill child on its parent's hug axis (horizontal)",
            "a Fill child on its parent's hug axis (vertical)",
        ]
    );
}

#[test]
fn an_unknown_sizing_is_named_and_spans_default_to_one() {
    let mut layout = FigmaLayout::default();
    layout.layout_sizing_horizontal = some("STRETCH");
    layout.grid_row_anchor_index = Some(2);
    let mut blockers = vec![];
    let c = constraints_of(&layout, None, &mut blockers).expect("constraints");
    assert_eq!(c.sizing_h, AxisSizing::Fixed);
    assert_eq!(c.grid_row, Some(2));
    assert_eq!((c.grid_row_span, c.grid_column_span), (1, 1));
    assert_eq!(blockers, vec!["horizontal sizing STRETCH"]);
}

#[test]
fn text_sizing_reconciles_the_two_encodings() {
    let mut layout = FigmaLayout::default();
    assert_eq!(text_sizing(&layout, None), None, "an absent textAutoResize fixes the box");
    layout.text_auto_resize = some("WIDTH_AND_HEIGHT");
    let c = text_sizing(&layout, None).expect("hug both");
    assert_eq!((c.sizing_h, c.sizing_v), (AxisSizing::Hug, AxisSizing::Hug));
    layout.text_auto_resize = some("HEIGHT");
    let c = text_sizing(&layout, None).expect("hug height");
    assert_eq!((c.sizing_h, c.sizing_v), (AxisSizing::Fixed, AxisSizing::Hug));
    layout.layout_sizing_vertical = some("FIXED");
    assert_eq!(text_sizing(&layout, None), None, "the layoutSizing pair wins");
    let from: LayoutConstraints = LayoutConstraints::default();
    assert_eq!(text_sizing(&layout, Some(from)), Some(from));
}

fn geometry(rule: Option<&str>) -> Geometry {
    Geometry { path: "M 0 0 L 1 0 L 1 1 Z".to_string(), winding_rule: rule.map(str::to_string) }
}

#[test]
fn contours_share_one_winding_rule_or_are_refused() {
    assert_eq!(uniform_winding(&[geometry(None), geometry(Some("NONZERO"))]), Ok(WindingRule::NonZero));
    assert_eq!(uniform_winding(&[geometry(Some("EVENODD"))]), Ok(WindingRule::EvenOdd));
    assert_eq!(
        uniform_winding(&[geometry(None), geometry(Some("EVENODD"))]),
        Err("a vector with mixed per-contour winding rules".to_string())
    );
    assert_eq!(
        uniform_winding(&[geometry(Some("SPIRAL")), geometry(Some("EVENODD"))]),
        Err("a vector with winding rule SPIRAL".to_string())
    );
}

fn figma_node(name: &str, id: Option<&str>) -> FigmaNode {
    FigmaNode {
        id: id.map(str::to_string),
        name: name.to_string(),
        kind: "FRAME".to_string(),
        children: vec![],
        fills: vec![],
        strokes: vec![],
        effects: vec![],
        blend_mode: None,
        corner_smoothing: None,
        layout: FigmaLayout::default(),
        absolute_bounding_box: None,
        rotation: None,
        size: None,
        is_mask: None,
        mask_type: None,
        section_contents_hidden: None,
        layout_positioning: None,
        strokes_included_in_layout: None,
        item_reverse_z_index: None,
        complex_stroke_properties: None,
        stroke_dashes: None,
        stroke_align: None,
        characters: None,
        style: None,
        style_overrides: 0,
        component_id: None,
        compared: dashc::figma::ComparedFields::none(),
        facts: dashc::figma::WalkFacts::plain(),
        interactions: vec![],
    }
}

#[test]
fn same_named_siblings_are_disambiguated() {
    let a = figma_node("card", Some("1:2"));
    let b = figma_node("card", Some("1:3"));
    let c = figma_node("label", None);
    let d = figma_node("dot", None);
    let e = figma_node("dot", None);
    assert_eq!(
        disambiguated_segments(&[&a, &b, &c, &d, &e]),
        vec!["card (1:2)", "card (1:3)", "label", "dot (#3)", "dot (#4)"]
    );
}

#[test]
fn vector_refusals_are_named() {
    assert_eq!(
        vector_field_blocker(&VectorFieldError::UnsupportedCommand('A')),
        "a vector path command 'A' (census is M/L/C/Z)"
    );
    assert_eq!(
        vector_field_blocker(&VectorFieldError::MalformedPath("L before M".to_string())),
        "a malformed vector path (L before M)"
    );
    assert_eq!(
        vector_field_blocker(&VectorFieldError::DegenerateGeometry),
        "a degenerate vector (no fillable extent)"
    );
}

#[test]
fn the_tokenizer_reads_commands_and_number_tokens() {
    let mut tok = Tokenizer::new("M0 0, L -1.5e+2 .5\nZ");
    assert_eq!(tok.next_command().ok(), Some(Some('M')));
    assert!(tok.has_number());
    assert_eq!(tok.number(), "0");
    assert_eq!(tok.number(), "0");
    assert!(!tok.has_number());
    assert_eq!(tok.next_command().ok(), Some(Some('L')));
    assert_eq!(tok.number(), "-1.5e+2");
    assert_eq!(tok.number(), ".5");
    assert_eq!(tok.next_command().ok(), Some(Some('Z')));
    assert_eq!(tok.next_command().ok(), Some(None));
    let mut bad = Tokenizer::new("5");
    match bad.next_command() {
        Err(VectorFieldError::MalformedPath(m)) => assert_eq!(m, "expected a command, found '5'"),
        other => panic!("{other:?}"),
    }
}

fn image_paint(image_ref: Option<&str>) -> dashc::figma::FigmaPaint {
    dashc::figma::FigmaPaint {
        kind: "IMAGE".to_string(),
        blend_mode: None,
        visible: None,
        image_ref: image_ref.map(str::to_string),
        color: None,
        opacity: None,
        gradient_handle_positions: vec![],
        gradient_stops: vec![],
        scale_mode: None,
        image_transform: None,
        scaling_factor: None,
    }
}

fn with_kind(mut n: FigmaNode, kind: &str) -> FigmaNode {
    n.kind = kind.to_string();
    n
}

#[test]
fn image_refs_are_every_image_paint_under_every_canvas_sorted_once() {
    let mut leaf = figma_node("leaf", None);
    leaf.strokes.push(image_paint(Some("b")));
    leaf.fills.push(image_paint(Some("a")));
    let mut card = figma_node("card", None);
    card.fills.push(image_paint(Some("c")));
    card.fills.push(image_paint(None));
    let mut solid = image_paint(Some("z"));
    solid.kind = "SOLID".to_string();
    card.fills.push(solid);
    card.children.push(leaf);
    let mut other = figma_node("other", None);
    other.fills.push(image_paint(Some("a")));
    let mut canvas1 = with_kind(figma_node("page 1", None), "CANVAS");
    canvas1.children.push(card);
    let mut canvas2 = with_kind(figma_node("page 2", None), "CANVAS");
    canvas2.children.push(other);
    let mut stray = figma_node("not a canvas", None);
    stray.fills.push(image_paint(Some("q")));
    let mut stray_child = figma_node("inside", None);
    stray_child.fills.push(image_paint(Some("r")));
    stray.children.push(stray_child);
    let mut document = with_kind(figma_node("Document", None), "DOCUMENT");
    document.children = vec![canvas1, stray, canvas2];

    assert_eq!(top_level_nodes(&document).expect("two roots").len(), 2);
    assert_eq!(image_refs(&document).expect("refs"), vec!["a", "b", "c"]);
}

#[test]
fn a_document_with_no_top_level_node_is_refused() {
    let mut document = with_kind(figma_node("Document", None), "DOCUMENT");
    document.children.push(with_kind(figma_node("empty page", None), "CANVAS"));
    match top_level_nodes(&document) {
        Err(CompileError::Unsupported { path, what }) => {
            assert_eq!(path, "/");
            assert_eq!(what, "a document with no top-level node under any CANVAS");
        }
        other => panic!("{other:?}"),
    }
    assert!(matches!(image_refs(&document), Err(CompileError::Unsupported { .. })));
}

#[test]
fn a_file_nested_too_deep_is_refused_by_name() {
    assert_eq!(depth_refusal(&"[".repeat(MAX_JSON_DEPTH)), None);
    assert_eq!(
        depth_refusal(&"[".repeat(MAX_JSON_DEPTH + 1)),
        Some("the file nests 257 JSON levels deep; the limit is 256".to_string())
    );
}
