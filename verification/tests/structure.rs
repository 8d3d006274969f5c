use dashc::document::Box2D;
use dashc::figma::{ComparedFields, FigmaLayout, FigmaNode, FigmaPaint, Geometry, Handedness, Json, JsonMember};
use dashc::structure::differs_beyond_overrides;

fn layer(kind: &str) -> FigmaNode {
    FigmaNode {
        id: None,
        name: "bar".to_string(),
        kind: kind.to_string(),
        children: vec![],
        fills: vec![],
        strokes: vec![],
        effects: vec![],
        blend_mode: None,
        corner_smoothing: None,
        layout: FigmaLayout::default(),
        absolute_bounding_box: Some(Box2D { x: 0, y: 0, width: 0, height: 0 }),
        rotation: None,
        size: None,
        is_mask: None,
        mask_type: None,
        section_contents_hidden: None,
        layout_positioning: None,
        strokes_included_in_layout: None,
        item_reverse_z_index: None,
        complex_stroke_properties: None,
        stroke_dashes: None,
        stroke_align: None,
        characters: None,
        style: None,
        style_overrides: 0,
        component_id: None,
        compared: ComparedFields::none(),
        facts: dashc::figma::WalkFacts::plain(),
        interactions: vec![],
    }
}

fn stroke(kind: &str) -> FigmaPaint {
    FigmaPaint {
        kind: kind.to_string(),
        blend_mode: None,
        visible: None,
        opacity: None,
        image_ref: None,
        color: None,
        gradient_handle_positions: vec![],
        gradient_stops: vec![],
        scale_mode: None,
        image_transform: None,
        scaling_factor: None,
    }
}

#[test]
fn matching_layers_differ_in_nothing_an_override_cannot_carry() {
    let (mut a, mut b) = (layer("FRAME"), layer("FRAME"));
    // Box, fills and visibility are overridable and not compared here.
    a.absolute_bounding_box = None;
    b.fills.push(stroke("SOLID"));
    assert_eq!(differs_beyond_overrides(&a, &b, true), None);
}

#[test]
fn the_first_difference_in_order_is_named() {
    let (a, mut b) = (layer("FRAME"), layer("FRAME"));
    b.compared.clips_content = true;
    b.strokes.push(stroke("SOLID"));
    assert_eq!(differs_beyond_overrides(&a, &b, true), Some("their strokes"));
    assert_eq!(differs_beyond_overrides(&a, &layer("TEXT"), true), Some("node type"));
    let mut c = layer("FRAME");
    c.compared.clips_content = true;
    assert_eq!(differs_beyond_overrides(&a, &c, true), Some("clip"));
}

#[test]
fn a_mirror_is_named_only_where_the_angle_is_not_carried() {
    let (mut a, b) = (layer("FRAME"), layer("FRAME"));
    a.compared.handedness = Some(Handedness::Mirrored);
    assert_eq!(differs_beyond_overrides(&a, &b, false), Some("their mirroring"));
    assert_eq!(differs_beyond_overrides(&a, &b, true), None);
    a.compared.handedness = Some(Handedness::Collapsed);
    assert_eq!(differs_beyond_overrides(&a, &b, false), Some("whether their transform has any area at all"));
    a.compared.handedness = Some(Handedness::Upright);
    assert_eq!(differs_beyond_overrides(&a, &b, false), None);
}

#[test]
fn lengths_compare_as_floats() {
    let (mut a, mut b) = (layer("FRAME"), layer("FRAME"));
    a.compared.opacity = Some(0.0f32.to_bits());
    b.compared.opacity = Some((-0.0f32).to_bits());
    assert_eq!(differs_beyond_overrides(&a, &b, true), None);
    a.compared.opacity = Some(f32::NAN.to_bits());
    b.compared.opacity = Some(f32::NAN.to_bits());
    assert_eq!(differs_beyond_overrides(&a, &b, true), Some("opacity"));
}

#[test]
fn geometry_counts_only_on_a_vector() {
    let (mut a, b) = (layer("FRAME"), layer("FRAME"));
    a.compared.fill_geometry.push(Geometry { path: "M 0 0 L 64 0 Z".to_string(), winding_rule: None });
    assert_eq!(differs_beyond_overrides(&a, &b, true), None);
    a.kind = "VECTOR".to_string();
    let mut b = b;
    b.kind = "VECTOR".to_string();
    assert_eq!(differs_beyond_overrides(&a, &b, true), Some("their vector geometry"));
}

#[test]
fn per_character_styles_compare_as_json() {
    let (mut a, mut b) = (layer("TEXT"), layer("TEXT"));
    a.compared.style_override_table.push(JsonMember { key: "1".to_string(), value: Json::PosInt(1) });
    b.compared.style_override_table.push(JsonMember { key: "1".to_string(), value: Json::Float(1.0f64.to_bits()) });
    assert_eq!(differs_beyond_overrides(&a, &b, true), Some("their per-character styles"));
    b.compared.style_override_table[0].value = Json::PosInt(1);
    assert_eq!(differs_beyond_overrides(&a, &b, true), None);
}
