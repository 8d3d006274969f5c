use dashc::diagnostics::Construct;
use dashc::figma::{FigmaEffect, FigmaLayout, FigmaNode, FigmaPaint};
use dashc::triage::{constructs_of, effect_construct, is_plain_blend};

fn node(name: &str) -> FigmaNode {
    FigmaNode {
        id: None,
        name: name.to_string(),
        kind: "FRAME".to_string(),
        children: vec![],
        fills: vec![],
        strokes: vec![],
        effects: vec![],
        blend_mode: None,
        corner_smoothing: None,
        layout: FigmaLayout::default(),
        absolute_bounding_box: None,
        rotation: None,
        size: None,
        is_mask: None,
        mask_type: None,
        section_contents_hidden: None,
        layout_positioning: None,
        strokes_included_in_layout: None,
        item_reverse_z_index: None,
        complex_stroke_properties: None,
        stroke_dashes: None,
        stroke_align: None,
        characters: None,
        style: None,
        style_overrides: 0,
        component_id: None,
        compared: dashc::figma::ComparedFields::none(),
        facts: dashc::figma::WalkFacts::plain(),
        interactions: vec![],
    }
}

fn effect(kind: &str, visible: Option<bool>, blend_mode: Option<&str>) -> FigmaEffect {
    FigmaEffect {
        kind: kind.to_string(),
        visible,
        blur_type: None,
        blend_mode: blend_mode.map(str::to_string),
        color: None,
        offset: None,
        radius: None,
        spread: None,
    }
}

fn paint(kind: &str, visible: Option<bool>, blend_mode: Option<&str>) -> FigmaPaint {
    FigmaPaint {
        kind: kind.to_string(),
        blend_mode: blend_mode.map(str::to_string),
        visible,
        image_ref: None,
        color: None,
        opacity: None,
        gradient_handle_positions: vec![],
        gradient_stops: vec![],
        scale_mode: None,
        image_transform: None,
        scaling_factor: None,
    }
}

#[test]
fn a_drop_or_inner_shadow_lowers_and_is_no_diagnostic() {
    for kind in ["DROP_SHADOW", "INNER_SHADOW"] {
        let mut n = node("card");
        n.effects.push(effect(kind, Some(true), None));
        assert_eq!(constructs_of(&n), (vec![], vec![]), "{kind} lowers");
    }
}

#[test]
fn a_shadow_with_an_advanced_blend_mode_is_an_advanced_blend_mode() {
    let mut n = node("card");
    n.effects.push(effect("DROP_SHADOW", Some(true), Some("MULTIPLY")));
    assert_eq!(constructs_of(&n).0, vec![Construct::AdvancedBlendMode]);
}

#[test]
fn a_hidden_shadow_is_skipped() {
    let mut n = node("card");
    n.effects.push(effect("DROP_SHADOW", Some(false), Some("MULTIPLY")));
    assert_eq!(constructs_of(&n), (vec![], vec![]));
}

#[test]
fn a_hidden_fill_or_stroke_with_an_advanced_blend_mode_triages_to_nothing() {
    let mut n = node("hidden-paints");
    n.fills.push(paint("SOLID", Some(false), Some("MULTIPLY")));
    n.strokes.push(paint("SOLID", Some(false), Some("MULTIPLY")));
    assert_eq!(constructs_of(&n), (vec![], vec![]));
}

#[test]
fn a_node_level_blend_mode_is_an_advanced_blend_mode() {
    let mut n = node("node-blend");
    n.blend_mode = Some("MULTIPLY".to_string());
    assert_eq!(constructs_of(&n).0, vec![Construct::AdvancedBlendMode]);
}

#[test]
fn a_paint_level_blend_mode_is_an_advanced_blend_mode_for_fill_and_stroke() {
    let mut n = node("paint-blend");
    n.fills.push(paint("SOLID", None, Some("MULTIPLY")));
    n.strokes.push(paint("SOLID", None, Some("SCREEN")));
    assert_eq!(
        constructs_of(&n).0,
        vec![Construct::AdvancedBlendMode, Construct::AdvancedBlendMode],
    );
}

#[test]
fn corner_smoothing_above_zero_is_corner_smoothing() {
    let mut n = node("smoothed-corners");
    n.corner_smoothing = Some(0.6f32.to_bits());
    assert_eq!(constructs_of(&n).0, vec![Construct::CornerSmoothing]);
    n.corner_smoothing = Some(0.0f32.to_bits());
    assert_eq!(constructs_of(&n).0, vec![]);
}

#[test]
fn a_plain_layer_blur_is_layer_blur() {
    let mut no_blur_type = node("layer-blur");
    no_blur_type.effects.push(effect("LAYER_BLUR", Some(true), None));
    assert_eq!(constructs_of(&no_blur_type).0, vec![Construct::LayerBlur]);

    let mut non_progressive = node("layer-blur-normal");
    let mut e = effect("LAYER_BLUR", Some(true), None);
    e.blur_type = Some("NORMAL".to_string());
    non_progressive.effects.push(e);
    assert_eq!(constructs_of(&non_progressive).0, vec![Construct::LayerBlur]);
}

#[test]
fn a_background_blur_is_backdrop_blur() {
    let mut n = node("backdrop-blur");
    n.effects.push(effect("BACKGROUND_BLUR", Some(true), None));
    assert_eq!(constructs_of(&n).0, vec![Construct::BackdropBlur]);
}

#[test]
fn a_progressive_blur_noise_and_texture_are_the_reject_band() {
    let mut e = effect("LAYER_BLUR", None, None);
    e.blur_type = Some("PROGRESSIVE".to_string());
    assert!(matches!(effect_construct(&e), Some(Ok(Construct::ProgressiveBlur))));
    for kind in ["NOISE", "TEXTURE"] {
        assert!(matches!(
            effect_construct(&effect(kind, None, None)),
            Some(Ok(Construct::NoiseOrTextureEffect))
        ));
    }
}

#[test]
fn an_unmapped_effect_is_named_and_both_lists_come_back() {
    let mut n = node("glass");
    n.effects.push(effect("GLASS", None, None));
    n.effects.push(effect("NOISE", None, None));
    assert_eq!(
        constructs_of(&n),
        (vec![Construct::NoiseOrTextureEffect], vec!["effect GLASS".to_string()])
    );
}

#[test]
fn plain_blend_modes() {
    assert!(is_plain_blend(&None));
    assert!(is_plain_blend(&Some("NORMAL".to_string())));
    assert!(is_plain_blend(&Some("PASS_THROUGH".to_string())));
    assert!(!is_plain_blend(&Some("MULTIPLY".to_string())));
}

#[test]
fn noise_and_texture_are_the_reject_band() {
    for kind in ["NOISE", "TEXTURE"] {
        let mut n = node(kind);
        n.effects.push(effect(kind, None, None));
        assert_eq!(constructs_of(&n).0, vec![Construct::NoiseOrTextureEffect], "{kind}");
    }
}

#[test]
fn a_layer_blur_rejects_only_when_it_is_progressive() {
    let mut n = node("progressive-blur");
    let mut e = effect("LAYER_BLUR", Some(true), None);
    e.blur_type = Some("PROGRESSIVE".to_string());
    n.effects.push(e);
    assert_eq!(constructs_of(&n).0, vec![Construct::ProgressiveBlur]);
}
