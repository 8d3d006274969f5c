use dashc::figma::{FigmaLayout, FigmaNode, FigmaPaint};
use dashc::document::Color;
use dashc::prototype::{Easing, Switch};
use dashc::diagnostics::{Location, NodePath, Severity};
use dashc::document::BindingChannel;
use dashc::tweens::{
    animatable, declared_tweens, instance_loss, member_overrides, position_of, set_diagnostics, set_loss, solid_fill,
    unexpressible, variant_tracks, Prop, UNLOWERABLE_SET,
};

fn member(name: &str, id: &str) -> FigmaNode {
    FigmaNode {
        id: Some(id.to_string()),
        name: name.to_string(),
        kind: "COMPONENT".to_string(),
        children: vec![],
        fills: vec![],
        strokes: vec![],
        effects: vec![],
        blend_mode: None,
        corner_smoothing: None,
        layout: FigmaLayout::default(),
        absolute_bounding_box: None,
        rotation: None,
        size: None,
        is_mask: None,
        mask_type: None,
        section_contents_hidden: None,
        layout_positioning: None,
        strokes_included_in_layout: None,
        item_reverse_z_index: None,
        complex_stroke_properties: None,
        stroke_dashes: None,
        stroke_align: None,
        characters: None,
        style: None,
        style_overrides: 0,
        component_id: None,
        compared: dashc::figma::ComparedFields::none(),
        facts: dashc::figma::WalkFacts::plain(),
        interactions: vec![],
    }
}

fn switch(to: &str, tween: Option<(f32, Easing)>) -> Switch {
    Switch {
        destination: to.to_string(),
        tween: tween.map(|(d, e)| (d.to_bits(), e)),
        refused_motion: None,
    }
}

#[test]
fn a_member_is_found_by_its_id() {
    let a = member("state=rest", "1:2");
    let b = member("state=hover", "1:3");
    assert_eq!(position_of(&[&a, &b], &"1:3".to_string()), Some(1));
    assert_eq!(position_of(&[&a, &b], &"9:9".to_string()), None);
}

#[test]
fn the_later_declaration_wins_and_a_disagreement_is_named() {
    let a = member("state=rest", "1:2");
    let b = member("state=hover", "1:3");
    let c = member("state=pressed", "1:4");
    let s1 = switch("1:3", Some((0.3, Easing::EaseOut)));
    let s2 = switch("1:3", Some((0.5, Easing::EaseOut)));
    let s3 = switch("1:2", None);
    let s4 = switch("1:2", None);
    let s5 = switch("9:9", Some((0.1, Easing::Linear)));
    let (kept, contended) = declared_tweens(&[&a, &b, &c], &[&s1, &s3, &s2, &s4, &s5]);
    assert_eq!(kept, vec![(0, None), (1, Some((0.5f32.to_bits(), Easing::EaseOut)))]);
    assert_eq!(contended, vec![1]);
}

#[test]
fn the_same_transition_declared_twice_loses_nothing() {
    let a = member("state=rest", "1:2");
    let s1 = switch("1:2", Some((0.0, Easing::Linear)));
    let s2 = switch("1:2", Some((-0.0, Easing::Linear)));
    let (kept, contended) = declared_tweens(&[&a], &[&s1, &s2]);
    assert_eq!(kept, vec![(0, Some(((-0.0f32).to_bits(), Easing::Linear)))]);
    assert!(contended.is_empty());
    let s3 = switch("1:2", Some((0.0, Easing::EaseIn)));
    let (_, contended) = declared_tweens(&[&a], &[&s1, &s3]);
    assert_eq!(contended, vec![0]);
    let n1 = switch("1:2", Some((f32::NAN, Easing::Linear)));
    let (_, contended) = declared_tweens(&[&a], &[&n1]);
    assert_eq!(contended, vec![0]);
}

fn at() -> Location {
    Location::Node(NodePath::new(3, "/Button".to_string()))
}

fn names() -> Vec<String> {
    vec!["state=rest".to_string(), "state=hover".to_string()]
}

#[test]
fn a_set_without_a_declared_transition_names_no_motion() {
    let differing = vec![vec![Prop::Fill, Prop::Width]];
    assert!(set_diagnostics(&differing, &names(), &at(), false, &vec![1]).is_empty());
}

#[test]
fn props_no_transition_animates_are_named_in_order_then_contentions() {
    let differing = vec![vec![Prop::Rotation, Prop::Width], vec![Prop::Fill, Prop::Rotation]];
    assert!(animatable(&differing));
    let out = set_diagnostics(&differing, &names(), &at(), true, &vec![1]);
    let messages: Vec<&str> = out.iter().map(|d| d.message.as_str()).collect();
    assert_eq!(
        messages,
        vec![
            "the members differ in fill, which Smart Animate interpolates and a variant transition cannot: only the four rect channels have a seam a runtime can write over (issue #891). The override ships, so the switch changes it in one frame",
            "the members differ in rotation, which Smart Animate interpolates and a variant transition cannot: only the four rect channels have a seam a runtime can write over (issue #891). The override ships, so the switch changes it in one frame",
            "more than one layer of this component set declares a CHANGE_TO to \"state=hover\" with a different transition, and the document carries one transition per destination, so only one of them lowers",
        ]
    );
    assert!(out.iter().all(|d| d.rule == "figma.prototype.unsupported-motion" && d.severity == Severity::Warning));
}

#[test]
fn a_set_differing_on_no_rect_channel_says_so_and_no_more() {
    let differing = vec![vec![Prop::Visible]];
    assert!(!animatable(&differing));
    let out = set_diagnostics(&differing, &names(), &at(), true, &vec![0, 1]);
    let messages: Vec<&str> = out.iter().map(|d| d.message.as_str()).collect();
    assert_eq!(
        messages,
        vec![
            "the members differ in visibility, which Smart Animate interpolates and a variant transition cannot: only the four rect channels have a seam a runtime can write over (issue #891). The override ships, so the switch changes it in one frame",
            "the members differ on no rect channel, so the declared transition has nothing to animate and the switch lands in one frame",
        ]
    );
}

#[test]
fn a_set_or_instance_without_a_table_names_its_loss() {
    let d = set_loss("members \"a\" and \"b\" differ in corner radius on \"/\", which no variant override can express", at());
    assert_eq!(d.rule, UNLOWERABLE_SET);
    assert_eq!(d.severity, Severity::Warning);
    assert_eq!(
        d.message,
        "members \"a\" and \"b\" differ in corner radius on \"/\", which no variant override can express, so this component set lowers no variant table; its instances still paint the member they show"
    );
    let i = instance_loss("the instance's child \"bar\" is missing", at());
    assert_eq!(
        i.message,
        "the instance's child \"bar\" is missing, so this instance lowers no variant table; its baked subtree still paints"
    );
    assert_eq!(Prop::Visible.name(), "visibility");
}

#[test]
fn tracks_follow_layer_then_channel_order() {
    let differing = vec![
        (3, vec![Prop::Fill, Prop::Height, Prop::X]),
        (7, vec![Prop::Visible]),
        (9, vec![Prop::Width, Prop::Y]),
    ];
    assert_eq!(
        variant_tracks(&differing),
        vec![
            (3, BindingChannel::X),
            (3, BindingChannel::Height),
            (9, BindingChannel::Y),
            (9, BindingChannel::Width),
        ]
    );
    assert!(variant_tracks(&vec![(1, vec![Prop::Rotation])]).is_empty());
    // A table has tracks exactly when its set is animatable.
    assert!(animatable(&differing.iter().map(|d| d.1.clone()).collect()));
    assert!(!animatable(&vec![vec![Prop::Rotation]]));
}

#[test]
fn a_member_overrides_only_where_it_departs_from_the_active_one() {
    let differing = vec![(3, vec![Prop::X, Prop::Fill]), (9, vec![Prop::Width])];
    let own = vec![vec![Prop::Fill], vec![Prop::Width, Prop::Y]];
    assert_eq!(member_overrides(&differing, &own, 1, 0), vec![(3, Prop::Fill), (9, Prop::Width)]);
    // The active member is the document's own state and overrides nothing.
    assert!(member_overrides(&differing, &own, 0, 0).is_empty());
}

fn paint(kind: &str, color: Option<Color>) -> FigmaPaint {
    FigmaPaint {
        kind: kind.to_string(),
        blend_mode: None,
        visible: None,
        opacity: Some(0.5f32.to_bits()),
        image_ref: None,
        color,
        gradient_handle_positions: vec![],
        gradient_stops: vec![],
        scale_mode: None,
        image_transform: None,
        scaling_factor: None,
    }
}

#[test]
fn a_fill_difference_is_carried_only_as_a_single_solid_on_a_painting_node() {
    let red = Color { r: 1f32.to_bits(), g: 0, b: 0, a: 1f32.to_bits() };
    let mut n = member("On", "1:1");
    n.kind = "FRAME".to_string();
    n.fills = vec![paint("SOLID", Some(red))];
    assert_eq!(solid_fill(&n), Some((red, Some(0.5f32.to_bits()))));
    assert_eq!(unexpressible(&n, Prop::Fill), None);
    n.fills.push(paint("SOLID", Some(red)));
    assert_eq!(solid_fill(&n), None);
    assert_eq!(
        unexpressible(&n, Prop::Fill),
        Some(
            "a fill no single solid colour expresses (a gradient, an image, stacked paints, or none at all), which \
             `VariantFill` cannot carry"
        )
    );
    assert_eq!(unexpressible(&n, Prop::Width), None);
    n.kind = "TEXT".to_string();
    n.fills = vec![paint("SOLID", Some(red))];
    assert!(unexpressible(&n, Prop::Fill).unwrap().starts_with("their text colour"));
    n.kind = "FRAME".to_string();
    n.fills = vec![paint("GRADIENT_LINEAR", None)];
    assert!(unexpressible(&n, Prop::Fill).is_some());
}
