use dashc::prototype::{
    read, read_action, read_transition, Action, Easing, Interaction, Interactions, Transition,
    TransitionEasing, Trigger,
};

fn smart_animate(easing: &str, duration: f32) -> Transition {
    Transition {
        kind: "SMART_ANIMATE".to_string(),
        easing: Some(TransitionEasing { kind: easing.to_string() }),
        duration: Some(duration.to_bits()),
    }
}

fn change_to(destination: Option<&str>, transition: Option<Transition>) -> Action {
    Action {
        kind: "NODE".to_string(),
        destination_id: destination.map(str::to_string),
        navigation: Some("CHANGE_TO".to_string()),
        transition,
    }
}

fn interaction(trigger: Option<&str>, actions: Vec<Action>) -> Interaction {
    Interaction {
        trigger: trigger.map(|kind| Trigger { kind: kind.to_string() }),
        actions,
    }
}

#[test]
fn a_refused_trigger_lowers_no_switch() {
    let read = read(&[interaction(
        Some("AFTER_TIMEOUT"),
        vec![change_to(Some("1:6"), Some(smart_animate("EASE_OUT", 0.3)))],
    )]);
    assert!(
        read.switches.is_empty(),
        "a refused trigger refuses the whole interaction: {:?}",
        read.switches,
    );
    assert!(
        read.unsupported.iter().any(|m| m.contains("AFTER_TIMEOUT")),
        "{:?}",
        read.unsupported,
    );
}

#[test]
fn a_refused_curve_under_a_refused_trigger_is_an_omission_not_a_degrade() {
    let read = read(&[interaction(
        Some("AFTER_TIMEOUT"),
        vec![change_to(Some("1:6"), Some(smart_animate("GENTLE", 0.3)))],
    )]);
    assert!(read.switches.is_empty(), "{:?}", read.switches);
    assert!(
        read.unsupported.iter().any(|m| m.contains("GENTLE")),
        "{:?}",
        read.unsupported
    );
}

#[test]
fn a_smart_animate_change_to_on_click_lowers_to_a_switch() {
    let read = read(&[interaction(
        Some("ON_CLICK"),
        vec![change_to(Some("6:183"), Some(smart_animate("EASE_OUT", 0.3)))],
    )]);
    assert_eq!(read.switches.len(), 1);
    assert_eq!(read.switches[0].destination, "6:183");
    assert_eq!(read.switches[0].tween, Some((0.3f32.to_bits(), Easing::EaseOut)));
    assert_eq!(read.switches[0].refused_motion, None);
    assert!(read.unsupported.is_empty(), "{:?}", read.unsupported);
}

#[test]
fn each_easing_lowers_or_rides_on_its_switch() {
    for (name, expected) in [
        ("LINEAR", Some(Easing::Linear)),
        ("EASE_IN", Some(Easing::EaseIn)),
        ("EASE_OUT", Some(Easing::EaseOut)),
        ("EASE_IN_AND_OUT", Some(Easing::EaseInOut)),
        ("GENTLE", None),
        ("QUICK", None),
        ("BOUNCY", None),
        ("SLOW", None),
        ("CUSTOM_CUBIC_BEZIER", None),
    ] {
        let read = read(&[interaction(
            Some("ON_CLICK"),
            vec![change_to(Some("1:6"), Some(smart_animate(name, 0.05)))],
        )]);
        assert_eq!(read.switches.len(), 1, "{name} carries one switch");
        assert_eq!(read.switches[0].tween, expected.map(|e| (0.05f32.to_bits(), e)), "{name}");
        assert!(read.unsupported.is_empty(), "{name}: {:?}", read.unsupported);
        assert_eq!(read.switches[0].refused_motion.is_none(), expected.is_some(), "{name}");
    }
}

#[test]
fn a_refused_easing_is_named_exactly() {
    let (tween, refused) = read_transition(&smart_animate("GENTLE", 0.3));
    assert_eq!(tween, None);
    assert_eq!(
        refused.as_deref(),
        Some(
            "prototype easing GENTLE (dashcue has four fixed cubics \u{2014} Linear, EaseIn, \
             EaseOut, EaseInOut \u{2014} and no parameters for it in the payload)"
        )
    );
    let dissolve = Transition { kind: "DISSOLVE".to_string(), easing: None, duration: None };
    assert_eq!(
        read_transition(&dissolve).1.as_deref(),
        Some("prototype transition DISSOLVE (only SMART_ANIMATE lowers, because only it interpolates per-prop)")
    );
}

#[test]
fn a_duration_at_or_below_zero_is_no_tween() {
    for d in [0.0f32, -0.0, -1.0, f32::NAN] {
        let (tween, refused) = read_transition(&smart_animate("LINEAR", d));
        assert_eq!(tween, None, "{d}");
        assert_eq!(refused, None);
    }
    let absent = Transition {
        kind: "SMART_ANIMATE".to_string(),
        easing: Some(TransitionEasing { kind: "LINEAR".to_string() }),
        duration: None,
    };
    assert_eq!(read_transition(&absent), (None, None));
    assert_eq!(
        read_transition(&smart_animate("LINEAR", f32::INFINITY)).0,
        Some((f32::INFINITY.to_bits(), Easing::Linear))
    );
}

#[test]
fn a_navigate_action_is_refused_even_though_its_transition_is_smart_animate() {
    let mut action = change_to(Some("1:6"), Some(smart_animate("EASE_OUT", 0.3)));
    action.navigation = Some("NAVIGATE".to_string());
    let read = read(&[interaction(Some("ON_CLICK"), vec![action])]);
    assert!(read.switches.is_empty());
    assert_eq!(
        read.unsupported,
        vec!["prototype navigation NAVIGATE (only CHANGE_TO lowers; the document has no frame-to-frame navigation)"]
    );
}

#[test]
fn every_refusal_of_one_interaction_is_named() {
    let mut action = change_to(Some("1:6"), Some(smart_animate("GENTLE", 0.3)));
    action.navigation = Some("OVERLAY".to_string());
    let url = Action { kind: "URL".to_string(), destination_id: None, navigation: None, transition: None };
    let read = read(&[interaction(None, vec![action, url, change_to(None, None)])]);
    assert_eq!(
        read.unsupported,
        vec![
            "prototype trigger <absent> (only ON_CLICK is assumed; the document carries no trigger construct, so the host drives the switch)".to_string(),
            "prototype navigation OVERLAY (only CHANGE_TO lowers; the document has no frame-to-frame navigation)".to_string(),
            "prototype easing GENTLE (dashcue has four fixed cubics \u{2014} Linear, EaseIn, EaseOut, EaseInOut \u{2014} and no parameters for it in the payload)".to_string(),
            "prototype action URL (the document carries no navigation, variable or condition construct)".to_string(),
            "a CHANGE_TO action with no destinationId".to_string(),
        ]
    );
}

#[test]
fn a_node_with_no_interactions_lowers_nothing_and_names_nothing() {
    let read = read(&[]);
    assert!(read.switches.is_empty());
    assert!(read.unsupported.is_empty());
    let mut found = Interactions { switches: vec![], unsupported: vec![] };
    read_action(&change_to(Some("1:6"), None), true, &mut found);
    assert_eq!(found.switches.len(), 1);
    assert_eq!(found.switches[0].tween, None);
}

#[test]
fn a_smart_animate_change_to_lowers_to_a_switch() {
    let read = read(&[interaction(
        Some("ON_CLICK"),
        vec![change_to(Some("6:183"), Some(smart_animate("EASE_OUT", 0.3)))],
    )]);
    assert_eq!(read.switches.len(), 1);
    assert_eq!(read.switches[0].destination, "6:183");
    assert_eq!(read.switches[0].tween, Some((0.3f32.to_bits(), Easing::EaseOut)));
    assert_eq!(read.switches[0].refused_motion, None);
    assert!(read.unsupported.is_empty(), "{:?}", read.unsupported);
}

#[test]
fn the_duration_is_read_in_seconds_not_milliseconds() {
    let read = read(&[interaction(
        Some("ON_CLICK"),
        vec![change_to(Some("6:183"), Some(smart_animate("EASE_OUT", 0.3)))],
    )]);
    let (duration, _) = read.switches[0].tween.expect("the arm carries a tween");
    let duration = f32::from_bits(duration);
    assert!((0.25..0.35).contains(&duration), "0.3 s must lower as 0.3: got {duration}");
}

#[test]
fn each_easing_arm_lowers_or_is_named() {
    for (name, duration, expected) in [
        ("LINEAR", 0.05f32, Some(Easing::Linear)),
        ("EASE_IN_AND_OUT", 0.15, Some(Easing::EaseInOut)),
        ("GENTLE", 0.3, None),
        ("QUICK", 0.3, None),
        ("BOUNCY", 0.3, None),
        ("SLOW", 0.3, None),
    ] {
        let read = read(&[interaction(
            Some("ON_CLICK"),
            vec![change_to(Some("1:6"), Some(smart_animate(name, duration)))],
        )]);
        assert_eq!(read.switches.len(), 1, "{name} carries one switch");
        assert_eq!(read.switches[0].tween, expected.map(|e| (duration.to_bits(), e)), "{name}");
        assert!(read.unsupported.is_empty(), "{name}: {:?}", read.unsupported);
        assert_eq!(read.switches[0].refused_motion.is_none(), expected.is_some(), "{name}");
    }
}

#[test]
fn an_instance_echoes_its_inherited_reaction_in_full() {
    // The instance carries the component's interaction verbatim, so reading
    // either gives the same switches.
    let authored = vec![interaction(
        Some("ON_CLICK"),
        vec![change_to(Some("6:183"), Some(smart_animate("EASE_OUT", 0.3)))],
    )];
    let echoed = authored.clone();
    let (a, b) = (read(&echoed).switches, read(&authored).switches);
    assert_eq!(a.len(), b.len());
    for (x, y) in a.iter().zip(&b) {
        assert_eq!((&x.destination, x.tween, &x.refused_motion), (&y.destination, y.tween, &y.refused_motion));
    }
}

#[test]
fn every_refused_construct_is_named_by_its_own_node() {
    let transition = |kind: &str, easing: Option<&str>| Transition {
        kind: kind.to_string(),
        easing: easing.map(|e| TransitionEasing { kind: e.to_string() }),
        duration: Some(0.3f32.to_bits()),
    };
    let navigate = |t: Transition| {
        let mut a = change_to(Some("1:6"), Some(t));
        a.navigation = Some("NAVIGATE".to_string());
        a
    };
    let other = |kind: &str| Action { kind: kind.to_string(), destination_id: None, navigation: None, transition: None };
    let mut overlay = change_to(Some("1:6"), None);
    overlay.navigation = Some("OVERLAY".to_string());
    let cases: Vec<(Vec<Interaction>, &str)> = vec![
        (vec![interaction(Some("ON_CLICK"), vec![navigate(transition("DISSOLVE", None))])], "DISSOLVE"),
        (vec![interaction(Some("ON_CLICK"), vec![navigate(transition("PUSH", None))])], "PUSH"),
        (
            vec![interaction(Some("ON_CLICK"), vec![navigate(transition("SMART_ANIMATE", Some("CUSTOM_CUBIC_BEZIER")))])],
            "CUSTOM_CUBIC_BEZIER",
        ),
        (
            vec![interaction(Some("ON_CLICK"), vec![navigate(transition("SMART_ANIMATE", Some("EASE_OUT_BACK")))])],
            "EASE_OUT_BACK",
        ),
        (vec![interaction(Some("AFTER_TIMEOUT"), vec![change_to(Some("1:6"), None)])], "AFTER_TIMEOUT"),
        (vec![interaction(Some("ON_KEY_DOWN"), vec![change_to(Some("1:6"), None)])], "ON_KEY_DOWN"),
        (vec![interaction(Some("ON_CLICK"), vec![other("URL")])], "URL"),
        (vec![interaction(Some("ON_CLICK"), vec![other("SET_VARIABLE")])], "SET_VARIABLE"),
        (vec![interaction(Some("ON_CLICK"), vec![overlay])], "OVERLAY"),
        (vec![interaction(Some("ON_CLICK"), vec![other("CONDITIONAL")])], "CONDITIONAL"),
    ];
    for (interactions, expected) in cases {
        let read = read(&interactions);
        let named: Vec<&String> =
            read.unsupported.iter().chain(read.switches.iter().filter_map(|s| s.refused_motion.as_ref())).collect();
        assert!(named.iter().any(|m| m.contains(expected)), "must name {expected}, got {named:?}");
        assert!(read.switches.is_empty(), "{expected} lowers no switch, got {:?}", read.switches);
    }
}

#[test]
fn the_flat_triple_is_never_read() {
    // An action whose own transition is null lowers no tween, whatever flat
    // fields the file carries beside it.
    let read = read(&[interaction(Some("ON_KEY_DOWN"), vec![change_to(Some("1:6"), None)])]);
    assert!(read.switches.is_empty());
}
