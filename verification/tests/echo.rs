use dashc::diagnostics::{Location, NodePath, Severity};
use dashc::echo::{
    contended_transition, contention_sentence, interaction_diagnostics, omission_severity,
    Collapse, Contention, Echoable, Landing, Reach, SetState, UNSUPPORTED_INTERACTION,
    UNSUPPORTED_MOTION,
};
use dashc::prototype::{Interactions, Switch};
use dashc::EmitPolicy;

fn somewhere() -> Location {
    Location::Node(NodePath::new(0, "/card (1:14)/bar".to_string()))
}

fn switch(destination: &str, refused_motion: Option<&str>) -> Switch {
    Switch {
        destination: destination.to_string(),
        tween: None,
        refused_motion: refused_motion.map(str::to_string),
    }
}

fn read_of(switches: Vec<Switch>, unsupported: Vec<&str>) -> Interactions {
    Interactions {
        switches,
        unsupported: unsupported.into_iter().map(str::to_string).collect(),
    }
}

/// Where each written finding would land, as (rule, severity, message).
fn placed(findings: Vec<Echoable>) -> Vec<(&'static str, Severity, String)> {
    findings
        .into_iter()
        .map(|f| {
            let d = f.at(somewhere());
            (d.rule, d.severity, d.message)
        })
        .collect()
}

/// The one finding a refused curve on a switch landing in no set earns
/// beside the omission, under `policy`.
fn curve_under(policy: EmitPolicy) -> Echoable {
    let read = read_of(vec![switch("1:6", Some("prototype easing GENTLE (\u{2026})"))], vec![]);
    let mut found = interaction_diagnostics(&read, &[(Landing::NoSet, Reach::Table)], policy);
    found.remove(1)
}

#[test]
fn two_copies_differing_only_in_severity_are_still_one_finding() {
    let mut collapse = Collapse::new();
    collapse.report("1:3", curve_under(EmitPolicy::Partial), somewhere());
    collapse.report("1:3", curve_under(EmitPolicy::Strict), somewhere());
    let folded = collapse.finish();
    assert_eq!(folded.len(), 1, "{folded:?}");
    assert_eq!(folded[0].severity, Severity::Warning);
    assert_eq!(
        folded[0].message,
        "prototype easing GENTLE (\u{2026}), and the switch it would animate lowers nowhere \
         (and 1 further copy of the same reaction, not listed separately)"
    );

    let read = read_of(vec![switch("1:6", Some("prototype easing GENTLE (\u{2026})"))], vec![]);
    let mut found = interaction_diagnostics(&read, &[(Landing::NoSet, Reach::Table)], EmitPolicy::Partial);
    let other = found.remove(0);
    let mut collapse = Collapse::new();
    collapse.report("1:3", curve_under(EmitPolicy::Partial), somewhere());
    collapse.report("1:3", other, somewhere());
    assert_eq!(collapse.finish().len(), 2, "two different things to say about one layer are two findings");
}

#[test]
fn copies_on_different_layers_stay_apart_and_three_copies_say_so() {
    let mut collapse = Collapse::new();
    collapse.report("1:3", curve_under(EmitPolicy::Partial), somewhere());
    collapse.report("1:4", curve_under(EmitPolicy::Partial), somewhere());
    collapse.report("1:3", curve_under(EmitPolicy::Partial), somewhere());
    collapse.report("1:3", curve_under(EmitPolicy::Partial), somewhere());
    let folded = collapse.finish();
    assert_eq!(folded.len(), 2);
    assert!(folded[0]
        .message
        .ends_with(" (and 2 further copies of the same reaction, not listed separately)"));
    assert!(folded[1].message.ends_with("lowers nowhere"));
}

#[test]
fn pushed_findings_never_collapse() {
    let mut collapse = Collapse::new();
    collapse.push(curve_under(EmitPolicy::Partial).at(somewhere()));
    collapse.extend(vec![
        curve_under(EmitPolicy::Partial).at(somewhere()),
        curve_under(EmitPolicy::Partial).at(somewhere()),
    ]);
    assert_eq!(collapse.finish().len(), 3);
}

#[test]
fn omissions_weigh_by_policy() {
    assert_eq!(omission_severity(EmitPolicy::Strict), Severity::Error);
    assert_eq!(omission_severity(EmitPolicy::Partial), Severity::Warning);
}

#[test]
fn each_landing_writes_its_sentence() {
    let read = read_of(
        vec![
            switch("1:1", None),
            switch("1:2", Some("curve")),
            switch("1:3", None),
            switch("1:4", None),
            switch("1:5", Some("curve")),
            switch("1:6", Some("curve")),
            switch("1:7", None),
        ],
        vec!["prototype trigger AFTER_TIMEOUT (x)"],
    );
    let resolved = [
        (Landing::InSet(SetState::Lowers(0)), Reach::Table),
        (Landing::InSet(SetState::Lowers(0)), Reach::Table),
        (Landing::InSet(SetState::Lowers(0)), Reach::Nowhere),
        (Landing::InSet(SetState::Silent), Reach::Named),
        (Landing::InSet(SetState::NamedItsLoss("x".to_string())), Reach::Named),
        (Landing::LibraryAbsent, Reach::Named),
        (Landing::NotAMember, Reach::Named),
    ];
    let found = placed(interaction_diagnostics(&read, &resolved, EmitPolicy::Strict));
    assert_eq!(
        found,
        vec![
            (
                UNSUPPORTED_INTERACTION,
                Severity::Error,
                "prototype trigger AFTER_TIMEOUT (x) is not in the document vocabulary".to_string()
            ),
            (UNSUPPORTED_MOTION, Severity::Warning, "curve; the switch lands in one frame".to_string()),
            (
                UNSUPPORTED_INTERACTION,
                Severity::Error,
                "a CHANGE_TO names destination 1:3, a member of a component set this layer sits inside \
                 \u{2014} but the layer belongs to a nested component of its own, which no switch into \
                 that set replaces, so the switch lowers nowhere"
                    .to_string()
            ),
            (
                UNSUPPORTED_INTERACTION,
                Severity::Error,
                "a CHANGE_TO names destination 1:4, whose component set has no second member to switch \
                 to, so the switch lowers nowhere"
                    .to_string()
            ),
            (
                UNSUPPORTED_MOTION,
                Severity::Warning,
                "curve, and no variant table carries the switch it would animate, so nothing is left for \
                 it to degrade"
                    .to_string()
            ),
            (
                UNSUPPORTED_INTERACTION,
                Severity::Warning,
                "a CHANGE_TO names destination 1:6, and this file does not contain the component whose \
                 instance this layer belongs to, so the switch lowers nowhere"
                    .to_string()
            ),
            (
                UNSUPPORTED_INTERACTION,
                Severity::Warning,
                "curve, and the switch it would animate lowers nowhere".to_string()
            ),
            (
                UNSUPPORTED_INTERACTION,
                Severity::Error,
                "a CHANGE_TO names destination 1:7, which is not a member of the component set this \
                 layer belongs to, so the switch lowers nowhere"
                    .to_string()
            ),
        ]
    );
}

#[test]
fn switches_without_a_resolution_are_not_read() {
    let read = read_of(vec![switch("1:1", None), switch("1:2", None)], vec![]);
    let found = interaction_diagnostics(&read, &[(Landing::NoSet, Reach::Table)], EmitPolicy::Partial);
    assert_eq!(found.len(), 1);
}

#[test]
fn the_contention_sentence_names_its_scope() {
    assert_eq!(
        contention_sentence(Contention::WithinAnInstance, "state=hover"),
        "more than one layer of this instance declares a CHANGE_TO to \"state=hover\" with a \
         different transition, and the document carries one transition per destination, so only \
         one of them lowers"
    );
    assert!(contention_sentence(Contention::AcrossTheSet, "m").starts_with("more than one layer of this component set "));
    let members = vec!["state=rest".to_string(), "state=hover".to_string()];
    let d = contended_transition(&members, 1).at(somewhere());
    assert_eq!(d.rule, UNSUPPORTED_MOTION);
    assert_eq!(d.severity, Severity::Warning);
    assert!(d.message.contains("\"state=hover\""));
}
