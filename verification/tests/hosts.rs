use dashc::bindings::LoweredNode;
use dashc::diagnostics::{Location, Severity};
use dashc::echo::{Collapse, Landing, Reach, SetState};
use dashc::prototype::{Interactions, Switch};
use dashc::EmitPolicy;
use dashc::figma::{FigmaLayout, FigmaNode};
use dashc::hosts::{
    authored_source, carrying_hosts, gather, hosting, hosts_of, members_of, name_node, names_here, owner, paths,
    reachability, reaches_screen, resolve_switch, set_of, unlanded, Hosting, SetEntry,
};

fn node(name: &str, kind: &str, id: Option<&str>, children: Vec<FigmaNode>) -> FigmaNode {
    FigmaNode {
        id: id.map(str::to_string),
        name: name.to_string(),
        kind: kind.to_string(),
        children,
        fills: vec![],
        strokes: vec![],
        effects: vec![],
        blend_mode: None,
        corner_smoothing: None,
        layout: FigmaLayout::default(),
        absolute_bounding_box: None,
        rotation: None,
        size: None,
        is_mask: None,
        mask_type: None,
        section_contents_hidden: None,
        layout_positioning: None,
        strokes_included_in_layout: None,
        item_reverse_z_index: None,
        complex_stroke_properties: None,
        stroke_dashes: None,
        stroke_align: None,
        characters: None,
        style: None,
        style_overrides: 0,
        component_id: None,
        compared: dashc::figma::ComparedFields::none(),
        facts: dashc::figma::WalkFacts::plain(),
        interactions: vec![],
    }
}

fn instance(name: &str, shows: &str, children: Vec<FigmaNode>) -> FigmaNode {
    let mut n = node(name, "INSTANCE", None, children);
    n.component_id = Some(shows.to_string());
    n
}

fn file() -> FigmaNode {
    let inner = node("inner", "COMPONENT", Some("5:5"), vec![node("deep", "TEXT", None, vec![])]);
    let btn = instance("btn", "1:2", vec![node("label", "TEXT", None, vec![]), inner]);
    let page = node("page", "FRAME", None, vec![btn, instance("lib", "7:7", vec![])]);
    let set = node(
        "Button",
        "COMPONENT_SET",
        Some("1:1"),
        vec![
            node("state=rest", "COMPONENT", Some("1:2"), vec![node("label", "TEXT", None, vec![])]),
            node("note", "TEXT", None, vec![]),
            node("state=hover", "COMPONENT", Some("1:3"), vec![]),
        ],
    );
    let canvas = node("Page 1", "CANVAS", None, vec![page, set]);
    node("Document", "DOCUMENT", None, vec![canvas])
}

fn button_set(state: SetState) -> SetEntry {
    SetEntry {
        members: vec!["1:2".to_string(), "1:3".to_string()],
        state,
    }
}

#[test]
fn the_node_list_is_in_walk_order_with_paths_and_parents() {
    let doc = file();
    let nodes = paths(&doc);
    let listed: Vec<(&str, Option<usize>)> = nodes.iter().map(|w| (w.path.as_str(), w.parent)).collect();
    assert_eq!(
        listed,
        vec![
            ("/page", None),
            ("/page/btn", Some(0)),
            ("/page/btn/label", Some(1)),
            ("/page/btn/inner", Some(1)),
            ("/page/btn/inner/deep", Some(3)),
            ("/page/lib", Some(0)),
            ("/Button", None),
            ("/Button/state=rest", Some(6)),
            ("/Button/state=rest/label", Some(7)),
            ("/Button/note", Some(6)),
            ("/Button/state=hover", Some(6)),
        ]
    );
    assert!(nodes[2].definition.is_none());
    assert_eq!(nodes[4].definition.map(|d| d.name.as_str()), Some("inner"));
    assert_eq!(nodes[7].definition.map(|d| d.name.as_str()), Some("Button"));
    assert_eq!(nodes[8].definition.map(|d| d.name.as_str()), Some("state=rest"));
    assert_eq!(owner(&nodes[7]).map(|d| d.name.as_str()), Some("state=rest"));
    assert!(owner(&nodes[1]).is_none());
}

#[test]
fn hosts_are_listed_nearest_first() {
    let doc = file();
    let nodes = paths(&doc);
    assert_eq!(hosts_of(&nodes, 2), vec![1]);
    assert_eq!(hosts_of(&nodes, 4), vec![3, 1]);
    assert_eq!(hosts_of(&nodes, 8), vec![7, 6]);
    assert_eq!(hosts_of(&nodes, 0), Vec::<usize>::new());
}

#[test]
fn a_switch_lands_at_the_nearest_member_host_unless_a_definition_intervenes() {
    let doc = file();
    let nodes = paths(&doc);
    let members = vec!["1:2".to_string(), "1:3".to_string()];
    assert_eq!(hosting(&nodes, 2, &members), Hosting::LandsAt(1));
    assert_eq!(hosting(&nodes, 8, &members), Hosting::LandsAt(7));
    assert_eq!(hosting(&nodes, 4, &members), Hosting::LandsNowhere);
    assert_eq!(hosting(&nodes, 0, &members), Hosting::Elsewhere);
    assert_eq!(hosting(&nodes, 5, &members), Hosting::Elsewhere);
}

#[test]
fn a_switch_that_lands_nowhere_is_explained_by_the_nearest_host() {
    let doc = file();
    let nodes = paths(&doc);
    let sets = vec![button_set(SetState::Lowers(0))];
    let components = vec!["1:2".to_string(), "1:3".to_string(), "5:5".to_string()];
    assert!(matches!(unlanded(&nodes, 2, &sets, &components), Landing::NotAMember));
    assert!(matches!(unlanded(&nodes, 5, &sets, &components), Landing::LibraryAbsent));
    assert!(matches!(unlanded(&nodes, 0, &sets, &components), Landing::NoSet));
    assert!(matches!(unlanded(&nodes, 4, &sets, &components), Landing::NoSet));
    assert!(matches!(unlanded(&nodes, 8, &sets, &components), Landing::NotAMember));
}

#[test]
fn a_switch_reaches_a_table_only_through_a_carrying_host_of_a_lowering_set() {
    let doc = file();
    let nodes = paths(&doc);
    let components = vec!["1:2".to_string(), "1:3".to_string()];
    let lowering = vec![button_set(SetState::Lowers(0))];
    let to_hover = "1:3".to_string();
    let (landing, reach) = resolve_switch(&nodes, 2, &to_hover, &lowering, &components, &vec![1]);
    assert!(matches!(landing, Landing::InSet(SetState::Lowers(0))));
    assert_eq!(reach, Reach::Table);
    let (_, reach) = resolve_switch(&nodes, 2, &to_hover, &lowering, &components, &vec![]);
    assert_eq!(reach, Reach::Named);
    let (_, reach) = resolve_switch(&nodes, 4, &to_hover, &lowering, &components, &vec![1]);
    assert_eq!(reach, Reach::Nowhere);
    let refused = vec![button_set(SetState::NamedItsLoss("the members differ in corner radius".to_string()))];
    let (landing, reach) = resolve_switch(&nodes, 4, &to_hover, &refused, &components, &vec![1]);
    assert!(matches!(landing, Landing::InSet(SetState::NamedItsLoss(_))));
    assert_eq!(reach, Reach::Named);
    let (landing, reach) = resolve_switch(&nodes, 2, &"8:8".to_string(), &lowering, &components, &vec![1]);
    assert!(matches!(landing, Landing::NotAMember));
    assert_eq!(reach, Reach::Named);
}

#[test]
fn a_member_id_names_the_last_set_listing_it() {
    let sets = vec![button_set(SetState::Silent), button_set(SetState::Lowers(3))];
    assert_eq!(set_of(&sets, &"1:3".to_string()), Some(1));
    assert_eq!(set_of(&sets, &"9:9".to_string()), None);
}

#[test]
fn what_reaches_the_screen_is_named_once() {
    let doc = file();
    let nodes = paths(&doc);
    let none: Vec<String> = vec![];
    assert!(reaches_screen(&nodes[2], &none));
    assert!(!reaches_screen(&nodes[8], &none));
    let switchable = vec!["1:2".to_string()];
    assert!(reaches_screen(&nodes[8], &switchable));
    assert!(names_here(&nodes[8], &switchable, &none));
    assert!(!names_here(&nodes[8], &switchable, &vec!["1:2".to_string()]));
    assert!(names_here(&nodes[2], &none, &vec!["1:2".to_string()]));
}

#[test]
fn a_reaction_is_keyed_by_the_layer_it_was_authored_on() {
    let mut n = node("label", "TEXT", Some("I1:2;3:4"), vec![]);
    assert_eq!(authored_source(&n, &"/page/btn/label".to_string()), "3:4");
    n.id = Some("3:4".to_string());
    assert_eq!(authored_source(&n, &"/x".to_string()), "3:4");
    n.id = Some("I1:2;".to_string());
    assert_eq!(authored_source(&n, &"/x".to_string()), "");
    n.id = None;
    assert_eq!(authored_source(&n, &"/page/btn/label".to_string()), "/page/btn/label");
}

#[test]
fn a_sets_members_are_its_component_children_in_order() {
    let doc = file();
    let set = &doc.children[0].children[1];
    let names: Vec<&str> = members_of(set).iter().map(|m| m.name.as_str()).collect();
    assert_eq!(names, vec!["state=rest", "state=hover"]);
}

fn nested_file() -> FigmaNode {
    let icon = instance("icon", "2:2", vec![]);
    let button = node(
        "Button",
        "COMPONENT_SET",
        Some("1:1"),
        vec![
            node("state=rest", "COMPONENT", Some("1:2"), vec![]),
            node("state=hover", "COMPONENT", Some("1:3"), vec![icon]),
        ],
    );
    let icons = node(
        "Icon",
        "COMPONENT_SET",
        Some("2:1"),
        vec![node("kind=plus", "COMPONENT", Some("2:2"), vec![]), node("kind=minus", "COMPONENT", Some("2:3"), vec![])],
    );
    let page = node("page", "FRAME", None, vec![instance("btn", "1:2", vec![])]);
    let canvas = node("Page 1", "CANVAS", None, vec![page, button, icons]);
    node("Document", "DOCUMENT", None, vec![canvas])
}

fn sorted(mut v: Vec<String>) -> Vec<String> {
    v.sort();
    v
}

#[test]
fn an_instance_inside_a_switchable_member_shows_its_own_set() {
    let doc = nested_file();
    let nodes = paths(&doc);
    let sets = vec![
        SetEntry { members: vec!["1:2".to_string(), "1:3".to_string()], state: SetState::Lowers(0) },
        SetEntry { members: vec!["2:2".to_string(), "2:3".to_string()], state: SetState::Lowers(1) },
    ];
    let (shown, switchable) = reachability(&nodes, &sets);
    assert_eq!(sorted(shown), vec!["1:2", "2:2"]);
    assert_eq!(sorted(switchable), vec!["1:2", "1:3", "2:2", "2:3"]);
}

#[test]
fn a_set_that_lowers_no_table_switches_to_nothing() {
    let doc = nested_file();
    let nodes = paths(&doc);
    let sets = vec![
        SetEntry { members: vec!["1:2".to_string(), "1:3".to_string()], state: SetState::Silent },
        SetEntry { members: vec!["2:2".to_string(), "2:3".to_string()], state: SetState::Lowers(0) },
    ];
    let (shown, switchable) = reachability(&nodes, &sets);
    assert_eq!(sorted(shown), vec!["1:2"]);
    assert!(switchable.is_empty());
}

#[test]
fn member_roots_carry_where_an_instance_shipped_their_set() {
    let doc = nested_file();
    let nodes = paths(&doc);
    let sets = vec![
        SetEntry { members: vec!["1:2".to_string(), "1:3".to_string()], state: SetState::Lowers(0) },
        SetEntry { members: vec!["2:2".to_string(), "2:3".to_string()], state: SetState::Lowers(1) },
    ];
    let listed: Vec<&str> = nodes.iter().map(|w| w.path.as_str()).collect();
    let rest = listed.iter().position(|p| *p == "/Button/state=rest").unwrap();
    let hover = listed.iter().position(|p| *p == "/Button/state=hover").unwrap();
    let mut carrying = carrying_hosts(&nodes, &sets, &vec![0], vec![1]);
    carrying.sort();
    assert_eq!(carrying, vec![1, rest, hover]);
}

#[test]
fn a_nodes_findings_are_reported_for_its_authored_layer_at_its_place() {
    let doc = file();
    let nodes = paths(&doc);
    let sets = vec![button_set(SetState::Lowers(0))];
    let components = vec!["1:2".to_string(), "1:3".to_string()];
    let read = Interactions {
        switches: vec![Switch {
            destination: "1:3".to_string(),
            tween: None,
            refused_motion: Some("a DISSOLVE transition".to_string()),
        }],
        unsupported: vec!["prototype trigger ON_KEY_DOWN".to_string()],
    };
    let mut collapse = Collapse::new();
    name_node(&nodes, 2, &read, &sets, &components, &vec![1], &vec![], &vec![], &vec![], EmitPolicy::Strict, &mut collapse);
    name_node(&nodes, 8, &read, &sets, &components, &vec![1], &vec![], &vec![], &vec![], EmitPolicy::Strict, &mut collapse);
    let out = collapse.finish();
    assert_eq!(out.len(), 2);
    assert_eq!(out[0].rule, "figma.prototype.unsupported-interaction");
    assert_eq!(out[0].severity, Severity::Error);
    assert_eq!(out[0].message, "prototype trigger ON_KEY_DOWN is not in the document vocabulary");
    match &out[0].at {
        Location::Node(p) => assert_eq!((p.index, p.path.as_str()), (0, "/page/btn/label")),
        other => panic!("{other:?}"),
    }
    assert_eq!(out[1].rule, "figma.prototype.unsupported-motion");
    assert_eq!(out[1].severity, Severity::Warning);
    assert_eq!(out[1].message, "a DISSOLVE transition; the switch lands in one frame");
}

#[test]
fn echoed_copies_of_one_reaction_collapse_onto_one_finding() {
    let mut doc = file();
    doc.children[0].children[0].children[0].children[0].id = Some("I5:1;3:4".to_string());
    doc.children[0].children[0].children[1].children.push({
        let mut copy = node("label", "TEXT", Some("I5:2;3:4"), vec![]);
        copy.kind = "TEXT".to_string();
        copy
    });
    let nodes = paths(&doc);
    let read = Interactions { switches: vec![], unsupported: vec!["prototype action URL".to_string()] };
    let mut collapse = Collapse::new();
    let lowered = vec![LoweredNode {
        node_id: "I5:1;3:4".to_string(),
        index: 4,
        path: "/page/btn/label".to_string(),
        fill_opacity: 1f32.to_bits(),
    }];
    let first = nodes.iter().position(|w| w.node.id.as_deref() == Some("I5:1;3:4")).unwrap();
    let second = nodes.iter().position(|w| w.node.id.as_deref() == Some("I5:2;3:4")).unwrap();
    for at in [first, second] {
        name_node(&nodes, at, &read, &vec![], &vec![], &vec![], &vec![], &vec![], &lowered, EmitPolicy::Partial, &mut collapse);
    }
    let out = collapse.finish();
    assert_eq!(out.len(), 1);
    assert_eq!(out[0].severity, Severity::Warning);
    assert_eq!(
        out[0].message,
        "prototype action URL is not in the document vocabulary (and 1 further copy of the same reaction, not listed separately)"
    );
    match &out[0].at {
        Location::Node(p) => assert_eq!(p.index, 4),
        other => panic!("{other:?}"),
    }
}

fn read_of(switches: Vec<Switch>) -> Interactions {
    Interactions { switches, unsupported: vec![] }
}

#[test]
fn switches_gather_onto_the_table_of_the_host_they_land_at() {
    let doc = nested_file();
    let nodes = paths(&doc);
    let sets = vec![
        SetEntry { members: vec!["1:2".to_string(), "1:3".to_string()], state: SetState::Lowers(0) },
        SetEntry { members: vec!["2:2".to_string(), "2:3".to_string()], state: SetState::Lowers(1) },
    ];
    let at = |path: &str| nodes.iter().position(|w| w.path == path).unwrap();
    let (btn, rest, icon) = (at("/page/btn"), at("/Button/state=rest"), at("/Button/state=hover/icon"));
    let mut reads: Vec<Interactions> = nodes.iter().map(|_| read_of(vec![])).collect();
    let to = |d: &str, tween: bool| Switch {
        destination: d.to_string(),
        tween: if tween { Some((0.3f32.to_bits(), dashc::prototype::Easing::EaseOut)) } else { None },
        refused_motion: None,
    };
    reads[btn] = read_of(vec![to("1:3", false), to("9:9", true)]);
    reads[rest] = read_of(vec![to("1:3", true)]);
    reads[icon] = read_of(vec![to("2:3", false), to("1:2", false)]);
    let g = gather(&nodes, &reads, &sets);
    // The icon's switch into the enclosing set crosses the icon instance and
    // lands at the member root that holds it.
    assert_eq!(g.set_default[0], vec![(rest, 0), (icon, 1)]);
    assert_eq!(g.set_default[1], Vec::<(usize, usize)>::new());
    assert_eq!(g.instance_own[btn], vec![(btn, 0)]);
    assert_eq!(g.instance_own[icon], vec![(icon, 0)]);
    assert_eq!(g.animates, vec![true, false]);
}
