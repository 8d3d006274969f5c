use dashc::document::Box2D;
use dashc::figma::{FigmaLayout, FigmaNode};
use dashc::bindings::LoweredNode;
use dashc::members::{join_instance, member_trees, show, tree_of};

fn layer(name: &str, children: Vec<FigmaNode>) -> FigmaNode {
    FigmaNode {
        id: None,
        name: name.to_string(),
        kind: "FRAME".to_string(),
        children,
        fills: vec![],
        strokes: vec![],
        effects: vec![],
        blend_mode: None,
        corner_smoothing: None,
        layout: FigmaLayout::default(),
        absolute_bounding_box: Some(Box2D { x: 0, y: 0, width: 0, height: 0 }),
        rotation: None,
        size: None,
        is_mask: None,
        mask_type: None,
        section_contents_hidden: None,
        layout_positioning: None,
        strokes_included_in_layout: None,
        item_reverse_z_index: None,
        complex_stroke_properties: None,
        stroke_dashes: None,
        stroke_align: None,
        characters: None,
        style: None,
        style_overrides: 0,
        component_id: None,
        compared: dashc::figma::ComparedFields::none(),
        facts: dashc::figma::WalkFacts::plain(),
        interactions: vec![],
    }
}

fn keys(root: &FigmaNode) -> Vec<String> {
    let mut ks: Vec<String> = tree_of(root).expect("a tree").iter().map(|e| e.key.clone()).collect();
    ks.sort();
    ks
}

#[test]
fn layers_are_keyed_by_name_path() {
    let member = layer("On", vec![layer("bar", vec![]), layer("panel", vec![layer("label", vec![])])]);
    assert_eq!(keys(&member), vec!["", "bar", "panel", "panel/label"]);
    let tree = tree_of(&member).unwrap();
    let label = tree.iter().find(|e| e.key == "panel/label").unwrap();
    assert_eq!(label.parent.map(|p| p.name.as_str()), Some("panel"));
    let root = tree.iter().find(|e| e.key.is_empty()).unwrap();
    assert!(root.parent.is_none());
}

#[test]
fn two_layers_sharing_a_path_refuse_the_member() {
    let member = layer("On", vec![layer("dot", vec![]), layer("dot", vec![])]);
    match tree_of(&member) {
        Err(m) => assert_eq!(
            m,
            "two nodes under \"On\" share the name path \"dot\", so an override cannot name one of them"
        ),
        Ok(_) => panic!("expected a refusal"),
    }
}

#[test]
fn the_root_path_shows_as_a_slash() {
    assert_eq!(show(""), "/");
    assert_eq!(show("panel/label"), "panel/label");
}

#[test]
fn a_set_of_one_member_is_passed_over() {
    let only = layer("On", vec![]);
    assert!(matches!(member_trees(&[&only]), Err(None)));
}

#[test]
fn members_with_the_same_layers_line_up() {
    let on = layer("On", vec![layer("knob", vec![])]);
    let off = layer("Off", vec![layer("knob", vec![])]);
    match member_trees(&[&on, &off]) {
        Ok(trees) => {
            assert_eq!(trees.len(), 2);
            assert_eq!(trees[1].len(), 2);
        }
        Err(e) => panic!("{e:?}"),
    }
}

#[test]
fn a_member_with_other_layers_refuses_the_set_naming_the_least_path() {
    let on = layer("On", vec![layer("knob", vec![]), layer("zeta", vec![])]);
    let off = layer("Off", vec![layer("knob", vec![]), layer("glow", vec![])]);
    match member_trees(&[&on, &off]) {
        Err(Some(m)) => assert_eq!(
            m,
            "member \"On\" and member \"Off\" differ in their child nodes (\"glow\" is in one and not the \
             other), which no variant override can express"
        ),
        other => panic!("{other:?}"),
    }
}

#[test]
fn a_member_sharing_a_path_refuses_the_set_first() {
    let on = layer("On", vec![layer("a", vec![])]);
    let off = layer("Off", vec![layer("b", vec![]), layer("b", vec![])]);
    match member_trees(&[&on, &off]) {
        Err(Some(m)) => assert!(m.starts_with("two nodes under \"Off\" share the name path \"b\"")),
        other => panic!("{other:?}"),
    }
}

fn with_id(mut n: FigmaNode, id: &str) -> FigmaNode {
    n.id = Some(id.to_string());
    n
}

fn lowered(node_id: &str, index: u32) -> LoweredNode {
    LoweredNode { node_id: node_id.to_string(), index, path: String::new(), fill_opacity: 1f32.to_bits() }
}

#[test]
fn an_instance_joins_the_member_path_by_path() {
    let member = layer("On", vec![layer("knob", vec![])]);
    let instance = with_id(layer("Toggle", vec![with_id(layer("knob", vec![]), "2:2")]), "2:1");
    let member_tree = tree_of(&member).unwrap();
    let baked = tree_of(&instance).unwrap();
    let index_of_id = vec![lowered("2:1", 4), lowered("2:2", 5)];
    let mut joined = join_instance(&member_tree, "On", &baked, &index_of_id).unwrap();
    joined.sort();
    assert_eq!(joined, vec![(String::new(), 4), ("knob".to_string(), 5)]);
}

#[test]
fn an_instance_missing_a_path_is_refused_at_the_least_one() {
    let member = layer("On", vec![layer("b", vec![]), layer("a", vec![])]);
    let instance = with_id(layer("Toggle", vec![]), "2:1");
    let member_tree = tree_of(&member).unwrap();
    let baked = tree_of(&instance).unwrap();
    let index_of_id = vec![lowered("2:1", 0)];
    assert_eq!(
        join_instance(&member_tree, "On", &baked, &index_of_id).unwrap_err(),
        "the instance has no \"a\" to match member \"On\""
    );
}

#[test]
fn an_instance_layer_that_lowered_to_nothing_is_refused() {
    let member = layer("On", vec![]);
    let instance = layer("Toggle", vec![]);
    let member_tree = tree_of(&member).unwrap();
    let baked = tree_of(&instance).unwrap();
    assert_eq!(
        join_instance(&member_tree, "On", &baked, &vec![]).unwrap_err(),
        "the instance's \"/\" lowered to no document node"
    );
}
