//! The variant tables, lowered from Figma's component sets, and the
//! findings of every prototype interaction that animates them.
//!
//! One variant set is emitted per instance of a component set that plans:
//! its members are the set's members, its active member the one the
//! instance shows, and its overrides name that instance's own lowered
//! layers, joined to the members' layers by name path. What differs
//! between members becomes overrides; what differs on a rect channel also
//! becomes a track of the transition a switch plays. A set whose members
//! differ in a way no override expresses emits no table and says why.
use vstd::prelude::*;

use crate::diagnostics::{Diagnostic, Location, Severity};
use crate::document::{
    AxisSizing, Box2D, Color, Document, LayoutConstraints, PropTransition, TransitionSpec, VariantMember,
    VariantOverride, VariantSet, VariantTransition, VariantValue,
};
use crate::figma::{constraints_of, constraints_outcome, is_nonzero_bits, text_sizing, text_sizing_outcome, FigmaNode, FigmaPaint, Point, GradientStop};
use crate::lower::glyph_color;
use crate::text::{push_str, str_eq, string_of, strings_view};
use crate::members::{member_trees, show, TreeEntry};
use crate::structure::differs_beyond_overrides;
use crate::figma::{insert_sorted, strictly_sorted};
use crate::tweens::{f32_equal, f32_equal_exec, layer_tracks, set_tracks, solid_fill, solid_of, variant_tracks, Prop};
use crate::bindings::LoweredNode;
use crate::members::{entries_view, join_of, join_one, tree_of, tree_outcome, KeyedView};
use crate::prototype::{read, Easing, Interactions, Switch};
use crate::echo::{contended_transition, Collapse, Echoable, SetState};
use crate::hosts::{members, carrying_hosts, gather, located, members_of, name_node, parents_precede, paths, reachability, set_of, SetEntry};
use crate::tweens::{animatable, contended_entries, copy_location, declared, declared_tweens, has_id, instance_loss, position_of, set_diagnostics, set_loss, switch_views};
use crate::figma::derefs;
use crate::seqs::lemma_first_match;
use crate::EmitPolicy;
use crate::document::{BindingChannel, Node};
use crate::echo::{
    finish_spec, finished, folds_into, interaction_findings, omission_weight, report_spec, switch_findings,
    switch_verdict, switches_findings, vocabulary_gap, CollapseView, EchoableView, Landing, Reach, Verdict,
    UNSUPPORTED_INTERACTION,
};
use crate::hosts::{location_of, report_all, resolutions, source_of};
use crate::bindings::lowered_view;
use crate::prototype::{InteractionsView, SwitchView};
use crate::tweens::{contended_text, interpolated_text, motion_finding, named_props, rect_differs, set_motion};
use crate::diagnostics::LocationView;
use crate::seqs::first_match;
use crate::tweens::{prop_word, UNLOWERABLE_SET};
use crate::diagnostics::DiagnosticView;
use crate::walk::last_shown;

verus! {

// ---- what a member's layer carries that an override can change ----------------

/// One layer's overridable props: its place and extent, its fills as
/// authored, the one solid colour a fill override could carry (with the
/// paint's opacity folded in), whether its fill paints (a text node's
/// lowers into its style), whether it shows, and its turn.
pub struct Props<'a> {
    pub x: u32,
    pub y: u32,
    pub width: u32,
    pub height: u32,
    pub node: &'a FigmaNode,
    pub solid: Option<Color>,
    pub paints: bool,
    pub visible: bool,
    pub rotation: u32,
}

pub struct PropsView {
    pub x: u32,
    pub y: u32,
    pub width: u32,
    pub height: u32,
    pub fills: Seq<FigmaPaint>,
    pub solid: Option<Color>,
    pub paints: bool,
    pub visible: bool,
    pub rotation: u32,
}

impl<'a> View for Props<'a> {
    type V = PropsView;

    open spec fn view(&self) -> PropsView {
        PropsView {
            x: self.x,
            y: self.y,
            width: self.width,
            height: self.height,
            fills: self.node.fills@,
            solid: self.solid,
            paints: self.paints,
            visible: self.visible,
            rotation: self.rotation,
        }
    }
}

/// Whether a parent places its children by a solver: it has an
/// auto-layout mode other than `NONE`.
pub open spec fn in_flow(parent: Option<FigmaNode>) -> bool {
    match parent {
        Some(p) => match p.layout.layout_mode {
            Some(m) => m@ != "NONE"@,
            None => false,
        },
        None => false,
    }
}

/// A layer's extent before sizing: its own `size` when it turns, else its
/// box's, else nothing.
pub open spec fn unsized_extent(n: FigmaNode) -> (u32, u32) {
    if is_nonzero_bits(n.facts.turn) && n.size is Some {
        n.size->0
    } else {
        match n.absolute_bounding_box {
            Some(b) => (b.width, b.height),
            None => (0u32, 0u32),
        }
    }
}

/// A layer's sizing as the walk reads it with no flex parent: its layout
/// sizing, and for text its auto-resize, defaulting to fixed.
pub open spec fn member_sizing(n: FigmaNode) -> LayoutConstraints {
    let c = constraints_outcome(n.layout, None).0;
    let c2 = if n.kind@ == "TEXT"@ {
        text_sizing_outcome(n.layout, c)
    } else {
        c
    };
    match c2 {
        Some(k) => k,
        None => crate::document::default_constraints(),
    }
}

/// The solid colour a fill override could carry: the one shown solid fill,
/// its paint opacity folded in.
pub open spec fn solid_color(n: FigmaNode) -> Option<Color> {
    if solid_of(n) is Some {
        Some(glyph_color(n, last_shown(n.fills@)))
    } else {
        None
    }
}

/// The props of layer `n` under `parent` (none for a member's root): its
/// offset in a parent that does not place it by a solver, its extent on
/// each fixed axis, and the rest as the node carries them.
pub open spec fn props_spec(n: FigmaNode, parent: Option<FigmaNode>) -> PropsView {
    let at: (u32, u32) = if parent is Some && !in_flow(parent) && n.absolute_bounding_box is Some
        && parent->0.absolute_bounding_box is Some {
        match n.facts.props_offset {
            Some(o) => o,
            None => (0u32, 0u32),
        }
    } else {
        (0u32, 0u32)
    };
    let s = member_sizing(n);
    PropsView {
        x: at.0,
        y: at.1,
        width: if s.sizing_h == AxisSizing::Fixed {
            unsized_extent(n).0
        } else {
            0
        },
        height: if s.sizing_v == AxisSizing::Fixed {
            unsized_extent(n).1
        } else {
            0
        },
        fills: n.fills@,
        solid: solid_color(n),
        paints: n.kind@ != "TEXT"@,
        visible: n.facts.visible != Some(false),
        rotation: n.facts.turn,
    }
}

/// The props of layer `node` under `parent`, as `props_spec` says.
pub fn props_of<'a>(node: &'a FigmaNode, parent: Option<&FigmaNode>) -> (p: Props<'a>)
    ensures
        p@ == props_spec(
            *node,
            match parent {
                Some(q) => Some(*q),
                None => None,
            },
        ),
        p.node == node,
{
    let (x, y) = match parent {
        Some(q) => {
            let flows = match &q.layout.layout_mode {
                Some(m) => !str_eq(m.as_str(), "NONE"),
                None => false,
            };
            if !flows && node.absolute_bounding_box.is_some() && q.absolute_bounding_box.is_some() {
                match node.facts.props_offset {
                    Some(o) => o,
                    None => (0u32, 0u32),
                }
            } else {
                (0u32, 0u32)
            }
        },
        None => (0u32, 0u32),
    };
    let mut ignored: Vec<String> = Vec::new();
    let c = constraints_of(&node.layout, None, &mut ignored);
    let c2 = if str_eq(node.kind.as_str(), "TEXT") {
        text_sizing(&node.layout, c)
    } else {
        c
    };
    let s = match c2 {
        Some(k) => k,
        None => LayoutConstraints::default(),
    };
    let turn = node.facts.turn;
    let (own_w, own_h) = match node.size {
        Some(sz) => if turn != 0 && turn != 0x8000_0000 {
            sz
        } else {
            match node.absolute_bounding_box {
                Some(b) => (b.width, b.height),
                None => (0u32, 0u32),
            }
        },
        None => match node.absolute_bounding_box {
            Some(b) => (b.width, b.height),
            None => (0u32, 0u32),
        },
    };
    let solid = match solid_fill(node) {
        Some(_) => {
            proof {
                crate::walk::lemma_last_shown(node.fills@);
            }
            match crate::walk::single_visible_paint(&node.fills) {
                crate::walk::OnePaint::One(i) => Some(crate::lower::glyph_color_of(node, i)),
                _ => None,
            }
        },
        None => None,
    };
    Props {
        x,
        y,
        width: if s.sizing_h == AxisSizing::Fixed {
            own_w
        } else {
            0
        },
        height: if s.sizing_v == AxisSizing::Fixed {
            own_h
        } else {
            0
        },
        node,
        solid,
        paints: !str_eq(node.kind.as_str(), "TEXT"),
        visible: match node.facts.visible {
            Some(false) => false,
            _ => true,
        },
        rotation: turn,
    }
}

// ---- comparing fills as the floats they carry -------------------------------

pub open spec fn opt_f32_equal(a: Option<u32>, b: Option<u32>) -> bool {
    match (a, b) {
        (None, None) => true,
        (Some(x), Some(y)) => f32_equal(x, y),
        _ => false,
    }
}

pub open spec fn color_equal(a: Color, b: Color) -> bool {
    f32_equal(a.r, b.r) && f32_equal(a.g, b.g) && f32_equal(a.b, b.b) && f32_equal(a.a, b.a)
}

pub open spec fn opt_color_equal(a: Option<Color>, b: Option<Color>) -> bool {
    match (a, b) {
        (None, None) => true,
        (Some(x), Some(y)) => color_equal(x, y),
        _ => false,
    }
}

pub open spec fn points_equal(a: Seq<Point>, b: Seq<Point>) -> bool {
    a.len() == b.len() && forall|i: int| 0 <= i < a.len() ==> f32_equal(#[trigger] a[i].x, b[i].x) && f32_equal(a[i].y, b[i].y)
}

pub open spec fn stops_equal(a: Seq<GradientStop>, b: Seq<GradientStop>) -> bool {
    a.len() == b.len() && forall|i: int|
        0 <= i < a.len() ==> f32_equal(#[trigger] a[i].position, b[i].position) && color_equal(a[i].color, b[i].color)
}

pub open spec fn transform_equal(a: Option<[u32; 6]>, b: Option<[u32; 6]>) -> bool {
    match (a, b) {
        (None, None) => true,
        (Some(x), Some(y)) => forall|i: int| 0 <= i < 6 ==> f32_equal(#[trigger] x@[i], y@[i]),
        _ => false,
    }
}

pub open spec fn opt_str_equal(a: Option<String>, b: Option<String>) -> bool {
    match (a, b) {
        (None, None) => true,
        (Some(x), Some(y)) => x@ == y@,
        _ => false,
    }
}

/// Whether two paints are equal field by field, each float as floats
/// compare.
pub open spec fn paint_equal(p: FigmaPaint, q: FigmaPaint) -> bool {
    &&& p.kind@ == q.kind@
    &&& opt_str_equal(p.blend_mode, q.blend_mode)
    &&& p.visible == q.visible
    &&& opt_f32_equal(p.opacity, q.opacity)
    &&& opt_color_equal(p.color, q.color)
    &&& points_equal(p.gradient_handle_positions@, q.gradient_handle_positions@)
    &&& stops_equal(p.gradient_stops@, q.gradient_stops@)
    &&& opt_str_equal(p.scale_mode, q.scale_mode)
    &&& opt_str_equal(p.image_ref, q.image_ref)
    &&& transform_equal(p.image_transform, q.image_transform)
    &&& opt_f32_equal(p.scaling_factor, q.scaling_factor)
}

pub open spec fn paints_equal(a: Seq<FigmaPaint>, b: Seq<FigmaPaint>) -> bool {
    a.len() == b.len() && forall|i: int| 0 <= i < a.len() ==> paint_equal(#[trigger] a[i], b[i])
}

fn opt_f32_eq(a: Option<u32>, b: Option<u32>) -> (r: bool)
    ensures
        r == opt_f32_equal(a, b),
{
    match (a, b) {
        (None, None) => true,
        (Some(x), Some(y)) => f32_equal_exec(x, y),
        _ => false,
    }
}

fn color_eq(a: Color, b: Color) -> (r: bool)
    ensures
        r == color_equal(a, b),
{
    f32_equal_exec(a.r, b.r) && f32_equal_exec(a.g, b.g) && f32_equal_exec(a.b, b.b) && f32_equal_exec(a.a, b.a)
}

fn opt_str_eq(a: &Option<String>, b: &Option<String>) -> (r: bool)
    ensures
        r == opt_str_equal(*a, *b),
{
    match (a, b) {
        (None, None) => true,
        (Some(x), Some(y)) => str_eq(x.as_str(), y.as_str()),
        _ => false,
    }
}

#[verifier::spinoff_prover]
fn paint_eq(p: &FigmaPaint, q: &FigmaPaint) -> (r: bool)
    ensures
        r == paint_equal(*p, *q),
{
    if !str_eq(p.kind.as_str(), q.kind.as_str()) || !opt_str_eq(&p.blend_mode, &q.blend_mode) || p.visible
        != q.visible || !opt_f32_eq(p.opacity, q.opacity) {
        return false;
    }
    let colors = match (p.color, q.color) {
        (None, None) => true,
        (Some(x), Some(y)) => color_eq(x, y),
        _ => false,
    };
    if !colors {
        return false;
    }
    let (ph, qh) = (&p.gradient_handle_positions, &q.gradient_handle_positions);
    if ph.len() != qh.len() {
        return false;
    }
    let mut i: usize = 0;
    while i < ph.len()
        invariant
            i <= ph@.len(),
            ph@.len() == qh@.len(),
            ph@ == p.gradient_handle_positions@,
            qh@ == q.gradient_handle_positions@,
            forall|k: int| 0 <= k < i ==> f32_equal(#[trigger] ph@[k].x, qh@[k].x) && f32_equal(ph@[k].y, qh@[k].y),
        decreases ph@.len() - i,
    {
        let same = f32_equal_exec(ph[i].x, qh[i].x) && f32_equal_exec(ph[i].y, qh[i].y);
        if !same {
            proof {
                assert(!(f32_equal(ph@[i as int].x, qh@[i as int].x) && f32_equal(ph@[i as int].y, qh@[i as int].y)));
                assert(!points_equal(p.gradient_handle_positions@, q.gradient_handle_positions@));
            }
            return false;
        }
        proof {
            let ghost here = i as int;
            assert(f32_equal(ph@[here].x, qh@[here].x) && f32_equal(ph@[here].y, qh@[here].y));
            assert forall|k: int| 0 <= k < here + 1 implies f32_equal(#[trigger] ph@[k].x, qh@[k].x) && f32_equal(
                ph@[k].y,
                qh@[k].y,
            ) by {
                if k == here {
                    assert(f32_equal(ph@[here].x, qh@[here].x));
                }
            }
        }
        i = i + 1;
    }
    let (ps, qs) = (&p.gradient_stops, &q.gradient_stops);
    if ps.len() != qs.len() {
        return false;
    }
    let mut j: usize = 0;
    while j < ps.len()
        invariant
            j <= ps@.len(),
            ps@.len() == qs@.len(),
            ps@ == p.gradient_stops@,
            qs@ == q.gradient_stops@,
            forall|k: int|
                0 <= k < j ==> f32_equal(#[trigger] ps@[k].position, qs@[k].position) && color_equal(ps@[k].color, qs@[k].color),
        decreases ps@.len() - j,
    {
        let same = f32_equal_exec(ps[j].position, qs[j].position) && color_eq(ps[j].color, qs[j].color);
        if !same {
            proof {
                assert(!(f32_equal(ps@[j as int].position, qs@[j as int].position) && color_equal(
                    ps@[j as int].color,
                    qs@[j as int].color,
                )));
                assert(!stops_equal(p.gradient_stops@, q.gradient_stops@));
            }
            return false;
        }
        proof {
            let ghost here = j as int;
            assert(f32_equal(ps@[here].position, qs@[here].position) && color_equal(ps@[here].color, qs@[here].color));
            assert forall|k: int| 0 <= k < here + 1 implies f32_equal(#[trigger] ps@[k].position, qs@[k].position)
                && color_equal(ps@[k].color, qs@[k].color) by {
                if k == here {
                    assert(f32_equal(ps@[here].position, qs@[here].position));
                }
            }
        }
        j = j + 1;
    }
    if !opt_str_eq(&p.scale_mode, &q.scale_mode) || !opt_str_eq(&p.image_ref, &q.image_ref) {
        return false;
    }
    let transforms = match (&p.image_transform, &q.image_transform) {
        (None, None) => true,
        (Some(x), Some(y)) => {
            let mut k: usize = 0;
            let mut same = true;
            while k < 6
                invariant
                    k <= 6,
                    same == forall|t: int| 0 <= t < k ==> f32_equal(#[trigger] x@[t], y@[t]),
                decreases 6 - k,
            {
                let e = f32_equal_exec(x[k], y[k]);
                proof {
                    if !e {
                        assert(!f32_equal(x@[k as int], y@[k as int]));
                    }
                }
                same = same && e;
                k = k + 1;
            }
            same
        },
        _ => false,
    };
    transforms && opt_f32_eq(p.scaling_factor, q.scaling_factor)
}

fn paints_eq(a: &Vec<FigmaPaint>, b: &Vec<FigmaPaint>) -> (r: bool)
    ensures
        r == paints_equal(a@, b@),
{
    if a.len() != b.len() {
        return false;
    }
    let mut i: usize = 0;
    while i < a.len()
        invariant
            i <= a@.len(),
            a@.len() == b@.len(),
            forall|k: int| 0 <= k < i ==> paint_equal(#[trigger] a@[k], b@[k]),
        decreases a@.len() - i,
    {
        if !paint_eq(&a[i], &b[i]) {
            return false;
        }
        i = i + 1;
    }
    true
}

/// The props in which two layers differ, in the order x, y, width,
/// height, fill, visibility, rotation; floats compare as floats.
pub open spec fn props_diff_spec(a: PropsView, b: PropsView) -> Seq<Prop> {
    (if !f32_equal(a.x, b.x) { seq![Prop::X] } else { seq![] }) + (if !f32_equal(a.y, b.y) {
        seq![Prop::Y]
    } else {
        seq![]
    }) + (if !f32_equal(a.width, b.width) { seq![Prop::Width] } else { seq![] }) + (if !f32_equal(
        a.height,
        b.height,
    ) {
        seq![Prop::Height]
    } else {
        seq![]
    }) + (if !paints_equal(a.fills, b.fills) { seq![Prop::Fill] } else { seq![] }) + (if a.visible != b.visible {
        seq![Prop::Visible]
    } else {
        seq![]
    }) + (if !f32_equal(a.rotation, b.rotation) { seq![Prop::Rotation] } else { seq![] })
}

fn push_if(v: &mut Vec<Prop>, cond: bool, p: Prop)
    ensures
        final(v)@ == old(v)@ + if cond { seq![p] } else { Seq::<Prop>::empty() },
{
    if cond {
        v.push(p);
    }
    assert(final(v)@ =~= old(v)@ + if cond { seq![p] } else { Seq::<Prop>::empty() });
}

/// The props in which two layers differ, as `props_diff_spec` says.
pub fn props_diff(a: &Props, b: &Props) -> (d: Vec<Prop>)
    ensures
        d@ == props_diff_spec(a@, b@),
{
    let mut d: Vec<Prop> = Vec::new();
    push_if(&mut d, !f32_equal_exec(a.x, b.x), Prop::X);
    push_if(&mut d, !f32_equal_exec(a.y, b.y), Prop::Y);
    push_if(&mut d, !f32_equal_exec(a.width, b.width), Prop::Width);
    push_if(&mut d, !f32_equal_exec(a.height, b.height), Prop::Height);
    push_if(&mut d, !paints_eq(&a.node.fills, &b.node.fills), Prop::Fill);
    push_if(&mut d, a.visible != b.visible, Prop::Visible);
    push_if(&mut d, !f32_equal_exec(a.rotation, b.rotation), Prop::Rotation);
    assert(d@ =~= props_diff_spec(a@, b@));
    d
}

// ---- one component set, planned ----------------------------------------------

/// One component set, planned: its members in declaration order and their
/// names, each member's layers keyed by name path, the paths in the order
/// they sort, each member's props at each path (`props[m][k]` for the
/// `k`-th path), and what differs anywhere in the set at each path where
/// something does (the path's position, and the props in their order).
pub struct Plan<'a> {
    pub members: Vec<&'a FigmaNode>,
    pub names: Vec<String>,
    pub trees: Vec<Vec<TreeEntry<'a>>>,
    pub keys: Vec<String>,
    pub props: Vec<Vec<Props<'a>>>,
    pub differing: Vec<(usize, Vec<Prop>)>,
}

impl<'a> Plan<'a> {
    /// The paths, the trees and the props line up with the members.
    pub open spec fn wf(&self) -> bool {
        &&& self.members@.len() >= 2
        &&& self.names@.len() == self.members@.len()
        &&& self.trees@.len() == self.members@.len()
        &&& self.props@.len() == self.members@.len()
        &&& forall|m: int| 0 <= m < self.props@.len() ==> (#[trigger] self.props@[m])@.len() == self.keys@.len()
        &&& forall|d: int| 0 <= d < self.differing@.len() ==> ((#[trigger] self.differing@[d]).0 as int) < self.keys@.len()
    }
}

/// The position of the layer keyed `key` in `tree`, if any.
fn find_key<'a>(tree: &Vec<TreeEntry<'a>>, key: &String) -> (r: Option<usize>)
    ensures
        r matches Some(i) ==> i < tree@.len() && tree@[i as int].key@ == key@,
{
    let mut i: usize = 0;
    while i < tree.len()
        invariant
            i <= tree@.len(),
        decreases tree@.len() - i,
    {
        if str_eq(tree[i].key.as_str(), key.as_str()) {
            return Some(i);
        }
        i = i + 1;
    }
    None
}

/// The paths of `tree`, in the order they sort.
fn sorted_keys<'a>(tree: &Vec<TreeEntry<'a>>) -> (keys: Vec<String>)
    ensures
        strictly_sorted(strings_view(keys@)),
{
    let mut keys: Vec<String> = Vec::new();
    let mut i: usize = 0;
    proof {
        assert(strings_view(keys@) =~= Seq::<Seq<char>>::empty());
    }
    while i < tree.len()
        invariant
            i <= tree@.len(),
            strictly_sorted(strings_view(keys@)),
        decreases tree@.len() - i,
    {
        insert_sorted(&mut keys, string_of(tree[i].key.as_str()));
        i = i + 1;
    }
    keys
}

/// The refusal of two members whose layers at `key` differ in `what`.
fn members_differ(first: &str, other: &str, what: &str, key: &str, tail: &str) -> (s: String) {
    let mut m = string_of("members \"");
    push_str(&mut m, first);
    push_str(&mut m, "\" and \"");
    push_str(&mut m, other);
    push_str(&mut m, "\" differ in ");
    push_str(&mut m, what);
    push_str(&mut m, " on \"");
    push_str(&mut m, key);
    push_str(&mut m, "\"");
    push_str(&mut m, tail);
    m
}

/// Whether `props` holds `p`.
fn holds(props: &Vec<Prop>, p: Prop) -> (r: bool)
    ensures
        r == props@.contains(p),
{
    let mut i: usize = 0;
    while i < props.len()
        invariant
            i <= props@.len(),
            forall|k: int| 0 <= k < i ==> props@[k] != p,
        decreases props@.len() - i,
    {
        if props[i] == p {
            return true;
        }
        i = i + 1;
    }
    false
}

/// Plans one component set, or says why it cannot make a variant table —
/// nothing, for a set of fewer than two members, which loses nothing.
/// The set's `orientation` fact at `[m - 1][k]` is whether member `m`'s
/// layer at the `k`-th path faces the way the first member's does (taken
/// as so where the fact is not given). The members must carry the same paths, differ in nothing an
/// override cannot carry, and differ in a fill only where every member's
/// is one solid colour on a layer that paints.
pub fn plan_set<'a>(set: &'a FigmaNode) -> (r: Result<Plan<'a>, Option<String>>)
    ensures
        r matches Ok(p) ==> {
            &&& p.wf()
            &&& derefs(p.members@) == members(set.children@)
            &&& forall|m: int| 0 <= m < p.names@.len() ==> (#[trigger] p.names@[m])@ == p.members@[m].name@
            &&& strictly_sorted(strings_view(p.keys@))
        },
{
    let orientation = &set.facts.orientation;
    let members = crate::hosts::members_of(set);
    let trees = match member_trees(members.as_slice()) {
        Ok(t) => t,
        Err(e) => {
            return Err(e);
        },
    };
    if members.len() < 2 || trees.len() != members.len() {
        return Err(None);
    }
    let mut names: Vec<String> = Vec::new();
    let mut i: usize = 0;
    while i < members.len()
        invariant
            i <= members@.len(),
            names@.len() == i,
            forall|m: int| 0 <= m < i ==> (#[trigger] names@[m])@ == members@[m].name@,
        decreases members@.len() - i,
    {
        names.push(string_of(members[i].name.as_str()));
        i = i + 1;
    }
    let keys = sorted_keys(&trees[0]);
    // Every layer compares with the first member's, path by path, beyond
    // what an override carries.
    let mut k: usize = 0;
    while k < keys.len()
        invariant
            k <= keys@.len(),
            members@.len() >= 2,
            trees@.len() == members@.len(),
            names@.len() == members@.len(),
        decreases keys@.len() - k,
    {
        let first = match find_key(&trees[0], &keys[k]) {
            Some(e) => trees[0][e].node,
            None => {
                return Err(None);
            },
        };
        let mut m: usize = 1;
        while m < members.len()
            invariant
                1 <= m <= members@.len(),
                members@.len() >= 2,
                trees@.len() == members@.len(),
                names@.len() == members@.len(),
                k < keys@.len(),
            decreases members@.len() - m,
        {
            let other = match find_key(&trees[m], &keys[k]) {
                Some(e) => trees[m][e].node,
                None => {
                    return Err(None);
                },
            };
            let same = if m - 1 < orientation.len() && k < orientation[m - 1].len() {
                orientation[m - 1][k]
            } else {
                true
            };
            match differs_beyond_overrides(first, other, same) {
                Some(field) => {
                    return Err(
                        Some(
                            members_differ(
                                names[0].as_str(),
                                names[m].as_str(),
                                field,
                                show(keys[k].as_str()),
                                ", which no variant override can express",
                            ),
                        ),
                    );
                },
                None => {},
            }
            m = m + 1;
        }
        k = k + 1;
    }
    // Each member's props at each path.
    let mut props: Vec<Vec<Props<'a>>> = Vec::new();
    let mut m: usize = 0;
    while m < members.len()
        invariant
            m <= members@.len(),
            members@.len() >= 2,
            trees@.len() == members@.len(),
            names@.len() == members@.len(),
            props@.len() == m,
            forall|j: int| 0 <= j < m ==> (#[trigger] props@[j])@.len() == keys@.len(),
        decreases members@.len() - m,
    {
        let mut row: Vec<Props<'a>> = Vec::new();
        let mut k: usize = 0;
        while k < keys.len()
            invariant
                k <= keys@.len(),
                m < trees@.len(),
                row@.len() == k,
            decreases keys@.len() - k,
        {
            let e = match find_key(&trees[m], &keys[k]) {
                Some(e) => e,
                None => {
                    return Err(None);
                },
            };
            row.push(props_of(trees[m][e].node, trees[m][e].parent));
            k = k + 1;
        }
        props.push(row);
        m = m + 1;
    }
    // What differs at each path, and whether an override can carry it.
    let all = [Prop::X, Prop::Y, Prop::Width, Prop::Height, Prop::Fill, Prop::Visible, Prop::Rotation];
    let mut differing: Vec<(usize, Vec<Prop>)> = Vec::new();
    let mut k: usize = 0;
    while k < keys.len()
        invariant
            k <= keys@.len(),
            members@.len() >= 2,
            trees@.len() == members@.len(),
            names@.len() == members@.len(),
            props@.len() == members@.len(),
            forall|j: int| 0 <= j < props@.len() ==> (#[trigger] props@[j])@.len() == keys@.len(),
            forall|d: int| 0 <= d < differing@.len() ==> ((#[trigger] differing@[d]).0 as int) < keys@.len(),
        decreases keys@.len() - k,
    {
        let mut seen: Vec<Prop> = Vec::new();
        let mut m: usize = 1;
        while m < members.len()
            invariant
                1 <= m <= members@.len(),
                props@.len() == members@.len(),
                forall|j: int| 0 <= j < props@.len() ==> (#[trigger] props@[j])@.len() == keys@.len(),
                k < keys@.len(),
            decreases members@.len() - m,
        {
            let d = props_diff(&props[0][k], &props[m][k]);
            let mut t: usize = 0;
            while t < d.len()
                invariant
                    t <= d@.len(),
                decreases d@.len() - t,
            {
                if !holds(&seen, d[t]) {
                    seen.push(d[t]);
                }
                t = t + 1;
            }
            m = m + 1;
        }
        // The union, in the props' own order.
        let mut union: Vec<Prop> = Vec::new();
        let mut a: usize = 0;
        while a < 7
            invariant
                a <= 7,
            decreases 7 - a,
        {
            if holds(&seen, all[a]) {
                union.push(all[a]);
            }
            a = a + 1;
        }
        let mut u: usize = 0;
        while u < union.len()
            invariant
                u <= union@.len(),
                props@.len() == members@.len(),
                names@.len() == members@.len(),
                forall|j: int| 0 <= j < props@.len() ==> (#[trigger] props@[j])@.len() == keys@.len(),
                k < keys@.len(),
            decreases union@.len() - u,
        {
            let mut m: usize = 0;
            while m < members.len()
                invariant
                    m <= members@.len(),
                    props@.len() == members@.len(),
                    names@.len() == members@.len(),
                    forall|j: int| 0 <= j < props@.len() ==> (#[trigger] props@[j])@.len() == keys@.len(),
                    k < keys@.len(),
                    u < union@.len(),
                decreases members@.len() - m,
            {
                match crate::tweens::unexpressible(props[m][k].node, union[u]) {
                    Some(why) => {
                        return Err(Some(members_differ(names[0].as_str(), names[m].as_str(), why, show(keys[k].as_str()), "")));
                    },
                    None => {},
                }
                m = m + 1;
            }
            u = u + 1;
        }
        if union.len() > 0 {
            differing.push((k, union));
        }
        k = k + 1;
    }
    Ok(Plan { members, names, trees, keys, props, differing })
}


// ---- one instance's variant table ---------------------------------------------

/// Why an instance's variant table could not be written: a sentence, or a
/// layer whose lowered rect disagrees on `prop` with the member the
/// instance shows (`lowered` and `authored` as bit patterns, which the
/// caller writes as the decimals they print as).
pub enum Refusal {
    Text(String),
    Mismatch { key: String, prop: Prop, lowered: u32, authored: u32, member: String },
}

/// Every document field but the variant tables is the same in `a` and `b`.
pub open spec fn same_but_variants(a: Document, b: Document) -> bool {
    &&& a.nodes@ == b.nodes@
    &&& a.assets@ == b.assets@
    &&& a.signals@ == b.signals@
    &&& a.bindings@ == b.bindings@
    &&& a.vector_atlases@ == b.vector_atlases@
    &&& a.vector_shapes@ == b.vector_shapes@
}

/// A member's overrides and tracks name nodes below `n`.
pub open spec fn member_in_range(m: VariantMember, n: int) -> bool {
    &&& forall|o: int| 0 <= o < m.overrides@.len() ==> ((#[trigger] m.overrides@[o]).node as int) < n
    &&& m.transition matches Some(t) ==> forall|k: int|
        0 <= k < t.tracks@.len() ==> ((#[trigger] t.tracks@[k]).node as int) < n
}

/// A variant table has a member to switch to besides the one it shows,
/// and names an active member it has, and nodes below `n`.
pub open spec fn set_in_range(s: VariantSet, n: int) -> bool {
    &&& s.members@.len() >= 2
    &&& (s.active_member as int) < s.members@.len()
    &&& forall|m: int| 0 <= m < s.members@.len() ==> member_in_range(#[trigger] s.members@[m], n)
}

/// A prop's value as the override that carries it; a rotation turns about
/// the layer's own origin.
pub open spec fn override_spec(p: PropsView, prop: Prop) -> VariantValue {
    match prop {
        Prop::X => VariantValue::X(p.x),
        Prop::Y => VariantValue::Y(p.y),
        Prop::Width => VariantValue::Width(p.width),
        Prop::Height => VariantValue::Height(p.height),
        Prop::Fill => VariantValue::Fill(
            match p.solid {
                Some(c) => c,
                None => Color { r: 0, g: 0, b: 0, a: 0 },
            },
        ),
        Prop::Visible => VariantValue::Visible(p.visible),
        Prop::Rotation => VariantValue::Rotation { angle: p.rotation, anchor_x: 0, anchor_y: 0 },
    }
}

/// The override value of `prop` on layer props `p`. A planned set differs
/// in a fill only where every member's is one solid colour, so the clear
/// colour a fill without one would take is never written.
fn override_value(p: &Props, prop: Prop) -> (v: VariantValue)
    ensures
        v == override_spec(p@, prop),
{
    match prop {
        Prop::X => VariantValue::X(p.x),
        Prop::Y => VariantValue::Y(p.y),
        Prop::Width => VariantValue::Width(p.width),
        Prop::Height => VariantValue::Height(p.height),
        Prop::Fill => VariantValue::Fill(
            match p.solid {
                Some(c) => c,
                None => Color { r: 0, g: 0, b: 0, a: 0 },
            },
        ),
        Prop::Visible => VariantValue::Visible(p.visible),
        Prop::Rotation => VariantValue::Rotation { angle: p.rotation, anchor_x: 0, anchor_y: 0 },
    }
}

/// The authored and the lowered value of a rect prop, or nothing for the
/// three props with no rect value.
fn rect_pair(p: &Props, b: &Box2D, prop: Prop) -> (r: Option<(u32, u32)>)
    ensures
        r == rect_pair_spec(p@, *b, prop),
{
    match prop {
        Prop::X => Some((p.x, b.x)),
        Prop::Y => Some((p.y, b.y)),
        Prop::Width => Some((p.width, b.width)),
        Prop::Height => Some((p.height, b.height)),
        _ => None,
    }
}

/// The document index the instance's layer at the plan's `k`-th path
/// lowered to, where it joins (see `join_of`).
pub open spec fn joined_index<'a>(plan: Plan<'a>, instance: FigmaNode, active: int, index_of_id: Seq<LoweredNode>, k: int) -> u32 {
    match tree_outcome(instance) {
        Ok(baked) => match join_of(plan.keys@[k]@, plan.names@[active]@, baked, lowered_view(index_of_id)) {
            Ok(i) => i,
            Err(_) => 0,
        },
        Err(_) => 0,
    }
}

/// Whether the instance's layer at the plan's `k`-th path joins a lowered
/// node.
pub open spec fn joins<'a>(plan: Plan<'a>, instance: FigmaNode, active: int, index_of_id: Seq<LoweredNode>, k: int) -> bool {
    tree_outcome(instance) matches Ok(baked) && join_of(plan.keys@[k]@, plan.names@[active]@, baked, lowered_view(index_of_id)) is Ok
}

/// Whether an instance's baked subtree carries the plan's table showing
/// `active`: its layers' paths are distinct, each of the plan's paths joins
/// a lowered node, and each rect prop an override carries lowered to the
/// value the active member authors.
pub open spec fn carries_table<'a>(plan: Plan<'a>, instance: FigmaNode, active: int, index_of_id: Seq<LoweredNode>, nodes: Seq<Node>) -> bool {
    &&& tree_outcome(instance) is Ok
    &&& forall|k: int| 0 <= k < plan.keys@.len() ==> #[trigger] joins(plan, instance, active, index_of_id, k)
    &&& forall|d: int|
        #![trigger plan.differing@[d]]
        0 <= d < plan.differing@.len() ==> layer_agrees(
            plan,
            nodes,
            joined_indices(plan, instance, active, index_of_id),
            active,
            d,
        )
}

/// The document index of each of the plan's paths in the instance.
pub open spec fn joined_indices<'a>(plan: Plan<'a>, instance: FigmaNode, active: int, index_of_id: Seq<LoweredNode>) -> Seq<u32> {
    Seq::new(plan.keys@.len(), |k: int| joined_index(plan, instance, active, index_of_id, k))
}

/// The overrides member `m` takes on the `d`-th differing layer, over its
/// first `t` props: each prop whose value departs from the active
/// member's there, as the layer's index and the member's value.
pub open spec fn layer_values<'a>(plan: Plan<'a>, index: Seq<u32>, active: int, m: int, d: int, t: int) -> Seq<VariantOverride>
    decreases t,
{
    if t <= 0 {
        seq![]
    } else {
        let key = plan.differing@[d].0 as int;
        let prop = plan.differing@[d].1@[t - 1];
        let mine = plan.props@[m]@[key]@;
        layer_values(plan, index, active, m, d, t - 1) + if props_diff_spec(plan.props@[active]@[key]@, mine).contains(prop) {
            seq![VariantOverride { node: index[key], value: override_spec(mine, prop) }]
        } else {
            seq![]
        }
    }
}

/// The overrides member `m` takes over the first `n` differing layers.
pub open spec fn member_values<'a>(plan: Plan<'a>, index: Seq<u32>, active: int, m: int, n: int) -> Seq<VariantOverride>
    decreases n,
{
    if n <= 0 {
        seq![]
    } else {
        member_values(plan, index, active, m, n - 1) + layer_values(
            plan,
            index,
            active,
            m,
            n - 1,
            plan.differing@[n - 1].1@.len() as int,
        )
    }
}

/// The differing layers as the tracks read them: each layer's document
/// index and the props the set differs on there.
pub open spec fn layers_spec<'a>(plan: Plan<'a>, index: Seq<u32>) -> Seq<(u32, Vec<Prop>)> {
    Seq::new(plan.differing@.len(), |d: int| (index[plan.differing@[d].0 as int], plan.differing@[d].1))
}

/// The transition a switch to a member plays, given the tween it is
/// declared with: each track on that tween, started together, where
/// there is a track and a tween.
pub open spec fn transition_spec(tracks: Seq<(u32, BindingChannel)>, tween: Option<(u32, Easing)>, t: Option<VariantTransition>) -> bool {
    match tween {
        Some((duration, easing)) => if tracks.len() > 0 {
            t matches Some(tr) && tr.stagger == 0 && tr.tracks@.len() == tracks.len() && forall|i: int|
                0 <= i < tracks.len() ==> #[trigger] tr.tracks@[i] == (PropTransition {
                    node: tracks[i].0,
                    channel: tracks[i].1,
                    spec: TransitionSpec::Tween { duration, easing },
                })
        } else {
            t is None
        },
        None => t is None,
    }
}

/// Tracks read only each layer's index and the view of its props.
proof fn lemma_set_tracks_same(a: Seq<(u32, Vec<Prop>)>, b: Seq<(u32, Vec<Prop>)>)
    requires
        a.len() == b.len(),
        forall|j: int| 0 <= j < a.len() ==> (#[trigger] a[j]).0 == b[j].0 && a[j].1@ == b[j].1@,
    ensures
        set_tracks(a) == set_tracks(b),
    decreases a.len(),
{
    if a.len() > 0 {
        lemma_set_tracks_same(a.drop_last(), b.drop_last());
        assert(a.last() == a[a.len() - 1]);
        assert(b.last() == b[b.len() - 1]);
    }
}

/// The authored and the lowered value of a rect prop, or nothing for the
/// three props with no rect value.
pub open spec fn rect_pair_spec(p: PropsView, b: Box2D, prop: Prop) -> Option<(u32, u32)> {
    match prop {
        Prop::X => Some((p.x, b.x)),
        Prop::Y => Some((p.y, b.y)),
        Prop::Width => Some((p.width, b.width)),
        Prop::Height => Some((p.height, b.height)),
        _ => None,
    }
}

/// Every rect prop the plan's `d`-th differing layer carries lowered, at
/// document node `at`, to the value the active member authors.
pub open spec fn layer_agrees<'a>(plan: Plan<'a>, nodes: Seq<Node>, index: Seq<u32>, active: int, d: int) -> bool {
    let key = plan.differing@[d].0 as int;
    forall|t: int|
        0 <= t < plan.differing@[d].1@.len() ==> (rect_pair_spec(
            plan.props@[active]@[key]@,
            nodes[index[key] as int].box2d,
            #[trigger] plan.differing@[d].1@[t],
        ) matches Some((authored, lowered)) ==> f32_equal(lowered, authored))
}

/// The overrides of member `m` in a table showing `active`: none for the
/// active member, which is the document's own state.
pub open spec fn overrides_spec<'a>(plan: Plan<'a>, index: Seq<u32>, active: int, m: int) -> Seq<VariantOverride> {
    if m == active {
        seq![]
    } else {
        member_values(plan, index, active, m, plan.differing@.len() as int)
    }
}

/// Writes `plan`'s variant table for one instance of its set, showing the
/// member at `active`, or says why the instance's baked subtree cannot carry
/// it. Each of the plan's paths must join an instance layer that lowered
/// (the first that does not, in path order, is the refusal); each rect prop
/// the set differs on must have lowered to the value the active member
/// authors (or the mismatch is the refusal). Then every member gets the
/// overrides that turn the document's state into it: none for the active
/// member; for another, each differing prop its own value departs on from
/// the active member's. A member switched to with a tween (`tween`, by
/// member) plays it on every differing rect channel, where there is one.
pub fn emit_instance<'a>(
    plan: &Plan<'a>,
    doc: &mut Document,
    instance: &FigmaNode,
    active: usize,
    tween: &Vec<Option<(u32, Easing)>>,
    index_of_id: &Vec<LoweredNode>,
) -> (r: Result<(), Refusal>)
    requires
        plan.wf(),
        active < plan.members@.len(),
        active <= u32::MAX,
        tween@.len() == plan.members@.len(),
        forall|j: int| 0 <= j < index_of_id@.len() ==> (#[trigger] index_of_id@[j]).index < old(doc).nodes@.len(),
    ensures
        same_but_variants(*final(doc), *old(doc)),
        tree_outcome(*instance) matches Err(m) ==> r matches Err(Refusal::Text(e)) && e@ == m,
        r is Ok <==> carries_table(*plan, *instance, active as int, index_of_id@, old(doc).nodes@),
        match r {
            Ok(()) => {
                &&& tree_outcome(*instance) is Ok
                &&& forall|k: int| 0 <= k < plan.keys@.len() ==> #[trigger] joins(*plan, *instance, active as int, index_of_id@, k)
                &&& forall|d: int|
                    #![trigger plan.differing@[d]]
                    0 <= d < plan.differing@.len() ==> layer_agrees(
                        *plan,
                        old(doc).nodes@,
                        joined_indices(*plan, *instance, active as int, index_of_id@),
                        active as int,
                        d,
                    )
                &&& final(doc).variant_sets@.len() == old(doc).variant_sets@.len() + 1
                &&& final(doc).variant_sets@.drop_last() == old(doc).variant_sets@
                &&& final(doc).variant_sets@.last().active_member == active
                &&& final(doc).variant_sets@.last().members@.len() == plan.members@.len()
                &&& set_in_range(final(doc).variant_sets@.last(), old(doc).nodes@.len() as int)
                &&& forall|m: int|
                    0 <= m < plan.members@.len() ==> {
                        let member = #[trigger] final(doc).variant_sets@.last().members@[m];
                        &&& member.name matches Some(name) && name@ == plan.names@[m]@
                        &&& member.overrides@ == overrides_spec(
                            *plan,
                            joined_indices(*plan, *instance, active as int, index_of_id@),
                            active as int,
                            m,
                        )
                        &&& transition_spec(
                            set_tracks(
                                layers_spec(
                                    *plan,
                                    joined_indices(*plan, *instance, active as int, index_of_id@),
                                ),
                            ),
                            tween@[m],
                            member.transition,
                        )
                    }
            },
            Err(_) => final(doc).variant_sets@ == old(doc).variant_sets@,
        },
{
    let baked = match tree_of(instance) {
        Ok(b) => b,
        Err(e) => {
            return Err(Refusal::Text(e));
        },
    };

    let n = doc.nodes.len();
    // The document index of the instance's layer at each path.
    let mut index: Vec<u32> = Vec::new();
    let mut k: usize = 0;
    while k < plan.keys.len()
        invariant
            k <= plan.keys@.len(),
            index@.len() == k,
            n == doc.nodes@.len(),
            forall|j: int| 0 <= j < index_of_id@.len() ==> (#[trigger] index_of_id@[j]).index < n,
            forall|j: int| 0 <= j < k ==> (#[trigger] index@[j] as int) < n,
            forall|j: int| 0 <= j < k ==> #[trigger] index@[j] == joined_index(*plan, *instance, active as int, index_of_id@, j),
            forall|j: int| 0 <= j < k ==> #[trigger] joins(*plan, *instance, active as int, index_of_id@, j),
            tree_outcome(*instance) == Ok::<Seq<KeyedView>, Seq<char>>(entries_view(baked@)),
            plan.wf(),
            active < plan.members@.len(),
        decreases plan.keys@.len() - k,
    {
        match join_one(&plan.keys[k], plan.names[active].as_str(), &baked, index_of_id) {
            Ok(i) => {
                index.push(i);
                proof {
                    assert(index@[k as int] == joined_index(*plan, *instance, active as int, index_of_id@, k as int));
                    assert(joins(*plan, *instance, active as int, index_of_id@, k as int));
                }
            },
            Err(e) => {
                proof {
                    assert(!joins(*plan, *instance, active as int, index_of_id@, k as int));
                }
                return Err(Refusal::Text(e));
            },
        }
        k = k + 1;
    }
    proof {
        assert(index@ =~= joined_indices(*plan, *instance, active as int, index_of_id@));
    }
    // The safety net: each rect prop an override will carry lowered to the
    // value the active member authors.
    let mut d: usize = 0;
    while d < plan.differing.len()
        invariant
            d <= plan.differing@.len(),
            index@.len() == plan.keys@.len(),
            n == doc.nodes@.len(),
            forall|j: int| 0 <= j < index@.len() ==> (#[trigger] index@[j] as int) < n,
            forall|j: int| #![trigger plan.differing@[j]] 0 <= j < d ==> layer_agrees(*plan, doc.nodes@, index@, active as int, j),
            tree_outcome(*instance) == Ok::<Seq<KeyedView>, Seq<char>>(entries_view(baked@)),
            index@ == joined_indices(*plan, *instance, active as int, index_of_id@),
            forall|j: int| 0 <= j < plan.keys@.len() ==> #[trigger] joins(*plan, *instance, active as int, index_of_id@, j),
            doc.nodes@ == old(doc).nodes@,
            plan.wf(),
            active < plan.members@.len(),
            doc.variant_sets@ == old(doc).variant_sets@,
        decreases plan.differing@.len() - d,
    {
        let key = plan.differing[d].0;
        let props = &plan.differing[d].1;
        let at = index[key] as usize;
        let mut t: usize = 0;
        while t < props.len()
            invariant
                t <= props@.len(),
                at < doc.nodes@.len(),
                key < plan.keys@.len(),
                d < plan.differing@.len(),
                key == plan.differing@[d as int].0,
                props@ == plan.differing@[d as int].1@,
                key < index@.len(),
                at == index@[key as int],
                tree_outcome(*instance) == Ok::<Seq<KeyedView>, Seq<char>>(entries_view(baked@)),
                index@ == joined_indices(*plan, *instance, active as int, index_of_id@),
                doc.nodes@ == old(doc).nodes@,
                forall|u: int|
                    0 <= u < t ==> (rect_pair_spec(
                        plan.props@[active as int]@[key as int]@,
                        doc.nodes@[at as int].box2d,
                        #[trigger] props@[u],
                    ) matches Some((authored, lowered)) ==> f32_equal(lowered, authored)),
                plan.wf(),
                active < plan.members@.len(),
            decreases props@.len() - t,
        {
            assert(plan.props@[active as int]@.len() == plan.keys@.len());
            match rect_pair(&plan.props[active][key], &doc.nodes[at].box2d, props[t]) {
                Some((authored, lowered)) => {
                    if !f32_equal_exec(lowered, authored) {
                        proof {
                            assert(plan.differing@[d as int].1@[t as int] == props@[t as int]);
                            assert(!layer_agrees(*plan, old(doc).nodes@, index@, active as int, d as int));
                        }
                        return Err(
                            Refusal::Mismatch {
                                key: string_of(show(plan.keys[key].as_str())),
                                prop: props[t],
                                lowered,
                                authored,
                                member: string_of(plan.names[active].as_str()),
                            },
                        );
                    }
                },
                None => {},
            }
            t = t + 1;
        }
        proof {
            assert(layer_agrees(*plan, doc.nodes@, index@, active as int, d as int));
        }
        d = d + 1;
    }
    // The tracks: each differing layer's rect channels.
    let mut layers: Vec<(u32, Vec<Prop>)> = Vec::new();
    let mut d: usize = 0;
    while d < plan.differing.len()
        invariant
            d <= plan.differing@.len(),
            index@.len() == plan.keys@.len(),
            forall|j: int| 0 <= j < index@.len() ==> (#[trigger] index@[j] as int) < n,
            forall|j: int| 0 <= j < layers@.len() ==> ((#[trigger] layers@[j]).0 as int) < n,
            layers@.len() == d,
            forall|j: int|
                0 <= j < d ==> (#[trigger] layers@[j]).0 == index@[plan.differing@[j].0 as int] && layers@[j].1@
                    == plan.differing@[j].1@,
            plan.wf(),
        decreases plan.differing@.len() - d,
    {
        let key = plan.differing[d].0;
        let props = &plan.differing[d].1;
        let copy = copy_props(props);
        layers.push((index[key], copy));
        d = d + 1;
    }
    proof {
        lemma_set_tracks_same(layers@, layers_spec(*plan, index@));
    }
    let tracks = variant_tracks(&layers);
    proof {
        lemma_tracks_in_range(layers@, n as int);
    }
    let ghost joined = joined_indices(*plan, *instance, active as int, index_of_id@);
    proof {
        assert(index@ =~= joined);
    }
    let mut members: Vec<VariantMember> = Vec::new();
    let mut m: usize = 0;
    while m < plan.members.len()
        invariant
            m <= plan.members@.len(),
            members@.len() == m,
            index@ == joined,
            tracks@ == set_tracks(layers_spec(*plan, joined)),
            forall|j: int|
                0 <= j < m ==> {
                    let member = #[trigger] members@[j];
                    &&& member.name matches Some(name) && name@ == plan.names@[j]@
                    &&& member.overrides@ == overrides_spec(*plan, joined, active as int, j)
                    &&& transition_spec(tracks@, tween@[j], member.transition)
                },
            index@.len() == plan.keys@.len(),
            forall|j: int| 0 <= j < index@.len() ==> (#[trigger] index@[j] as int) < n,
            forall|j: int| 0 <= j < tracks@.len() ==> ((#[trigger] tracks@[j]).0 as int) < n,
            forall|j: int| 0 <= j < m ==> member_in_range(#[trigger] members@[j], n as int),
            plan.wf(),
            active < plan.members@.len(),
            tween@.len() == plan.members@.len(),
        decreases plan.members@.len() - m,
    {
        let mut overrides: Vec<VariantOverride> = Vec::new();
        if m != active {
            let mut d: usize = 0;
            while d < plan.differing.len()
                invariant
                    d <= plan.differing@.len(),
                    index@.len() == plan.keys@.len(),
                    forall|j: int| 0 <= j < index@.len() ==> (#[trigger] index@[j] as int) < n,
                    forall|o: int| 0 <= o < overrides@.len() ==> ((#[trigger] overrides@[o]).node as int) < n,
                    overrides@ == member_values(*plan, index@, active as int, m as int, d as int),
                    plan.wf(),
                    active < plan.members@.len(),
                    m < plan.members@.len(),
                decreases plan.differing@.len() - d,
            {
                let key = plan.differing[d].0;
                let props = &plan.differing[d].1;
                assert(plan.props@[active as int]@.len() == plan.keys@.len());
                assert(plan.props@[m as int]@.len() == plan.keys@.len());
                let own = props_diff(&plan.props[active][key], &plan.props[m][key]);
                let ghost base = overrides@;
                proof {
                    assert(base + layer_values(*plan, index@, active as int, m as int, d as int, 0) =~= base);
                }
                let mut t: usize = 0;
                while t < props.len()
                    invariant
                        t <= props@.len(),
                        d < plan.differing@.len(),
                        key == plan.differing@[d as int].0,
                        props@ == plan.differing@[d as int].1@,
                        own@ == props_diff_spec(plan.props@[active as int]@[key as int]@, plan.props@[m as int]@[key as int]@),
                        overrides@ == base + layer_values(*plan, index@, active as int, m as int, d as int, t as int),
                        key < index@.len(),
                        (index@[key as int] as int) < n,
                        forall|o: int| 0 <= o < overrides@.len() ==> ((#[trigger] overrides@[o]).node as int) < n,
                        plan.wf(),
                        m < plan.members@.len(),
                        key < plan.keys@.len(),
                    decreases props@.len() - t,
                {
                    let ghost prev = overrides@;
                    if holds(&own, props[t]) {
                        assert(plan.props@[m as int]@.len() == plan.keys@.len());
                        overrides.push(
                            VariantOverride { node: index[key], value: override_value(&plan.props[m][key], props[t]) },
                        );
                        proof {
                            assert(overrides@ =~= base + layer_values(*plan, index@, active as int, m as int, d as int, t + 1));
                        }
                    } else {
                        proof {
                            assert(prev =~= base + layer_values(*plan, index@, active as int, m as int, d as int, t + 1));
                        }
                    }
                    t = t + 1;
                }
                proof {
                    assert(overrides@ == member_values(*plan, index@, active as int, m as int, d + 1));
                }
                d = d + 1;
            }
        }
        let transition = match tween[m] {
            Some((duration, easing)) => {
                if tracks.len() > 0 {
                    let mut moves: Vec<PropTransition> = Vec::new();
                    let mut j: usize = 0;
                    while j < tracks.len()
                        invariant
                            j <= tracks@.len(),
                            moves@.len() == j,
                            forall|i: int| 0 <= i < j ==> #[trigger] moves@[i] == (PropTransition {
                                node: tracks@[i].0,
                                channel: tracks@[i].1,
                                spec: TransitionSpec::Tween { duration, easing },
                            }),
                            forall|i: int| 0 <= i < tracks@.len() ==> ((#[trigger] tracks@[i]).0 as int) < n,
                            forall|i: int| 0 <= i < moves@.len() ==> ((#[trigger] moves@[i]).node as int) < n,
                        decreases tracks@.len() - j,
                    {
                        moves.push(
                            PropTransition {
                                node: tracks[j].0,
                                channel: tracks[j].1,
                                spec: TransitionSpec::Tween { duration, easing },
                            },
                        );
                        j = j + 1;
                    }
                    Some(VariantTransition { tracks: moves, stagger: 0 })
                } else {
                    None
                }
            },
            None => None,
        };
        proof {
            if m == active {
                assert(overrides@ =~= overrides_spec(*plan, joined, active as int, m as int));
            }
        }
        let member = VariantMember { name: Some(string_of(plan.names[m].as_str())), overrides, transition };
        assert(member_in_range(member, n as int));
        let ghost before_push = members@;
        members.push(member);
        proof {
            assert forall|j: int| 0 <= j < m + 1 implies {
                let member = #[trigger] members@[j];
                &&& member.name matches Some(name) && name@ == plan.names@[j]@
                &&& member.overrides@ == overrides_spec(*plan, joined, active as int, j)
                &&& transition_spec(tracks@, tween@[j], member.transition)
            } by {
                if j < m {
                    assert(members@[j] == before_push[j]);
                }
            }
        }
        m = m + 1;
    }
    let set = VariantSet { members, active_member: active as u32 };
    doc.variant_sets.push(set);
    proof {
        assert(doc.variant_sets@.drop_last() =~= old(doc).variant_sets@);
    }
    Ok(())
}

proof fn lemma_tracks_in_range(layers: Seq<(u32, Vec<Prop>)>, n: int)
    requires
        forall|j: int| 0 <= j < layers.len() ==> ((#[trigger] layers[j]).0 as int) < n,
    ensures
        forall|j: int| 0 <= j < set_tracks(layers).len() ==> ((#[trigger] set_tracks(layers)[j]).0 as int) < n,
    decreases layers.len(),
{
    if layers.len() > 0 {
        lemma_tracks_in_range(layers.drop_last(), n);
        let a = set_tracks(layers.drop_last());
        let b = layer_tracks(layers.last().0, layers.last().1@);
        assert(layers.last() == layers[layers.len() - 1]);
        assert forall|j: int| 0 <= j < (a + b).len() implies (((a + b)[j]).0 as int) < n by {
            if j < a.len() {
                assert((a + b)[j] == a[j]);
            } else {
                assert((a + b)[j] == b[j - a.len()]);
            }
        }
    }
}


// ---- the pass over a file -----------------------------------------------------

/// A finding of the variant pass: a diagnostic, or an instance refused
/// because a layer's lowered rect disagrees with the member it shows — a
/// warning under `UNLOWERABLE_SET`, whose sentence carries the two values as
/// the decimals they print as, which the caller writes.
pub enum VariantFinding {
    Note(Diagnostic),
    Refused { at: Location, key: String, prop: Prop, lowered: u32, authored: u32, member: String },
}

/// A finding the emit pass holds until the naming pass reaches its node.
enum Held {
    Echoed(String, Echoable, Location),
    Lost(Diagnostic),
    Mismatched(Location, String, Prop, u32, u32, String),
}

/// A held finding is a warning.
spec fn held_warns(h: Held) -> bool {
    match h {
        Held::Echoed(_, f, _) => f@.severity == Severity::Warning,
        Held::Lost(d) => d@.severity == Severity::Warning,
        Held::Mismatched(..) => true,
    }
}

proof fn lemma_push_weighs(ds: Seq<DiagnosticView>, d: DiagnosticView, policy: EmitPolicy)
    requires
        pass_weighs(ds, policy),
        pass_weight(d.rule, d.severity, policy),
    ensures
        pass_weighs(ds.push(d), policy),
{
    assert forall|i: int| 0 <= i < ds.push(d).len() implies pass_weight((#[trigger] ds.push(d)[i]).rule, ds.push(d)[i].severity, policy) by {
        if i < ds.len() {
            assert(ds.push(d)[i] == ds[i]);
        }
    }
}

proof fn lemma_concat_weighs(a: Seq<DiagnosticView>, b: Seq<DiagnosticView>, policy: EmitPolicy)
    requires
        pass_weighs(a, policy),
        pass_weighs(b, policy),
    ensures
        pass_weighs(a + b, policy),
{
    assert forall|i: int| 0 <= i < (a + b).len() implies pass_weight((#[trigger] (a + b)[i]).rule, (a + b)[i].severity, policy) by {
        if i < a.len() {
            assert((a + b)[i] == a[i]);
        } else {
            assert((a + b)[i] == b[i - a.len()]);
        }
    }
}

proof fn lemma_report_weighs(c: CollapseView, source: Seq<char>, f: EchoableView, at: LocationView, policy: EmitPolicy)
    requires
        pass_weighs(c.diagnostics, policy),
        pass_weight(f.rule, f.severity, policy),
    ensures
        pass_weighs(report_spec(c, source, f, at).diagnostics, policy),
{
    let fs = seq![f];
    assert(fs.drop_last() =~= Seq::<EchoableView>::empty());
    assert(fs.last() == f);
    assert(echoes_weigh(fs, policy));
    lemma_report_all_weighs(c, source, fs, at, policy);
    assert(report_all(c, source, fs.drop_last(), at) == c);
}

proof fn lemma_contended_below(st: Seq<Option<(Option<(u32, Easing)>, bool)>>, upto: int)
    ensures
        forall|i: int|
            0 <= i < contended_entries(st, upto).len() ==> 0 <= #[trigger] contended_entries(st, upto)[i] < upto,
    decreases upto,
{
    if upto > 0 {
        lemma_contended_below(st, upto - 1);
        let a = contended_entries(st, upto - 1);
        let b: Seq<int> = match st[upto - 1] {
            Some((_, true)) => seq![upto - 1],
            _ => seq![],
        };
        assert(contended_entries(st, upto) == a + b);
        assert forall|i: int| 0 <= i < (a + b).len() implies 0 <= #[trigger] (a + b)[i] < upto by {
            if i < a.len() {
                assert((a + b)[i] == a[i]);
            } else {
                assert((a + b)[i] == b[i - a.len()]);
            }
        }
    }
}

/// The contended destinations `declared_tweens` names are member positions.
fn contended_of(members: &[&FigmaNode], switches: &[&Switch]) -> (out: (Vec<(usize, Option<(u32, Easing)>)>, Vec<usize>))
    ensures
        forall|i: int| 0 <= i < out.1@.len() ==> (#[trigger] out.1@[i] as int) < members@.len(),
{
    let out = declared_tweens(members, switches);
    proof {
        let st = declared(derefs(members@), switch_views(switches@));
        lemma_contended_below(st, members@.len() as int);
        assert forall|i: int| 0 <= i < out.1@.len() implies (#[trigger] out.1@[i] as int) < members@.len() by {
            assert(out.1@.map_values(|d: usize| d as int)[i] == out.1@[i] as int);
        }
    }
    out
}

/// The switches `pairs` names (a node's position and a switch's among its
/// interactions), in order.
fn switches_at<'r>(reads: &'r Vec<Interactions>, pairs: &Vec<(usize, usize)>) -> (out: Vec<&'r Switch>) {
    let mut out: Vec<&'r Switch> = Vec::new();
    let mut k: usize = 0;
    while k < pairs.len()
        invariant
            k <= pairs@.len(),
        decreases pairs@.len() - k,
    {
        let (p, s) = pairs[k];
        // Every gathered pair names a switch of the file.
        if p < reads.len() && s < reads[p].switches.len() {
            out.push(&reads[p].switches[s]);
        }
        k = k + 1;
    }
    out
}

/// Emits the file's variant tables into `doc` and names every prototype
/// interaction of the file: each component set is planned (see
/// `plan_set`); a set that plans lowers a table (`emit_instance`) for each
/// painting instance of one of its members whose baked subtree carries
/// it, the set's default transitions overridden by the switches travelling
/// through that instance; a set that cannot names why. The findings come
/// in the order of the sets, then of the nodes, a reaction echoed onto
/// several layers reported once. Every finding is a warning but an
/// interaction that lowers nowhere under `Strict`, so under `Partial`
/// nothing this pass finds withholds the document. The existing tables
/// stay as they were, and each table appended names nodes of `doc`.
#[verifier::rlimit(50)]
#[verifier::spinoff_prover]
pub fn apply_variants(
    doc: &mut Document,
    file: &FigmaNode,
    index_of_id: &Vec<LoweredNode>,
    policy: EmitPolicy,
) -> (out: Vec<VariantFinding>)
    requires
        forall|j: int| 0 <= j < index_of_id@.len() ==> (#[trigger] index_of_id@[j]).index < old(doc).nodes@.len(),
    ensures
        forall|i: int|
            0 <= i < out@.len() ==> ((#[trigger] out@[i]) matches VariantFinding::Note(d) ==> pass_weight(
                d@.rule,
                d@.severity,
                policy,
            )),
        same_but_variants(*final(doc), *old(doc)),
        final(doc).variant_sets@.len() >= old(doc).variant_sets@.len(),
        final(doc).variant_sets@.subrange(0, old(doc).variant_sets@.len() as int) == old(doc).variant_sets@,
        forall|v: int|
            old(doc).variant_sets@.len() <= v < final(doc).variant_sets@.len() ==> set_in_range(
                #[trigger] final(doc).variant_sets@[v],
                old(doc).nodes@.len() as int,
            ),
{
    let ghost n = old(doc).nodes@.len() as int;
    let ghost before = old(doc).variant_sets@;
    let nodes = paths(file);
    let mut reads: Vec<Interactions> = Vec::new();
    let mut components: Vec<String> = Vec::new();
    let mut i: usize = 0;
    while i < nodes.len()
        invariant
            i <= nodes@.len(),
            reads@.len() == i,
        decreases nodes@.len() - i,
    {
        reads.push(read(nodes[i].node.interactions.as_slice()));
        if str_eq(nodes[i].node.kind.as_str(), "COMPONENT") {
            match &nodes[i].node.id {
                Some(id) => components.push(string_of(id.as_str())),
                None => {},
            }
        }
        i = i + 1;
    }
    // The component sets, planned once each, in the walk's order.
    let mut plans: Vec<Plan> = Vec::new();
    let mut sets: Vec<SetEntry> = Vec::new();
    let mut set_at: Vec<Location> = Vec::new();
    let mut i: usize = 0;
    while i < nodes.len()
        invariant
            i <= nodes@.len(),
            sets@.len() == set_at@.len(),
            forall|p: int| 0 <= p < plans@.len() ==> (#[trigger] plans@[p]).wf(),
            forall|x: int|
                0 <= x < sets@.len() ==> ((#[trigger] sets@[x]).state matches SetState::Lowers(p) ==> p < plans@.len()),
        decreases nodes@.len() - i,
    {
        let node = nodes[i].node;
        if str_eq(node.kind.as_str(), "COMPONENT_SET") {
            let ms = members_of(node);
            let mut ids: Vec<String> = Vec::new();
            let mut k: usize = 0;
            while k < ms.len()
                invariant
                    k <= ms@.len(),
                decreases ms@.len() - k,
            {
                match &ms[k].id {
                    Some(id) => ids.push(string_of(id.as_str())),
                    None => {},
                }
                k = k + 1;
            }
            let state = match plan_set(node) {
                Ok(plan) => {
                    plans.push(plan);
                    SetState::Lowers(plans.len() - 1)
                },
                Err(None) => SetState::Silent,
                Err(Some(why)) => SetState::NamedItsLoss(why),
            };
            sets.push(SetEntry { members: ids, state });
            set_at.push(located(index_of_id, &nodes[i]));
        }
        i = i + 1;
    }
    let g = gather(&nodes, &reads, &sets);
    // Each set's default table and the destinations its members contended.
    let mut defaults: Vec<(Vec<(usize, Option<(u32, Easing)>)>, Vec<usize>)> = Vec::new();
    let mut x: usize = 0;
    while x < sets.len()
        invariant
            x <= sets@.len(),
            defaults@.len() == x,
            g.set_default@.len() == sets@.len(),
            forall|p: int| 0 <= p < plans@.len() ==> (#[trigger] plans@[p]).wf(),
            forall|y: int|
                0 <= y < sets@.len() ==> ((#[trigger] sets@[y]).state matches SetState::Lowers(p) ==> p < plans@.len()),
            forall|y: int|
                0 <= y < x ==> (sets@[y].state matches SetState::Lowers(p) ==> forall|c: int|
                    0 <= c < (#[trigger] defaults@[y]).1@.len() ==> (defaults@[y].1@[c] as int) < plans@[p as int].names@.len()),
        decreases sets@.len() - x,
    {
        let entry = match &sets[x].state {
            SetState::Lowers(p) => {
                let sw = switches_at(&reads, &g.set_default[x]);
                contended_of(plans[*p].members.as_slice(), sw.as_slice())
            },
            _ => (Vec::new(), Vec::new()),
        };
        defaults.push(entry);
        x = x + 1;
    }
    let mut c = Collapse::new();
    // Every set's own findings, in set order.
    let mut x: usize = 0;
    while x < sets.len()
        invariant
            x <= sets@.len(),
            c.wf(),
            c.reported() == 0,
            pass_weighs(c@.diagnostics, policy),
            defaults@.len() == sets@.len(),
            set_at@.len() == sets@.len(),
            g.animates@.len() == sets@.len(),
            forall|p: int| 0 <= p < plans@.len() ==> (#[trigger] plans@[p]).wf(),
            forall|y: int|
                0 <= y < sets@.len() ==> ((#[trigger] sets@[y]).state matches SetState::Lowers(p) ==> p < plans@.len()),
            forall|y: int|
                0 <= y < sets@.len() ==> (sets@[y].state matches SetState::Lowers(p) ==> forall|c: int|
                    0 <= c < (#[trigger] defaults@[y]).1@.len() ==> (defaults@[y].1@[c] as int) < plans@[p as int].names@.len()),
        decreases sets@.len() - x,
    {
        match &sets[x].state {
            SetState::Lowers(p) => {
                let plan = &plans[*p];
                let mut differing: Vec<Vec<Prop>> = Vec::new();
                let mut d: usize = 0;
                while d < plan.differing.len()
                    invariant
                        d <= plan.differing@.len(),
                    decreases plan.differing@.len() - d,
                {
                    differing.push(copy_props(&plan.differing[d].1));
                    d = d + 1;
                }
                let found = set_diagnostics(&differing, &plan.names, &set_at[x], g.animates[x], &defaults[x].1);
                proof {
                    lemma_set_motion_weighs(
                        differing@,
                        strings_view(plan.names@),
                        set_at@[x as int]@,
                        g.animates@[x as int],
                        defaults@[x as int].1@,
                        policy,
                    );
                    lemma_concat_weighs(c@.diagnostics, found@.map_values(|d: Diagnostic| d@), policy);
                }
                c.extend(found);
            },
            SetState::NamedItsLoss(why) => {
                let loss = set_loss(why.as_str(), copy_location(&set_at[x]));
                proof {
                    lemma_push_weighs(c@.diagnostics, loss@, policy);
                }
                c.push(loss);
            },
            SetState::Silent => {},
        }
        x = x + 1;
    }
    let (shown, switchable) = reachability(&nodes, &sets);
    // Emit first, name second: whether a member root carries a transition
    // depends on every instance of its set.
    let mut shipped: Vec<usize> = Vec::new();
    let mut emitted: Vec<usize> = Vec::new();
    let mut held: Vec<(usize, Held)> = Vec::new();
    let mut at: usize = 0;
    while at < nodes.len()
        invariant
            at <= nodes@.len(),
            g.instance_own@.len() == nodes@.len(),
            defaults@.len() == sets@.len(),
            forall|p: int| 0 <= p < plans@.len() ==> (#[trigger] plans@[p]).wf(),
            forall|y: int|
                0 <= y < sets@.len() ==> ((#[trigger] sets@[y]).state matches SetState::Lowers(p) ==> p < plans@.len()),
            forall|j: int| 0 <= j < index_of_id@.len() ==> (#[trigger] index_of_id@[j]).index < n,
            n == doc.nodes@.len(),
            same_but_variants(*doc, *old(doc)),
            doc.variant_sets@.len() >= before.len(),
            doc.variant_sets@.subrange(0, before.len() as int) == before,
            forall|v: int|
                before.len() <= v < doc.variant_sets@.len() ==> set_in_range(#[trigger] doc.variant_sets@[v], n),
            forall|k: int| 0 <= k < held@.len() ==> held_warns(#[trigger] held@[k].1),
        decreases nodes@.len() - at,
    {
        let w = &nodes[at];
        let node = w.node;
        let instance = str_eq(node.kind.as_str(), "INSTANCE") && w.definition.is_none();
        let target = if instance {
            match &node.component_id {
                Some(cid) => match set_of(&sets, cid) {
                    Some(x) => match &sets[x].state {
                        SetState::Lowers(p) => match position_of(plans[*p].members.as_slice(), cid) {
                            Some(active) => Some((x, *p, active)),
                            None => None,
                        },
                        _ => None,
                    },
                    None => None,
                },
                None => None,
            }
        } else {
            None
        };
        match target {
            Some((x, p, active)) => {
                let plan = &plans[p];
                proof {
                    lemma_first_match(derefs(plan.members@), has_id(node.component_id->0@));
                }
                let sw = switches_at(&reads, &g.instance_own[at]);
                let own = contended_of(plan.members.as_slice(), sw.as_slice());
                let mut tween: Vec<Option<(u32, Easing)>> = Vec::new();
                let mut m: usize = 0;
                while m < plan.members.len()
                    invariant
                        m <= plan.members@.len(),
                        tween@.len() == m,
                    decreases plan.members@.len() - m,
                {
                    tween.push(None);
                    m = m + 1;
                }
                let mut e: usize = 0;
                while e < defaults[x].0.len()
                    invariant
                        x < defaults@.len(),
                        e <= defaults@[x as int].0@.len(),
                        tween@.len() == plan.members@.len(),
                    decreases defaults@[x as int].0@.len() - e,
                {
                    let (dest, kept) = defaults[x].0[e];
                    if dest < tween.len() {
                        tween.set(dest, kept);
                    }
                    e = e + 1;
                }
                let mut e: usize = 0;
                while e < own.0.len()
                    invariant
                        e <= own.0@.len(),
                        tween@.len() == plan.members@.len(),
                    decreases own.0@.len() - e,
                {
                    let (dest, kept) = own.0[e];
                    if dest < tween.len() {
                        tween.set(dest, kept);
                    }
                    e = e + 1;
                }
                let ghost mid = doc.variant_sets@;
                // A member position fits the table's `u32` index: a set's
                // members are nodes of one file in memory.
                if active <= 0xffff_ffffusize {
                    match emit_instance(plan, doc, node, active, &tween, index_of_id) {
                        Ok(()) => {
                            proof {
                                assert(doc.variant_sets@.subrange(0, before.len() as int) =~= mid.subrange(
                                    0,
                                    before.len() as int,
                                ));
                                assert forall|v: int|
                                    before.len() <= v < doc.variant_sets@.len() implies set_in_range(
                                    #[trigger] doc.variant_sets@[v],
                                    n,
                                ) by {
                                    if v < mid.len() {
                                        assert(doc.variant_sets@[v] == doc.variant_sets@.drop_last()[v]);
                                    }
                                }
                            }
                            shipped.push(at);
                            emitted.push(x);
                            let mut differing: Vec<Vec<Prop>> = Vec::new();
                            let mut d: usize = 0;
                            while d < plan.differing.len()
                                invariant
                                    d <= plan.differing@.len(),
                                decreases plan.differing@.len() - d,
                            {
                                differing.push(copy_props(&plan.differing[d].1));
                                d = d + 1;
                            }
                            if animatable(&differing) {
                                let source = match &plan.members[active].id {
                                    Some(id) => string_of(id.as_str()),
                                    None => string_of(w.path.as_str()),
                                };
                                let mut k: usize = 0;
                                while k < own.1.len()
                                    invariant
                                        k <= own.1@.len(),
                                        plan.wf(),
                                        forall|k: int| 0 <= k < held@.len() ==> held_warns(#[trigger] held@[k].1),
                                        forall|i: int| 0 <= i < own.1@.len() ==> (#[trigger] own.1@[i] as int) < plan.members@.len(),
                                    decreases own.1@.len() - k,
                                {
                                    let f = contended_transition(&plan.names, own.1[k]);
                                    held.push((at, Held::Echoed(string_of(source.as_str()), f, located(index_of_id, w))));
                                    k = k + 1;
                                }
                            }
                        },
                        Err(Refusal::Text(why)) => {
                            held.push((at, Held::Lost(instance_loss(why.as_str(), located(index_of_id, w)))));
                        },
                        Err(Refusal::Mismatch { key, prop, lowered, authored, member }) => {
                            held.push((at, Held::Mismatched(located(index_of_id, w), key, prop, lowered, authored, member)));
                        },
                    }
                }
            },
            None => {},
        }
        at = at + 1;
    }
    let carrying = carrying_hosts(&nodes, &sets, &emitted, shipped);
    // The held findings, first node first.
    let mut pending: Vec<(usize, Held)> = Vec::new();
    while held.len() > 0
        invariant
            forall|k: int| 0 <= k < held@.len() ==> held_warns(#[trigger] held@[k].1),
            forall|k: int| 0 <= k < pending@.len() ==> held_warns(#[trigger] pending@[k].1),
        decreases held@.len(),
    {
        let h = held.pop().unwrap();
        pending.push(h);
    }
    let mut refused: Vec<(usize, Location, String, Prop, u32, u32, String)> = Vec::new();
    // How many reports the collapse has taken at most: each is a finding of
    // the file in memory, so the count stays far below the machine's limit.
    let mut used: usize = 0;
    let mut at: usize = 0;
    while at < nodes.len()
        invariant
            at <= nodes@.len(),
            reads@.len() == nodes@.len(),
            parents_precede(nodes@),
            c.wf(),
            c.reported() <= used,
            pass_weighs(c@.diagnostics, policy),
            forall|k: int| 0 <= k < pending@.len() ==> held_warns(#[trigger] pending@[k].1),
        decreases nodes@.len() - at,
    {
        loop
            invariant
                c.wf(),
                c.reported() <= used,
                pass_weighs(c@.diagnostics, policy),
                forall|k: int| 0 <= k < pending@.len() ==> held_warns(#[trigger] pending@[k].1),
            decreases pending@.len(),
        {
            if pending.len() == 0 {
                break;
            }
            if pending[pending.len() - 1].0 != at {
                break;
            }
            let ghost last = pending@.len() - 1;
            let (_, h) = pending.pop().unwrap();
            proof {
                assert(held_warns(h));
            }
            match h {
                Held::Echoed(source, f, l) => {
                    if used < usize::MAX - 1 {
                        proof {
                            lemma_report_weighs(c@, source@, f@, l@, policy);
                        }
                        c.report(source.as_str(), f, l);
                        used = used + 1;
                    }
                },
                Held::Lost(d) => {
                    proof {
                        lemma_push_weighs(c@.diagnostics, d@, policy);
                    }
                    c.push(d);
                },
                Held::Mismatched(l, key, prop, lowered, authored, member) => {
                    let place = c.len();
                    let held_back = instance_loss("", copy_location(&l));
                    proof {
                        lemma_push_weighs(c@.diagnostics, held_back@, policy);
                    }
                    c.push(held_back);
                    refused.push((place, l, key, prop, lowered, authored, member));
                },
            }
        }
        let r = &reads[at];
        if r.unsupported.len() < usize::MAX / 4 && r.switches.len() < usize::MAX / 4 {
            let need = r.unsupported.len() + 2 * r.switches.len();
            if used < usize::MAX - need - 1 {
                proof {
                    let rs = resolutions(nodes@, at, r@.switches, sets@, strings_view(components@), carrying@);
                    lemma_interaction_weighs(r@, rs, policy);
                    lemma_report_all_weighs(
                        c@,
                        source_of(nodes@[at as int]),
                        interaction_findings(r@, rs, policy),
                        location_of(lowered_view(index_of_id@), nodes@[at as int]),
                        policy,
                    );
                }
                name_node(&nodes, at, r, &sets, &components, &carrying, &switchable, &shown, index_of_id, policy, &mut c);
                used = used + need;
            }
        }
        at = at + 1;
    }
    proof {
        lemma_finish_weighs(c@, policy);
    }
    let finished = c.finish();
    // The findings as the caller takes them, each refused instance in its
    // place.
    let mut out: Vec<VariantFinding> = Vec::new();
    let mut rest = finished;
    let mut all: Vec<Diagnostic> = Vec::new();
    proof {
        assert forall|k: int| 0 <= k < rest@.len() implies pass_weight((#[trigger] rest@[k])@.rule, rest@[k]@.severity, policy) by {
            assert(rest@.map_values(|d: Diagnostic| d@)[k] == rest@[k]@);
        }
    }
    while rest.len() > 0
        invariant
            forall|k: int| 0 <= k < rest@.len() ==> pass_weight((#[trigger] rest@[k])@.rule, rest@[k]@.severity, policy),
            forall|k: int| 0 <= k < all@.len() ==> pass_weight((#[trigger] all@[k])@.rule, all@[k]@.severity, policy),
        decreases rest@.len(),
    {
        all.push(rest.pop().unwrap());
    }
    let mut r: usize = 0;
    let mut place: usize = 0;
    while all.len() > 0
        invariant
            forall|k: int| 0 <= k < all@.len() ==> pass_weight((#[trigger] all@[k])@.rule, all@[k]@.severity, policy),
            forall|i: int|
                0 <= i < out@.len() ==> ((#[trigger] out@[i]) matches VariantFinding::Note(d) ==> pass_weight(
                    d@.rule,
                    d@.severity,
                    policy,
                )),
        decreases all@.len(),
    {
        let d = all.pop().unwrap();
        if r < refused.len() && refused[r].0 == place {
            let l = copy_location(&refused[r].1);
            out.push(
                VariantFinding::Refused {
                    at: l,
                    key: string_of(refused[r].2.as_str()),
                    prop: refused[r].3,
                    lowered: refused[r].4,
                    authored: refused[r].5,
                    member: string_of(refused[r].6.as_str()),
                },
            );
            r = r + 1;
        } else {
            out.push(VariantFinding::Note(d));
        }
        if place < usize::MAX {
            place = place + 1;
        }
    }
    out
}

/// A copy of a prop list.
fn copy_props(props: &Vec<Prop>) -> (out: Vec<Prop>)
    ensures
        out@ == props@,
{
    let mut out: Vec<Prop> = Vec::new();
    let mut t: usize = 0;
    while t < props.len()
        invariant
            t <= props@.len(),
            out@ == props@.take(t as int),
        decreases props@.len() - t,
    {
        out.push(props[t]);
        proof {
            assert(props@.take(t + 1) =~= props@.take(t as int).push(props@[t as int]));
        }
        t = t + 1;
    }
    proof {
        assert(props@.take(t as int) =~= props@);
    }
    out
}


/// The transforms `orientation` compares for a component set: for each
/// member after the first, and each of the first member's paths in the
/// order they sort, the linear parts of the first member's layer there and
/// of this member's (nothing for a path this member lacks). Empty for a set
/// whose members' paths do not line up.
pub fn orientation_pairs(set: &FigmaNode) -> (pairs: Vec<Vec<(Option<[u32; 4]>, Option<[u32; 4]>)>>) {
    let mut pairs: Vec<Vec<(Option<[u32; 4]>, Option<[u32; 4]>)>> = Vec::new();
    let members = members_of(set);
    let trees = match member_trees(members.as_slice()) {
        Ok(t) => t,
        Err(_) => {
            return pairs;
        },
    };
    if trees.len() < 2 {
        return pairs;
    }
    let keys = sorted_keys(&trees[0]);
    let mut m: usize = 1;
    while m < trees.len()
        invariant
            1 <= m <= trees@.len(),
        decreases trees@.len() - m,
    {
        let mut row: Vec<(Option<[u32; 4]>, Option<[u32; 4]>)> = Vec::new();
        let mut k: usize = 0;
        while k < keys.len()
            invariant
                k <= keys@.len(),
                1 <= m < trees@.len(),
            decreases keys@.len() - k,
        {
            let pair = match (find_key(&trees[0], &keys[k]), find_key(&trees[m], &keys[k])) {
                (Some(a), Some(b)) => (trees[0][a].node.facts.transform, trees[m][b].node.facts.transform),
                _ => (None, None),
            };
            row.push(pair);
            k = k + 1;
        }
        pairs.push(row);
        m = m + 1;
    }
    pairs
}


/// The sentence of an instance whose layer at `key` lowered `prop` to
/// `lowered` while the member it shows authors `authored`, both as the
/// decimals they print as.
pub open spec fn mismatch_text(key: Seq<char>, prop: Prop, lowered: Seq<char>, authored: Seq<char>, member: Seq<char>) -> Seq<char> {
    "the instance's \""@ + key + "\" lowered "@ + prop_word(prop) + " "@ + lowered + ", and the member it shows (\""@
        + member + "\") authors "@ + authored + " \u{2014} an instance-level override the variant table cannot express"@
}

/// The finding of a refused instance, given the decimals its two values
/// print as.
pub fn refused_diagnostic(at: Location, key: &str, prop: Prop, lowered: &str, authored: &str, member: &str) -> (d: Diagnostic)
    ensures
        d@ == (DiagnosticView {
            rule: UNLOWERABLE_SET@,
            severity: Severity::Warning,
            at: at@,
            message: mismatch_text(key@, prop, lowered@, authored@, member@)
                + ", so this instance lowers no variant table; its baked subtree still paints"@,
        }),
{
    let mut m = string_of("the instance's \"");
    push_str(&mut m, key);
    push_str(&mut m, "\" lowered ");
    push_str(&mut m, prop.name());
    push_str(&mut m, " ");
    push_str(&mut m, lowered);
    push_str(&mut m, ", and the member it shows (\"");
    push_str(&mut m, member);
    push_str(&mut m, "\") authors ");
    push_str(&mut m, authored);
    push_str(&mut m, " \u{2014} an instance-level override the variant table cannot express");
    proof {
        assert(m@ == mismatch_text(key@, prop, lowered@, authored@, member@));
    }
    instance_loss(m.as_str(), at)
}


// ---- what weight the pass's findings carry ------------------------------------

/// A weight the variant pass may give a finding: a warning, or, under
/// `Strict`, an error for an interaction that lowers nowhere.
pub open spec fn pass_weight(rule: Seq<char>, severity: Severity, policy: EmitPolicy) -> bool {
    severity == Severity::Warning || (policy == EmitPolicy::Strict && rule == UNSUPPORTED_INTERACTION@)
}

pub open spec fn pass_weighs(ds: Seq<DiagnosticView>, policy: EmitPolicy) -> bool {
    forall|i: int| 0 <= i < ds.len() ==> pass_weight((#[trigger] ds[i]).rule, ds[i].severity, policy)
}

pub open spec fn echoes_weigh(fs: Seq<EchoableView>, policy: EmitPolicy) -> bool {
    forall|i: int| 0 <= i < fs.len() ==> pass_weight((#[trigger] fs[i]).rule, fs[i].severity, policy)
}

proof fn lemma_switch_weighs(s: SwitchView, landing: Landing, reach: Reach, policy: EmitPolicy)
    ensures
        echoes_weigh(switch_findings(s, landing, reach, omission_weight(policy)), policy),
{
    let fs = switch_findings(s, landing, reach, omission_weight(policy));
    assert forall|i: int| 0 <= i < fs.len() implies pass_weight((#[trigger] fs[i]).rule, fs[i].severity, policy) by {
        match switch_verdict(s, landing, reach, omission_weight(policy)) {
            Verdict::Omitted(earned, message) => {
                assert(earned == Severity::Warning || earned == omission_weight(policy));
                let head = seq![EchoableView { rule: UNSUPPORTED_INTERACTION@, severity: earned, message }];
                if i == 0 {
                    assert(fs[i] == head[0]);
                } else {
                    assert(fs[i].rule == UNSUPPORTED_INTERACTION@ && fs[i].severity == earned);
                }
            },
            _ => {},
        }
    }
}

proof fn lemma_switches_weigh(switches: Seq<SwitchView>, resolved: Seq<(Landing, Reach)>, policy: EmitPolicy, n: nat)
    ensures
        echoes_weigh(switches_findings(switches, resolved, omission_weight(policy), n), policy),
    decreases n,
{
    if n > 0 {
        let i = n - 1;
        lemma_switches_weigh(switches, resolved, policy, i as nat);
        lemma_switch_weighs(switches[i], resolved[i].0, resolved[i].1, policy);
        let a = switches_findings(switches, resolved, omission_weight(policy), i as nat);
        let b = switch_findings(switches[i], resolved[i].0, resolved[i].1, omission_weight(policy));
        assert forall|k: int| 0 <= k < (a + b).len() implies pass_weight((#[trigger] (a + b)[k]).rule, (a + b)[k].severity, policy) by {
            if k < a.len() {
                assert((a + b)[k] == a[k]);
            } else {
                assert((a + b)[k] == b[k - a.len()]);
            }
        }
    }
}

proof fn lemma_interaction_weighs(read: InteractionsView, resolved: Seq<(Landing, Reach)>, policy: EmitPolicy)
    ensures
        echoes_weigh(interaction_findings(read, resolved, policy), policy),
{
    let by = omission_weight(policy);
    let n = if read.switches.len() <= resolved.len() {
        read.switches.len()
    } else {
        resolved.len()
    };
    lemma_switches_weigh(read.switches, resolved, policy, n);
    let a = read.unsupported.map_values(|what: Seq<char>| vocabulary_gap(what, by));
    let b = switches_findings(read.switches, resolved, by, n);
    assert(interaction_findings(read, resolved, policy) == a + b);
    assert forall|k: int| 0 <= k < (a + b).len() implies pass_weight((#[trigger] (a + b)[k]).rule, (a + b)[k].severity, policy) by {
        if k < a.len() {
            assert((a + b)[k] == a[k]);
        } else {
            assert((a + b)[k] == b[k - a.len()]);
        }
    }
}

proof fn lemma_report_all_weighs(c: CollapseView, source: Seq<char>, fs: Seq<EchoableView>, at: LocationView, policy: EmitPolicy)
    requires
        pass_weighs(c.diagnostics, policy),
        echoes_weigh(fs, policy),
    ensures
        pass_weighs(report_all(c, source, fs, at).diagnostics, policy),
    decreases fs.len(),
{
    if fs.len() > 0 {
        assert forall|i: int| 0 <= i < fs.drop_last().len() implies pass_weight((#[trigger] fs.drop_last()[i]).rule, fs.drop_last()[i].severity, policy) by {
            assert(fs.drop_last()[i] == fs[i]);
        }
        lemma_report_all_weighs(c, source, fs.drop_last(), at, policy);
        let mid = report_all(c, source, fs.drop_last(), at);
        let f = fs.last();
        assert(pass_weight(fs[fs.len() - 1].rule, fs[fs.len() - 1].severity, policy));
        let after = report_spec(mid, source, f, at);
        match first_match(mid.echoed, folds_into(mid, source, f)) {
            Some(_) => {},
            None => {
                assert forall|i: int| 0 <= i < after.diagnostics.len() implies pass_weight((#[trigger] after.diagnostics[i]).rule, after.diagnostics[i].severity, policy) by {
                    if i < mid.diagnostics.len() {
                        assert(after.diagnostics[i] == mid.diagnostics[i]);
                    }
                }
            },
        }
    }
}

proof fn lemma_finish_weighs(c: CollapseView, policy: EmitPolicy)
    requires
        pass_weighs(c.diagnostics, policy),
    ensures
        pass_weighs(finish_spec(c), policy),
{
    let out = finish_spec(c);
    assert forall|i: int| 0 <= i < out.len() implies pass_weight((#[trigger] out[i]).rule, out[i].severity, policy) by {
        assert(out[i] == finished(c.diagnostics[i], i, c.echoed));
        assert(pass_weight(c.diagnostics[i].rule, c.diagnostics[i].severity, policy));
    }
}

proof fn lemma_set_motion_weighs(
    differing: Seq<Vec<Prop>>,
    members: Seq<Seq<char>>,
    at: LocationView,
    animates: bool,
    collisions: Seq<usize>,
    policy: EmitPolicy,
)
    ensures
        pass_weighs(set_motion(differing, members, at, animates, collisions), policy),
{
    let out = set_motion(differing, members, at, animates, collisions);
    if animates {
        let named = named_props(differing).map_values(|p: Prop| motion_finding(at, interpolated_text(p)));
        let more = collisions.map_values(|m: usize| motion_finding(at, contended_text(members[m as int])));
        assert forall|i: int| 0 <= i < out.len() implies pass_weight((#[trigger] out[i]).rule, out[i].severity, policy) by {
            if i < named.len() {
                assert(out[i] == named[i]);
            } else if !rect_differs(differing) {
                assert(out[i].severity == Severity::Warning);
            } else {
                assert(out[i] == more[i - named.len()]);
            }
        }
    }
}

} // verus!
