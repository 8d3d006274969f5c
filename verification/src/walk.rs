//! The lowering walk's verdicts on one node: which node kinds lower, what
//! blocks a node before its paint is read, which of its strokes and fills
//! lower and what refuses the rest, the omission a blocker earns and the
//! count of what a refused node takes with it, how a parent's negative gap
//! reaches its children, and the refusal of a file that lowers to nothing.
use vstd::prelude::*;

use crate::diagnostics::{diagnostics_view, Diagnostic, DiagnosticView, Location, LocationView, NodePath, Severity};
use crate::paints::{
    cache_in_pool, from_images, cache_view, digests_of, entries_below, fills_blockers, fills_error, fills_of, fills_run, same_but_assets,
    withdraw_assets, FillSpec, IdentifiedImage,
};
use crate::document::{
    default_constraints, AxisSizing, Document, LayoutConstraints, LayoutContainer, LayoutContainerView, LayoutMode,
    MainAxisAlign, TextAlign, TextAlignV,
};
use crate::echo::{omission_severity, omission_weight};
use crate::figma::{
    block_if, constraints_of, lemma_append_assoc, constraints_outcome, derefs, field_is, forest_size, holds, is_negative_bits,
    is_nonzero_bits, lemma_forest_append, uniform_winding, winding_fold, CompileError, FigmaTextStyle, Geometry, one_if, subtree_size, block, FigmaEffect, FigmaNode, FigmaPaint, Flow,
};
use crate::text::{chars_match_at, chars_of, decimal, opt_chars, push_decimal, push_str, str_eq, string_of, strings_view};
use crate::vector::WindingRule;
use crate::EmitPolicy;

verus! {

/// A construct the document vocabulary cannot express yet.
pub const UNSUPPORTED: &'static str = "figma.unsupported";

/// A refused node had descendants, and they went with it.
pub const SUBTREE_DROPPED: &'static str = "figma.subtree-dropped";

/// Every top-level node resolved to no paintable content.
pub const NO_CONTENT: &'static str = "figma.no-content";

// ------------------------------------------------------------- node kinds

/// What the walk does with a node by its type alone.
#[derive(Clone, Copy, Debug, PartialEq, Eq, Structural)]
pub enum KindVerdict {
    /// A component definition: it resolves but paints nothing, so it is
    /// skipped whole and never diagnosed.
    Definition,
    /// A kind with a lowering.
    Lowered,
    /// Any other kind, refused by its type.
    Refused,
}

pub open spec fn kind_verdict(kind: Seq<char>) -> KindVerdict {
    if kind == "COMPONENT"@ || kind == "COMPONENT_SET"@ {
        KindVerdict::Definition
    } else if kind == "FRAME"@ || kind == "INSTANCE"@ || kind == "TEXT"@ || kind == "ELLIPSE"@ || kind
        == "RECTANGLE"@ || kind == "SECTION"@ || kind == "GROUP"@ || kind == "VECTOR"@ {
        KindVerdict::Lowered
    } else {
        KindVerdict::Refused
    }
}

/// The walk's verdict on a node of type `kind`.
pub fn node_kind(kind: &str) -> (v: KindVerdict)
    ensures
        v == kind_verdict(kind@),
{
    if str_eq(kind, "COMPONENT") || str_eq(kind, "COMPONENT_SET") {
        KindVerdict::Definition
    } else if str_eq(kind, "FRAME") || str_eq(kind, "INSTANCE") || str_eq(kind, "TEXT") || str_eq(
        kind,
        "ELLIPSE",
    ) || str_eq(kind, "RECTANGLE") || str_eq(kind, "SECTION") || str_eq(kind, "GROUP") || str_eq(
        kind,
        "VECTOR",
    ) {
        KindVerdict::Lowered
    } else {
        KindVerdict::Refused
    }
}

/// What a refused kind is reported as.
pub fn kind_refusal(kind: &str) -> (what: String)
    ensures
        what@ == "node type "@ + kind@,
{
    let mut what = string_of("node type ");
    push_str(&mut what, kind);
    what
}

// ------------------------------------------------------------- omissions

pub open spec fn omission_text(what: Seq<char>) -> Seq<char> {
    what + " is not in the document vocabulary yet"@
}

/// The omission a blocker earns at the index its node would have taken.
pub open spec fn omission(index: u32, path: Seq<char>, what: Seq<char>, policy: EmitPolicy) -> DiagnosticView {
    DiagnosticView {
        rule: UNSUPPORTED@,
        severity: omission_weight(policy),
        at: LocationView::Node(index, path),
        message: omission_text(what),
    }
}

/// One unsupported-construct finding at `index`: an error under `Strict`,
/// a warning under `Partial`.
pub fn unsupported_at(index: u32, path: &str, what: &str, policy: EmitPolicy) -> (d: Diagnostic)
    ensures
        d@ == omission(index, path@, what@, policy),
{
    let mut message = string_of(what);
    push_str(&mut message, " is not in the document vocabulary yet");
    Diagnostic {
        rule: UNSUPPORTED,
        severity: omission_severity(policy),
        at: Location::Node(NodePath::new(index, string_of(path))),
        message,
    }
}

pub open spec fn dropped_text(count: nat) -> Seq<char> {
    "this layer was refused, so the "@ + decimal(count)
        + " layer(s) below it in the Figma file were dropped with it and are not named individually; they have no parent to attach to. Some may not have lowered on their own terms either"@
}

/// The finding naming how many layers went with a refused node.
pub open spec fn subtree_dropped(index: u32, path: Seq<char>, count: nat, policy: EmitPolicy) -> DiagnosticView {
    DiagnosticView {
        rule: SUBTREE_DROPPED@,
        severity: omission_weight(policy),
        at: LocationView::Node(index, path),
        message: dropped_text(count),
    }
}

/// The emit policy weighs the walk's two omission findings and changes
/// nothing else: under `Strict` each is an error, under `Partial` the same
/// finding is a warning, with the same rule, place and sentence.
pub proof fn policy_weighs_only_omissions(index: u32, path: Seq<char>, what: Seq<char>, count: nat)
    ensures
        omission(index, path, what, EmitPolicy::Strict).severity == Severity::Error,
        omission(index, path, what, EmitPolicy::Partial).severity == Severity::Warning,
        omission(index, path, what, EmitPolicy::Partial) == (DiagnosticView {
            severity: Severity::Warning,
            ..omission(index, path, what, EmitPolicy::Strict)
        }),
        subtree_dropped(index, path, count, EmitPolicy::Strict).severity == Severity::Error,
        subtree_dropped(index, path, count, EmitPolicy::Partial) == (DiagnosticView {
            severity: Severity::Warning,
            ..subtree_dropped(index, path, count, EmitPolicy::Strict)
        }),
{
}

/// Pushes `node`'s children, in order, onto `stack`.
fn push_children<'a>(stack: &mut Vec<&'a FigmaNode>, node: &'a FigmaNode)
    ensures
        derefs(final(stack)@) == derefs(old(stack)@) + node.children@,
{
    let ghost base = derefs(stack@);
    let mut k: usize = 0;
    proof {
        assert(base + node.children@.take(0) =~= base);
    }
    while k < node.children.len()
        invariant
            k <= node.children@.len(),
            derefs(stack@) == base + node.children@.take(k as int),
        decreases node.children@.len() - k,
    {
        let child = &node.children[k];
        let ghost prev = stack@;
        stack.push(child);
        proof {
            assert(derefs(stack@) =~= derefs(prev).push(*child));
            assert(node.children@.take(k + 1) =~= node.children@.take(k as int).push(*child));
            assert(derefs(stack@) =~= base + node.children@.take(k + 1));
        }
        k = k + 1;
    }
    proof {
        assert(node.children@.take(k as int) =~= node.children@);
    }
}

/// The finding naming the layers a refused node takes with it: how many
/// lie below it, at the index the refusal was reported at. A leaf earns
/// none. Its weight follows the emit policy as the omission's does.
pub fn refused_subtree(index: u32, path: &str, node: &FigmaNode, policy: EmitPolicy) -> (d: Option<Diagnostic>)
    requires
        forest_size(node.children@) <= usize::MAX,
    ensures
        match d {
            None => forest_size(node.children@) == 0,
            Some(d) => forest_size(node.children@) > 0 && d@ == subtree_dropped(
                index,
                path@,
                forest_size(node.children@),
                policy,
            ),
        },
{
    let ghost total = forest_size(node.children@);
    let mut stack: Vec<&FigmaNode> = Vec::new();
    proof {
        assert(derefs(stack@) =~= Seq::<FigmaNode>::empty());
    }
    push_children(&mut stack, node);
    proof {
        assert(Seq::<FigmaNode>::empty() + node.children@ =~= node.children@);
    }
    let mut count: usize = 0;
    while stack.len() > 0
        invariant
            count + forest_size(derefs(stack@)) == total,
            total <= usize::MAX,
        decreases forest_size(derefs(stack@)),
    {
        let ghost before = derefs(stack@);
        let next = stack.pop().unwrap();
        proof {
            assert(derefs(stack@) =~= before.drop_last());
            assert(before.last() == *next);
            assert(forest_size(before) == forest_size(before.drop_last()) + subtree_size(*next));
        }
        let ghost rest = derefs(stack@);
        push_children(&mut stack, next);
        proof {
            lemma_forest_append(rest, next.children@);
            assert(subtree_size(*next) == 1 + forest_size(next.children@));
        }
        count = count + 1;
    }
    proof {
        assert(forest_size(derefs(stack@)) == 0);
    }
    if count == 0 {
        return None;
    }
    let mut message = string_of("this layer was refused, so the ");
    push_decimal(&mut message, count as u64);
    push_str(
        &mut message,
        " layer(s) below it in the Figma file were dropped with it and are not named individually; they have no parent to attach to. Some may not have lowered on their own terms either",
    );
    Some(
        Diagnostic {
            rule: SUBTREE_DROPPED,
            severity: omission_severity(policy),
            at: Location::Node(NodePath::new(index, string_of(path))),
            message,
        },
    )
}


/// The finding, if any, that counts what a refused node takes with it.
pub open spec fn dropped_findings(index: u32, path: Seq<char>, n: FigmaNode, policy: EmitPolicy) -> Seq<
    DiagnosticView,
> {
    if forest_size(n.children@) > 0 {
        seq![subtree_dropped(index, path, forest_size(n.children@), policy)]
    } else {
        seq![]
    }
}

/// Skips a blocked node. The assets its own paints admitted are withdrawn
/// (the pool keeps its first `assets_before` entries and the cache forgets
/// the refs that went with them); each blocker, in order, becomes an
/// omission at the index the node would have taken; and one more finding
/// counts the layers its subtree loses, when it has any. The distance
/// fields its geometry baked, and the findings its triaged constructs earn,
/// are left to the caller.
pub fn skip_blocked(
    doc: &mut Document,
    image_of: &mut Vec<(String, u32)>,
    assets_before: usize,
    diagnostics: &mut Vec<Diagnostic>,
    path: &str,
    node: &FigmaNode,
    blockers: Vec<String>,
    policy: EmitPolicy,
)
    requires
        assets_before <= old(doc).assets@.len(),
        forest_size(node.children@) <= usize::MAX,
    ensures
        final(doc).assets@ == old(doc).assets@.take(assets_before as int),
        same_but_assets(*final(doc), *old(doc)),
        cache_view(final(image_of)@) == entries_below(cache_view(old(image_of)@), assets_before as int),
        cache_in_pool(cache_view(final(image_of)@), final(doc).assets@.len()),
        ({
            let index = #[verifier::truncate] (old(doc).nodes@.len() as u32);
            diagnostics_view(final(diagnostics)@) == diagnostics_view(old(diagnostics)@) + blockers@.map_values(
                |w: String| omission(index, path@, w@, policy),
            ) + dropped_findings(index, path@, *node, policy)
        }),
{
    withdraw_assets(doc, image_of, assets_before);
    let index = #[verifier::truncate] (doc.nodes.len() as u32);
    let ghost d0 = diagnostics_view(diagnostics@);
    let ghost ws = blockers@;
    let mut k: usize = 0;
    proof {
        assert(d0 + ws.take(0).map_values(|w: String| omission(index, path@, w@, policy)) =~= d0);
    }
    while k < blockers.len()
        invariant
            k <= ws.len(),
            blockers@ == ws,
            diagnostics_view(diagnostics@) == d0 + ws.take(k as int).map_values(
                |w: String| omission(index, path@, w@, policy),
            ),
        decreases ws.len() - k,
    {
        let d = unsupported_at(index, path, blockers[k].as_str(), policy);
        let ghost before = diagnostics@;
        diagnostics.push(d);
        proof {
            assert(diagnostics_view(diagnostics@) =~= diagnostics_view(before).push(d@));
            assert(ws.take(k + 1) =~= ws.take(k as int).push(ws[k as int]));
            assert(ws.take(k + 1).map_values(|w: String| omission(index, path@, w@, policy)) =~= ws.take(
                k as int,
            ).map_values(|w: String| omission(index, path@, w@, policy)).push(omission(index, path@, ws[k as int]@, policy)));
        }
        k = k + 1;
    }
    proof {
        assert(ws.take(k as int) =~= ws);
    }
    let ghost d1 = diagnostics_view(diagnostics@);
    match refused_subtree(index, path, node, policy) {
        Some(d) => {
            let ghost before = diagnostics@;
            diagnostics.push(d);
            proof {
                assert(diagnostics_view(diagnostics@) =~= d1 + dropped_findings(index, path@, *node, policy));
            }
        },
        None => {
            proof {
                assert(d1 + dropped_findings(index, path@, *node, policy) =~= d1);
            }
        },
    }
}

// ------------------------------------------------------------- a node's intent

/// Whether a node lowers as a mask, and what refuses its mask: only a
/// box-shaped outline mask has a lowering.
pub open spec fn mask_outcome(n: FigmaNode) -> (bool, Seq<Seq<char>>) {
    if n.is_mask == Some(true) {
        if holds(n.mask_type, "ALPHA"@) {
            (false, seq!["an alpha mask (a soft mask has no hard box-clip lowering)"@])
        } else if holds(n.mask_type, "LUMINANCE"@) {
            (false, seq!["a luminance mask"@])
        } else if n.kind@ == "TEXT"@ {
            (false, seq!["a text node used as a mask (letterforms are not a box)"@])
        } else {
            (true, seq![])
        }
    } else {
        (false, seq![])
    }
}

/// Whether the node is turned (a present, nonzero rotation).
pub open spec fn rotated(n: FigmaNode) -> bool {
    match n.rotation {
        Some(r) => is_nonzero_bits(r),
        None => false,
    }
}

/// What blocks a node by its structure: its mask, a rotation the document
/// cannot carry, hidden section contents, absolute positioning, strokes in
/// layout, a reversed paint order.
pub open spec fn structure_blockers(n: FigmaNode) -> Seq<Seq<char>> {
    mask_outcome(n).1 + one_if(
        rotated(n) && n.children@.len() > 0,
        "a rotated node with children (a rotation does not compose down the tree)"@,
    ) + one_if(rotated(n) && n.size is None, "a rotated node with no size"@) + one_if(
        n.kind@ == "SECTION"@ && n.section_contents_hidden == Some(true),
        "a section with hidden contents (sectionContentsHidden)"@,
    ) + one_if(holds(n.layout_positioning, "ABSOLUTE"@), "absolute positioning inside auto-layout"@)
        + one_if(
        n.strokes_included_in_layout == Some(true),
        "strokes included in layout (strokesIncludedInLayout)"@,
    ) + one_if(n.item_reverse_z_index == Some(true), "reversed child paint order (itemReverseZIndex)"@)
}

/// The refusal of a node with no box to place.
pub open spec fn box_blocker(n: FigmaNode) -> Seq<Seq<char>> {
    one_if(n.absolute_bounding_box is None, "node "@ + n.name@ + " has no absoluteBoundingBox"@)
}

pub open spec fn flow_value(flow: Option<&Flow>) -> Option<Flow> {
    match flow {
        Some(f) => Some(*f),
        None => None,
    }
}

/// What the walk reads of a node under `flow`: whether it masks, its sizing
/// intent, and everything that blocks it before its paint is read, in order.
pub open spec fn intent_outcome(n: FigmaNode, flow: Option<Flow>) -> (bool, Option<LayoutConstraints>, Seq<Seq<char>>) {
    let c = constraints_outcome(n.layout, flow);
    (mask_outcome(n).0, c.0, structure_blockers(n) + c.1 + box_blocker(n))
}

fn mask_exec(node: &FigmaNode, blockers: &mut Vec<String>) -> (mask: bool)
    ensures
        mask == mask_outcome(*node).0,
        strings_view(final(blockers)@) == strings_view(old(blockers)@) + mask_outcome(*node).1,
{
    let masks = match node.is_mask {
        Some(m) => m,
        None => false,
    };
    if !masks {
        assert(strings_view(blockers@) =~= strings_view(old(blockers)@) + seq![]);
        return false;
    }
    if field_is(&node.mask_type, "ALPHA") {
        block_if(blockers, true, "an alpha mask (a soft mask has no hard box-clip lowering)");
        false
    } else if field_is(&node.mask_type, "LUMINANCE") {
        block_if(blockers, true, "a luminance mask");
        false
    } else if str_eq(node.kind.as_str(), "TEXT") {
        block_if(blockers, true, "a text node used as a mask (letterforms are not a box)");
        false
    } else {
        assert(strings_view(blockers@) =~= strings_view(old(blockers)@) + seq![]);
        true
    }
}

/// Appends the structural findings on `node` to `blockers`, one rule at a
/// time, and tells whether it lowers as a mask.
fn structure_exec(node: &FigmaNode, blockers: &mut Vec<String>) -> (mask: bool)
    ensures
        mask == mask_outcome(*node).0,
        strings_view(final(blockers)@) == strings_view(old(blockers)@) + structure_blockers(*node),
{
    let ghost b0 = strings_view(blockers@);
    let ghost n = *node;
    let mask = mask_exec(node, blockers);
    let turned = match node.rotation {
        Some(r) => r != 0 && r != 0x8000_0000,
        None => false,
    };
    let ghost s1 = mask_outcome(n).1;
    let ghost s2 = s1 + one_if(
        rotated(n) && n.children@.len() > 0,
        "a rotated node with children (a rotation does not compose down the tree)"@,
    );
    block_if(
        blockers,
        turned && node.children.len() > 0,
        "a rotated node with children (a rotation does not compose down the tree)",
    );
    proof {
        lemma_append_assoc(b0, s1, one_if(rotated(n) && n.children@.len() > 0, "a rotated node with children (a rotation does not compose down the tree)"@));
    }
    let ghost s3 = s2 + one_if(rotated(n) && n.size is None, "a rotated node with no size"@);
    block_if(blockers, turned && node.size.is_none(), "a rotated node with no size");
    proof {
        lemma_append_assoc(b0, s2, one_if(rotated(n) && n.size is None, "a rotated node with no size"@));
    }
    let hidden = match node.section_contents_hidden {
        Some(h) => h,
        None => false,
    };
    let ghost r4 = one_if(
        n.kind@ == "SECTION"@ && n.section_contents_hidden == Some(true),
        "a section with hidden contents (sectionContentsHidden)"@,
    );
    block_if(
        blockers,
        str_eq(node.kind.as_str(), "SECTION") && hidden,
        "a section with hidden contents (sectionContentsHidden)",
    );
    proof {
        lemma_append_assoc(b0, s3, r4);
    }
    let ghost s4 = s3 + r4;
    let ghost r5 = one_if(holds(n.layout_positioning, "ABSOLUTE"@), "absolute positioning inside auto-layout"@);
    block_if(
        blockers,
        field_is(&node.layout_positioning, "ABSOLUTE"),
        "absolute positioning inside auto-layout",
    );
    proof {
        lemma_append_assoc(b0, s4, r5);
    }
    let ghost s5 = s4 + r5;
    let in_layout = match node.strokes_included_in_layout {
        Some(v) => v,
        None => false,
    };
    let ghost r6 = one_if(
        n.strokes_included_in_layout == Some(true),
        "strokes included in layout (strokesIncludedInLayout)"@,
    );
    block_if(blockers, in_layout, "strokes included in layout (strokesIncludedInLayout)");
    proof {
        lemma_append_assoc(b0, s5, r6);
    }
    let ghost s6 = s5 + r6;
    let reversed = match node.item_reverse_z_index {
        Some(v) => v,
        None => false,
    };
    let ghost r7 = one_if(n.item_reverse_z_index == Some(true), "reversed child paint order (itemReverseZIndex)"@);
    block_if(blockers, reversed, "reversed child paint order (itemReverseZIndex)");
    proof {
        lemma_append_assoc(b0, s6, r7);
        assert(s6 + r7 == structure_blockers(n));
    }
    mask
}

/// What the walk reads of a node before its paint: whether it lowers as a
/// mask and its sizing intent under its parent's `flow`, with every
/// structural finding that blocks it appended to `blockers`, in the order
/// the walk reports them.
pub fn node_intent(node: &FigmaNode, flow: Option<&Flow>, blockers: &mut Vec<String>) -> (out: (
    bool,
    Option<LayoutConstraints>,
))
    ensures
        out.0 == intent_outcome(*node, flow_value(flow)).0,
        out.1 == intent_outcome(*node, flow_value(flow)).1,
        strings_view(final(blockers)@) == strings_view(old(blockers)@) + intent_outcome(
            *node,
            flow_value(flow),
        ).2,
{
    let ghost b0 = strings_view(blockers@);
    let mask = structure_exec(node, blockers);
    let constraints = constraints_of(&node.layout, flow, blockers);
    let ghost b2 = strings_view(blockers@);
    if node.absolute_bounding_box.is_none() {
        let mut what = string_of("node ");
        push_str(&mut what, node.name.as_str());
        push_str(&mut what, " has no absoluteBoundingBox");
        let ghost before = blockers@;
        blockers.push(what);
        proof {
            assert(strings_view(blockers@) =~= strings_view(before).push(what@));
        }
    }
    proof {
        assert(strings_view(blockers@) =~= b2 + box_blocker(*node));
        lemma_append_assoc(b0, structure_blockers(*node), constraints_outcome(node.layout, flow_value(flow)).1);
        lemma_append_assoc(
            b0,
            structure_blockers(*node) + constraints_outcome(node.layout, flow_value(flow)).1,
            box_blocker(*node),
        );
    }
    (mask, constraints)
}

// ------------------------------------------------------------- effects the node cannot carry

/// A drop or inner shadow that is not hidden.
pub open spec fn visible_shadow(e: FigmaEffect) -> bool {
    e.visible != Some(false) && (e.kind@ == "DROP_SHADOW"@ || e.kind@ == "INNER_SHADOW"@)
}

/// A backdrop blur that is not hidden.
pub open spec fn visible_backdrop_blur(e: FigmaEffect) -> bool {
    e.visible != Some(false) && e.kind@ == "BACKGROUND_BLUR"@
}

/// Whether a node of this kind builds the paint entry its shadows lower
/// onto: a text node builds none, and a baked vector's silhouette is its
/// field, not a box.
pub open spec fn carries_shadows(kind: Seq<char>) -> bool {
    kind != "TEXT"@ && kind != "VECTOR"@
}

/// The refusal of a visible shadow on a node whose lowering has nowhere to
/// put it.
pub open spec fn shadow_blocker(n: FigmaNode) -> Seq<Seq<char>> {
    one_if(
        !carries_shadows(n.kind@) && exists|i: int| 0 <= i < n.effects@.len() && visible_shadow(#[trigger] n.effects@[i]),
        "a shadow on a "@ + (if n.kind@ == "TEXT"@ { "text"@ } else { "vector"@ }) + " node"@,
    )
}

/// The refusal of a visible backdrop blur on a text node, which builds no
/// paint entry to carry it.
pub open spec fn text_blur_blocker(n: FigmaNode) -> Seq<Seq<char>> {
    one_if(
        n.kind@ == "TEXT"@ && exists|i: int| 0 <= i < n.effects@.len() && visible_backdrop_blur(#[trigger] n.effects@[i]),
        "a blur on a text node"@,
    )
}

fn first_effect(effects: &Vec<FigmaEffect>, blur: bool) -> (found: bool)
    ensures
        found == if blur {
            exists|i: int| 0 <= i < effects@.len() && visible_backdrop_blur(#[trigger] effects@[i])
        } else {
            exists|i: int| 0 <= i < effects@.len() && visible_shadow(#[trigger] effects@[i])
        },
{
    let mut i: usize = 0;
    while i < effects.len()
        invariant
            i <= effects@.len(),
            forall|j: int|
                0 <= j < i ==> !(if blur {
                    visible_backdrop_blur(#[trigger] effects@[j])
                } else {
                    visible_shadow(effects@[j])
                }),
        decreases effects@.len() - i,
    {
        let e = &effects[i];
        let shown = match e.visible {
            Some(v) => v,
            None => true,
        };
        let hit = if blur {
            shown && str_eq(e.kind.as_str(), "BACKGROUND_BLUR")
        } else {
            shown && (str_eq(e.kind.as_str(), "DROP_SHADOW") || str_eq(e.kind.as_str(), "INNER_SHADOW"))
        };
        if hit {
            return true;
        }
        i = i + 1;
    }
    false
}

/// Names a visible shadow on a text or vector node in `blockers`: neither
/// lowering has a box to draw it on, and it would otherwise vanish.
pub fn unlowered_shadow(node: &FigmaNode, blockers: &mut Vec<String>)
    ensures
        strings_view(final(blockers)@) == strings_view(old(blockers)@) + shadow_blocker(*node),
{
    let text = str_eq(node.kind.as_str(), "TEXT");
    let carries = !text && !str_eq(node.kind.as_str(), "VECTOR");
    if !carries && first_effect(&node.effects, false) {
        let mut what = string_of("a shadow on a ");
        push_str(&mut what, if text { "text" } else { "vector" });
        push_str(&mut what, " node");
        let ghost before = blockers@;
        blockers.push(what);
        proof {
            assert(strings_view(blockers@) =~= strings_view(before).push(what@));
        }
    }
    assert(strings_view(blockers@) =~= strings_view(old(blockers)@) + shadow_blocker(*node));
}

/// Names a visible backdrop blur on a text node in `blockers`.
pub fn blur_on_text(node: &FigmaNode, blockers: &mut Vec<String>)
    ensures
        strings_view(final(blockers)@) == strings_view(old(blockers)@) + text_blur_blocker(*node),
{
    let hit = str_eq(node.kind.as_str(), "TEXT") && first_effect(&node.effects, true);
    block_if(blockers, hit, "a blur on a text node");
}

// ------------------------------------------------------------- the flow below a container

/// The container as the document carries it, and the leading margin (bits)
/// each in-flow child after the first absorbs. A negative flex gap becomes
/// that margin and the gap zero; under `SpaceBetween` the solver owns the
/// spacing, so the gap is zero with no margin. Anything else is unchanged.
pub open spec fn lowered_gap(c: LayoutContainerView) -> (LayoutContainerView, u32) {
    let zeroed = LayoutContainerView {
        mode: c.mode,
        gap: 0,
        padding: c.padding,
        main_align: c.main_align,
        cross_align: c.cross_align,
        cross_gap: c.cross_gap,
        grid_rows: c.grid_rows,
        grid_columns: c.grid_columns,
    };
    if c.main_align == MainAxisAlign::SpaceBetween {
        (zeroed, 0)
    } else if is_negative_bits(c.gap) && (c.mode == LayoutMode::Horizontal || c.mode == LayoutMode::Vertical) {
        (zeroed, c.gap)
    } else {
        (c, 0)
    }
}

/// Lowers a container's authored gap: the container the document carries,
/// and the leading margin its later children absorb.
pub fn lower_gap(container: LayoutContainer) -> (out: (LayoutContainer, u32))
    ensures
        out.0@ == lowered_gap(container@).0,
        out.1 == lowered_gap(container@).1,
{
    let mut c = container;
    if c.main_align == MainAxisAlign::SpaceBetween {
        c.gap = 0;
        (c, 0)
    } else if 0x8000_0000 < c.gap && c.gap <= 0xff80_0000 && (c.mode == LayoutMode::Horizontal || c.mode
        == LayoutMode::Vertical) {
        let margin = c.gap;
        c.gap = 0;
        (c, margin)
    } else {
        (c, 0)
    }
}

/// A lowered container carries no negative flex gap, and lowering it again
/// changes nothing and moves no margin: the negative gap is spent once.
pub proof fn lowered_gap_is_settled(c: LayoutContainerView)
    ensures
        (c.mode == LayoutMode::Horizontal || c.mode == LayoutMode::Vertical) ==> !is_negative_bits(
            lowered_gap(c).0.gap,
        ),
        lowered_gap(lowered_gap(c).0) == (lowered_gap(c).0, 0u32),
{
}

/// The flex context the child at `position` is visited under: none outside
/// a container; otherwise the container's main axis, the margin for every
/// child after the first, and whether the parent hugs each axis under its
/// own sizing (the default when it has none).
pub open spec fn flow_below(
    container: Option<LayoutContainerView>,
    margin: u32,
    constraints: Option<LayoutConstraints>,
    position: int,
) -> Option<Flow> {
    match container {
        None => None,
        Some(c) => {
            let s = match constraints {
                Some(k) => k,
                None => default_constraints(),
            };
            Some(
                Flow {
                    horizontal: c.mode == LayoutMode::Horizontal,
                    leading_margin: if position == 0 {
                        0
                    } else {
                        margin
                    },
                    parent_hugs_h: s.sizing_h == AxisSizing::Hug,
                    parent_hugs_v: s.sizing_v == AxisSizing::Hug,
                },
            )
        },
    }
}

pub open spec fn container_view(c: Option<LayoutContainer>) -> Option<LayoutContainerView> {
    match c {
        Some(c) => Some(c@),
        None => None,
    }
}

/// The flex context of the child at `position` under a lowered node's
/// `container` (after `lower_gap`, with its `margin`) and `constraints`.
pub fn child_flow(
    container: &Option<LayoutContainer>,
    margin: u32,
    constraints: &Option<LayoutConstraints>,
    position: usize,
) -> (f: Option<Flow>)
    ensures
        f == flow_below(container_view(*container), margin, *constraints, position as int),
{
    match container {
        None => None,
        Some(c) => {
            let s = match constraints {
                Some(k) => *k,
                None => LayoutConstraints::default(),
            };
            Some(
                Flow {
                    horizontal: c.mode == LayoutMode::Horizontal,
                    leading_margin: if position == 0 {
                        0
                    } else {
                        margin
                    },
                    parent_hugs_h: s.sizing_h == AxisSizing::Hug,
                    parent_hugs_v: s.sizing_v == AxisSizing::Hug,
                },
            )
        },
    }
}

// ------------------------------------------------------------- a file with nothing to paint

pub open spec fn is_definition(n: FigmaNode) -> bool {
    n.kind@ == "COMPONENT"@ || n.kind@ == "COMPONENT_SET"@
}

/// Each top-level definition among `ns`, as `name (TYPE)`, in order.
pub open spec fn definitions(ns: Seq<FigmaNode>) -> Seq<Seq<char>>
    decreases ns.len(),
{
    if ns.len() == 0 {
        seq![]
    } else {
        definitions(ns.drop_last()) + if is_definition(ns.last()) {
            seq![ns.last().name@ + " ("@ + ns.last().kind@ + ")"@]
        } else {
            seq![]
        }
    }
}

/// `items` joined with `", "`.
pub open spec fn comma_joined(items: Seq<Seq<char>>) -> Seq<char>
    decreases items.len(),
{
    if items.len() == 0 {
        seq![]
    } else if items.len() == 1 {
        items[0]
    } else {
        comma_joined(items.drop_last()) + ", "@ + items.last()
    }
}

pub open spec fn no_content_text(definitions: Seq<Seq<char>>) -> Seq<char> {
    if definitions.len() == 0 {
        "the document lowered to no content"@
    } else {
        "the document lowered to no content: its only top-level nodes are component definitions ("@
            + comma_joined(definitions) + "), which resolve but do not paint"@
    }
}

pub open spec fn any_error(ds: Seq<Diagnostic>) -> bool {
    exists|i: int| 0 <= i < ds.len() && (#[trigger] ds[i]).severity == Severity::Error
}

/// The refusal of a file whose walk lowered no node while nothing else
/// explained the emptiness.
pub open spec fn no_content_finding(roots: Seq<FigmaNode>) -> DiagnosticView {
    DiagnosticView {
        rule: NO_CONTENT@,
        severity: Severity::Error,
        at: LocationView::Node(0, "/"@),
        message: no_content_text(definitions(roots)),
    }
}

/// The `figma.no-content` error for a walk over `roots` that left `doc`
/// without a node, unless an error among `diagnostics` already blocks the
/// document; the message names the component definitions that were all
/// the file held.
pub fn no_content(roots: &[&FigmaNode], doc: &Document, diagnostics: &Vec<Diagnostic>) -> (d: Option<Diagnostic>)
    ensures
        match d {
            None => doc.nodes@.len() > 0 || any_error(diagnostics@),
            Some(d) => doc.nodes@.len() == 0 && !any_error(diagnostics@) && d@ == no_content_finding(
                derefs(roots@),
            ),
        },
{
    if doc.nodes.len() > 0 {
        return None;
    }
    let mut i: usize = 0;
    while i < diagnostics.len()
        invariant
            i <= diagnostics@.len(),
            forall|j: int| 0 <= j < i ==> (#[trigger] diagnostics@[j]).severity != Severity::Error,
        decreases diagnostics@.len() - i,
    {
        if diagnostics[i].severity == Severity::Error {
            return None;
        }
        i = i + 1;
    }
    let ghost all = derefs(roots@);
    let mut listed = String::new();
    let mut count: usize = 0;
    let mut k: usize = 0;
    proof {
        assert(all.take(0) =~= Seq::<FigmaNode>::empty());
    }
    while k < roots.len()
        invariant
            k <= roots@.len(),
            all == derefs(roots@),
            count == definitions(all.take(k as int)).len(),
            count <= k,
            listed@ == comma_joined(definitions(all.take(k as int))),
        decreases roots@.len() - k,
    {
        let n = roots[k];
        proof {
            assert(all.take(k + 1).drop_last() =~= all.take(k as int));
            assert(all.take(k + 1).last() == *n);
        }
        if str_eq(n.kind.as_str(), "COMPONENT") || str_eq(n.kind.as_str(), "COMPONENT_SET") {
            let ghost before = listed@;
            if count > 0 {
                push_str(&mut listed, ", ");
            }
            push_str(&mut listed, n.name.as_str());
            push_str(&mut listed, " (");
            push_str(&mut listed, n.kind.as_str());
            push_str(&mut listed, ")");
            proof {
                let defs = definitions(all.take(k + 1));
                assert(defs == definitions(all.take(k as int)).push(n.name@ + " ("@ + n.kind@ + ")"@));
                assert(defs.drop_last() =~= definitions(all.take(k as int)));
                if count > 0 {
                    assert(listed@ =~= before + ", "@ + (n.name@ + " ("@ + n.kind@ + ")"@));
                } else {
                    assert(listed@ =~= n.name@ + " ("@ + n.kind@ + ")"@);
                }
            }
            count = count + 1;
        } else {
            proof {
                assert(definitions(all.take(k + 1)) =~= definitions(all.take(k as int)));
            }
        }
        k = k + 1;
    }
    proof {
        assert(all.take(k as int) =~= all);
    }
    let message = if count == 0 {
        string_of("the document lowered to no content")
    } else {
        let mut m = string_of(
            "the document lowered to no content: its only top-level nodes are component definitions (",
        );
        push_str(&mut m, listed.as_str());
        push_str(&mut m, "), which resolve but do not paint");
        m
    };
    Some(
        Diagnostic {
            rule: NO_CONTENT,
            severity: Severity::Error,
            at: Location::Node(NodePath::new(0, string_of("/"))),
            message,
        },
    )
}

// ------------------------------------------------------------- paints

/// A paint Figma does not mark hidden.
pub open spec fn shown(p: FigmaPaint) -> bool {
    p.visible != Some(false)
}

/// How many of `ps` are shown.
pub open spec fn shown_count(ps: Seq<FigmaPaint>) -> nat
    decreases ps.len(),
{
    if ps.len() == 0 {
        0
    } else {
        shown_count(ps.drop_last()) + if shown(ps.last()) {
            1nat
        } else {
            0nat
        }
    }
}

/// The index of the last shown paint of `ps`, or `-1`.
pub open spec fn last_shown(ps: Seq<FigmaPaint>) -> int
    decreases ps.len(),
{
    if ps.len() == 0 {
        -1
    } else if shown(ps.last()) {
        ps.len() - 1
    } else {
        last_shown(ps.drop_last())
    }
}

/// How many paints of a list are shown: none, exactly one (by index), or
/// more than one.
#[derive(Clone, Copy, Debug, PartialEq, Eq, Structural)]
pub enum OnePaint {
    Nothing,
    One(usize),
    Many,
}

pub proof fn lemma_last_shown(ps: Seq<FigmaPaint>)
    ensures
        shown_count(ps) == 0 <==> last_shown(ps) == -1,
        last_shown(ps) != -1 ==> 0 <= last_shown(ps) < ps.len() && shown(ps[last_shown(ps)]),
        -1 <= last_shown(ps) < ps.len(),
    decreases ps.len(),
{
    if ps.len() > 0 {
        lemma_last_shown(ps.drop_last());
    }
}

/// Whether `paints` has no shown paint, exactly one (and which), or more.
pub fn single_visible_paint(paints: &Vec<FigmaPaint>) -> (one: OnePaint)
    ensures
        match one {
            OnePaint::Nothing => shown_count(paints@) == 0,
            OnePaint::One(i) => shown_count(paints@) == 1 && i as int == last_shown(paints@) && i
                < paints@.len() && shown(paints@[i as int]),
            OnePaint::Many => shown_count(paints@) >= 2,
        },
{
    let mut seen: usize = 0;
    let mut last: usize = 0;
    let mut k: usize = 0;
    proof {
        assert(paints@.take(0) =~= Seq::<FigmaPaint>::empty());
    }
    while k < paints.len()
        invariant
            k <= paints@.len(),
            seen == if shown_count(paints@.take(k as int)) < 2 {
                shown_count(paints@.take(k as int))
            } else {
                2
            },
            seen > 0 ==> last as int == last_shown(paints@.take(k as int)),
        decreases paints@.len() - k,
    {
        proof {
            assert(paints@.take(k + 1).drop_last() =~= paints@.take(k as int));
            assert(paints@.take(k + 1).last() == paints@[k as int]);
        }
        let hidden = match paints[k].visible {
            Some(v) => !v,
            None => false,
        };
        if !hidden {
            last = k;
            if seen < 2 {
                seen = seen + 1;
            }
        }
        k = k + 1;
    }
    proof {
        assert(paints@.take(k as int) =~= paints@);
        lemma_last_shown(paints@);
    }
    if seen == 0 {
        OnePaint::Nothing
    } else if seen == 1 {
        OnePaint::One(last)
    } else {
        OnePaint::Many
    }
}

/// Where a stroke sits against the node's edge.
#[derive(Clone, Copy, Debug, PartialEq, Eq, Structural)]
pub enum StrokeAlign {
    Inside,
    Center,
    Outside,
}

/// The stroke a node lowers: which of its stroke paints colours it, and
/// where it sits. The width is the node's and the colour that paint's.
#[derive(Clone, Copy, Debug, PartialEq, Eq, Structural)]
pub struct StrokeIntent {
    pub paint: usize,
    pub align: StrokeAlign,
}

pub open spec fn stroke_type_of(n: FigmaNode) -> Option<Seq<char>> {
    match n.complex_stroke_properties {
        Some(p) => opt_chars(p.stroke_type),
        None => None,
    }
}

pub open spec fn dashed(n: FigmaNode) -> bool {
    match n.stroke_dashes {
        Some(d) => d@.len() > 0,
        None => false,
    }
}

/// The authored alignment's name, `INSIDE` when absent.
pub open spec fn align_name(n: FigmaNode) -> Seq<char> {
    match n.stroke_align {
        Some(a) => a@,
        None => "INSIDE"@,
    }
}

pub open spec fn align_of(name: Seq<char>) -> Option<StrokeAlign> {
    if name == "INSIDE"@ {
        Some(StrokeAlign::Inside)
    } else if name == "CENTER"@ {
        Some(StrokeAlign::Center)
    } else if name == "OUTSIDE"@ {
        Some(StrokeAlign::Outside)
    } else {
        None
    }
}

/// Whether the sole shown stroke paint is a solid with a colour.
pub open spec fn solid_stroke(n: FigmaNode) -> bool {
    let p = n.strokes@[last_shown(n.strokes@)];
    p.kind@ == "SOLID"@ && p.color is Some
}

/// Every reason a node's strokes do not lower, in order: a stack of shown
/// strokes, a non-basic stroke type, a dash pattern, a sole stroke that is
/// not a coloured solid, an alignment with no lowering. A node with no
/// shown stroke has no stroke findings at all.
pub open spec fn stroke_findings(n: FigmaNode) -> Seq<Seq<char>> {
    let count = shown_count(n.strokes@);
    if count == 0 {
        seq![]
    } else {
        one_if(count >= 2, "more than one visible stroke"@) + match stroke_type_of(n) {
            Some(t) => one_if(t != "BASIC"@, "a "@ + t + " stroke"@),
            None => seq![],
        } + one_if(dashed(n), "a dashed stroke"@) + if count == 1 {
            let p = n.strokes@[last_shown(n.strokes@)];
            if p.kind@ == "SOLID"@ {
                one_if(p.color is None, "a SOLID stroke with no color"@)
            } else {
                seq!["a non-solid stroke"@]
            }
        } else {
            seq![]
        } + one_if(align_of(align_name(n)) is None, "a "@ + align_name(n) + " stroke alignment"@)
    }
}

/// The stroke a node lowers: its sole shown stroke paint, when that is a
/// coloured solid and the alignment has a lowering.
pub open spec fn stroke_intent(n: FigmaNode) -> Option<(int, StrokeAlign)> {
    if shown_count(n.strokes@) == 1 && solid_stroke(n) && align_of(align_name(n)) is Some {
        Some((last_shown(n.strokes@), align_of(align_name(n))->0))
    } else {
        None
    }
}

/// The node's stroke, with every reason it does not lower appended to
/// `blockers`. The findings are independent and all collected; the stroke
/// comes back only from a coloured solid with a lowerable alignment.
pub fn stroke_of(node: &FigmaNode, blockers: &mut Vec<String>) -> (stroke: Option<StrokeIntent>)
    ensures
        match stroke {
            Some(s) => stroke_intent(*node) == Some((s.paint as int, s.align)),
            None => stroke_intent(*node) is None,
        },
        strings_view(final(blockers)@) == strings_view(old(blockers)@) + stroke_findings(*node),
{
    let ghost b0 = strings_view(blockers@);
    let ghost n = *node;
    proof {
        lemma_last_shown(n.strokes@);
    }
    let one = single_visible_paint(&node.strokes);
    let sole = match one {
        OnePaint::Nothing => {
            assert(strings_view(blockers@) =~= b0 + stroke_findings(n));
            return None;
        },
        OnePaint::Many => None,
        OnePaint::One(i) => Some(i),
    };
    block_if(blockers, sole.is_none(), "more than one visible stroke");
    let ghost f1 = one_if(shown_count(n.strokes@) >= 2, "more than one visible stroke"@);
    let ghost b1 = strings_view(blockers@);
    assert(b1 == b0 + f1);
    match &node.complex_stroke_properties {
        Some(p) => match &p.stroke_type {
            Some(t) => {
                if !str_eq(t.as_str(), "BASIC") {
                    let mut what = string_of("a ");
                    push_str(&mut what, t.as_str());
                    push_str(&mut what, " stroke");
                    block(blockers, what);
                }
            },
            None => {},
        },
        None => {},
    }
    let ghost f2 = match stroke_type_of(n) {
        Some(t) => one_if(t != "BASIC"@, "a "@ + t + " stroke"@),
        None => seq![],
    };
    proof {
        assert(strings_view(blockers@) =~= b1 + f2);
    }
    let ghost b2 = strings_view(blockers@);
    let dashes = match &node.stroke_dashes {
        Some(d) => d.len() > 0,
        None => false,
    };
    block_if(blockers, dashes, "a dashed stroke");
    let ghost f3 = one_if(dashed(n), "a dashed stroke"@);
    let ghost b3 = strings_view(blockers@);
    assert(b3 == b2 + f3);
    let solid = match sole {
        Some(i) => {
            let p = &node.strokes[i];
            if str_eq(p.kind.as_str(), "SOLID") {
                block_if(blockers, p.color.is_none(), "a SOLID stroke with no color");
                p.color.is_some()
            } else {
                block_if(blockers, true, "a non-solid stroke");
                false
            }
        },
        None => {
            assert(strings_view(blockers@) =~= b3 + seq![]);
            false
        },
    };
    let ghost f4 = if shown_count(n.strokes@) == 1 {
        let p = n.strokes@[last_shown(n.strokes@)];
        if p.kind@ == "SOLID"@ {
            one_if(p.color is None, "a SOLID stroke with no color"@)
        } else {
            seq!["a non-solid stroke"@]
        }
    } else {
        seq![]
    };
    let ghost b4 = strings_view(blockers@);
    assert(b4 == b3 + f4);
    assert(solid == (sole is Some && solid_stroke(n)));
    let align = match &node.stroke_align {
        None => Some(StrokeAlign::Inside),
        Some(a) => {
            if str_eq(a.as_str(), "INSIDE") {
                Some(StrokeAlign::Inside)
            } else if str_eq(a.as_str(), "CENTER") {
                Some(StrokeAlign::Center)
            } else if str_eq(a.as_str(), "OUTSIDE") {
                Some(StrokeAlign::Outside)
            } else {
                None
            }
        },
    };
    assert(align == align_of(align_name(n)));
    match &node.stroke_align {
        Some(a) => {
            if align.is_none() {
                let mut what = string_of("a ");
                push_str(&mut what, a.as_str());
                push_str(&mut what, " stroke alignment");
                block(blockers, what);
            }
        },
        None => {},
    }
    let ghost f5 = one_if(align_of(align_name(n)) is None, "a "@ + align_name(n) + " stroke alignment"@);
    proof {
        assert(strings_view(blockers@) =~= b4 + f5);
        lemma_append_assoc(b0, f1, f2);
        lemma_append_assoc(b0, f1 + f2, f3);
        lemma_append_assoc(b0, f1 + f2 + f3, f4);
        lemma_append_assoc(b0, f1 + f2 + f3 + f4, f5);
        assert(stroke_findings(n) == f1 + f2 + f3 + f4 + f5);
    }
    match (sole, align) {
        (Some(i), Some(a)) => {
            if solid {
                Some(StrokeIntent { paint: i, align: a })
            } else {
                None
            }
        },
        _ => None,
    }
}

/// The fill of a paint entry that carries exactly one (an ellipse, a baked
/// vector): nothing when no fill is shown, the lowered fill of a sole shown
/// one (nothing when it refused), and a blocker for a stack of them.
pub fn sole_fill<T>(node: &FigmaNode, kinds: Vec<T>, blockers: &mut Vec<String>) -> (fill: Option<T>)
    ensures
        strings_view(final(blockers)@) == strings_view(old(blockers)@) + one_if(
            shown_count(node.fills@) >= 2,
            "more than one visible fill"@,
        ),
        fill == if shown_count(node.fills@) == 1 && kinds@.len() > 0 {
            Some(kinds@[0])
        } else {
            None::<T>
        },
{
    let mut kinds = kinds;
    match single_visible_paint(&node.fills) {
        OnePaint::Nothing => {
            assert(strings_view(blockers@) =~= strings_view(old(blockers)@) + seq![]);
            None
        },
        OnePaint::One(_) => {
            assert(strings_view(blockers@) =~= strings_view(old(blockers)@) + seq![]);
            if kinds.len() > 0 {
                Some(kinds.remove(0))
            } else {
                None
            }
        },
        OnePaint::Many => {
            block_if(blockers, true, "more than one visible fill");
            None
        },
    }
}


/// The fill of a paint entry that carries exactly one (an ellipse, a baked
/// vector). Every shown fill is lowered whatever their count, as `fills_of`
/// says, so a stack names both its stacking and each fill's own refusal;
/// then the entry has no fill when none is shown, the sole shown fill's
/// lowering (none when it refused), and a stack is a blocker.
pub fn fill_of(
    node: &FigmaNode,
    path: &str,
    policy: EmitPolicy,
    images: &Vec<IdentifiedImage>,
    image_of: &mut Vec<(String, u32)>,
    doc: &mut Document,
    blockers: &mut Vec<String>,
) -> (r: Result<Option<FillSpec>, CompileError>)
    requires
        old(doc).assets@.len() + node.fills@.len() < u32::MAX,
    ensures
        ({
            let run = fills_run(
                node.fills@,
                path@,
                #[verifier::truncate] (old(doc).nodes@.len() as u32),
                images@,
                cache_view(old(image_of)@),
                digests_of(old(doc).assets@),
                policy,
            );
            let had = old(blockers)@.len();
            &&& cache_view(final(image_of)@) == run.cache
            &&& digests_of(final(doc).assets@) == run.digests
            &&& match fills_error(run, had, path@) {
                Some(e) => {
                    &&& r matches Err(x) && x@ == e
                    &&& strings_view(final(blockers)@) == strings_view(old(blockers)@) + fills_blockers(run, had, path@)
                },
                None => {
                    &&& r matches Ok(f) && match f {
                        Some(k) => shown_count(node.fills@) == 1 && run.lowered.len() > 0 && k@ == run.lowered[0],
                        None => !(shown_count(node.fills@) == 1 && run.lowered.len() > 0),
                    }
                    &&& strings_view(final(blockers)@) == strings_view(old(blockers)@) + fills_blockers(run, had, path@)
                        + one_if(shown_count(node.fills@) >= 2, "more than one visible fill"@)
                },
            }
        }),
        same_but_assets(*final(doc), *old(doc)),
        cache_in_pool(cache_view(old(image_of)@), old(doc).assets@.len()) ==> cache_in_pool(
            cache_view(final(image_of)@),
            final(doc).assets@.len(),
        ),
        from_images(old(doc).assets@, images@) ==> from_images(final(doc).assets@, images@),
{
    let kinds = match fills_of(node, path, policy, images, image_of, doc, blockers) {
        Ok(ks) => ks,
        Err(e) => {
            return Err(e);
        },
    };
    let fill = sole_fill(node, kinds, blockers);
    Ok(fill)
}


/// No shown fill is dropped in silence: when lowering a node's fills runs to
/// the end, every shown fill has either lowered, been refused by name, or
/// been set aside as an unresolved image to be named.
pub proof fn every_shown_fill_lowers_or_is_named(
    ps: Seq<FigmaPaint>,
    path: Seq<char>,
    index: u32,
    images: Seq<IdentifiedImage>,
    cache: Seq<(Seq<char>, u32)>,
    digests: Seq<Seq<u8>>,
    policy: EmitPolicy,
)
    requires
        fills_run(ps, path, index, images, cache, digests, policy).abort is None,
    ensures
        ({
            let run = fills_run(ps, path, index, images, cache, digests, policy);
            run.lowered.len() + run.refused.len() + run.unresolved.len() == shown_count(ps)
        }),
    decreases ps.len(),
{
    if ps.len() > 0 {
        let st = fills_run(ps.drop_last(), path, index, images, cache, digests, policy);
        if st.abort is Some {
            assert(fills_run(ps, path, index, images, cache, digests, policy) == st);
        } else {
            every_shown_fill_lowers_or_is_named(ps.drop_last(), path, index, images, cache, digests, policy);
        }
    }
}

// ------------------------------------------------------------- text

/// Whether `t` occurs in `s`.
pub open spec fn contains(s: Seq<char>, t: Seq<char>) -> bool {
    exists|i: int| 0 <= i && i + t.len() <= s.len() && #[trigger] s.subrange(i, i + t.len()) == t
}

fn contains_text(s: &str, t: &str) -> (r: bool)
    ensures
        r == contains(s@, t@),
{
    let sv = chars_of(s);
    let tv = chars_of(t);
    if tv.len() > sv.len() {
        return false;
    }
    if tv.len() == 0 {
        assert(s@.subrange(0int, 0int + t@.len()) =~= t@);
        return true;
    }
    let last = sv.len() - tv.len();
    let mut i: usize = 0;
    while i <= last
        invariant
            sv@ == s@,
            tv@ == t@,
            last == sv@.len() - tv@.len(),
            tv@.len() > 0,
            last < usize::MAX,
            i <= last + 1,
            forall|j: int| 0 <= j < i ==> #[trigger] sv@.subrange(j, j + tv@.len()) != tv@,
        decreases last + 1 - i,
    {
        if chars_match_at(&sv, i, &tv) {
            return true;
        }
        i = i + 1;
    }
    false
}

pub open spec fn align_h(a: Option<String>) -> (TextAlign, Seq<Seq<char>>) {
    match a {
        None => (TextAlign::Left, seq![]),
        Some(s) => if s@ == "LEFT"@ {
            (TextAlign::Left, seq![])
        } else if s@ == "CENTER"@ {
            (TextAlign::Center, seq![])
        } else if s@ == "RIGHT"@ {
            (TextAlign::Right, seq![])
        } else {
            (TextAlign::Left, seq!["text alignment "@ + s@])
        },
    }
}

pub open spec fn align_v(a: Option<String>) -> (TextAlignV, Seq<Seq<char>>) {
    match a {
        None => (TextAlignV::Top, seq![]),
        Some(s) => if s@ == "TOP"@ {
            (TextAlignV::Top, seq![])
        } else if s@ == "CENTER"@ {
            (TextAlignV::Center, seq![])
        } else if s@ == "BOTTOM"@ {
            (TextAlignV::Bottom, seq![])
        } else {
            (TextAlignV::Top, seq!["vertical text alignment "@ + s@])
        },
    }
}

/// A fixed line height lowers only from `PIXELS`; Figma's `Auto` is the
/// font's own advance, and any other unit has no lowering.
pub open spec fn line_height_outcome(unit: Option<String>, px: Option<u32>) -> (Option<u32>, Seq<Seq<char>>) {
    match unit {
        None => (None, seq![]),
        Some(u) => if u@ == "INTRINSIC_%"@ {
            (None, seq![])
        } else if u@ == "PIXELS"@ {
            (px, seq![])
        } else {
            (None, seq!["a "@ + u@ + " line height"@])
        },
    }
}

pub open spec fn italic(st: FigmaTextStyle) -> bool {
    match st.font_style {
        Some(f) => contains(f@, "Italic"@),
        None => false,
    }
}

pub open spec fn decorated(st: FigmaTextStyle) -> bool {
    match st.text_decoration {
        Some(d) => d@ != "NONE"@,
        None => false,
    }
}

pub open spec fn cased(st: FigmaTextStyle) -> bool {
    match st.text_case {
        Some(c) => c@ != "ORIGINAL"@,
        None => false,
    }
}

/// The hug and fixed modes map to sizing; truncation and anything unknown
/// have no lowering.
pub open spec fn resize_findings(r: Seq<char>) -> Seq<Seq<char>> {
    if r == "WIDTH_AND_HEIGHT"@ || r == "HEIGHT"@ || r == "NONE"@ {
        seq![]
    } else if r == "TRUNCATE"@ {
        seq!["text truncation"@]
    } else {
        seq!["text auto-resize "@ + r]
    }
}

/// Standard ligatures off (`LIGA` = 0, alone) is the one OpenType setting
/// with a lowering.
pub open spec fn ligatures(flags: Seq<(String, Option<i64>)>) -> (bool, Seq<Seq<char>>) {
    if flags.len() == 0 {
        (false, seq![])
    } else if flags.len() == 1 && flags[0].0@ == "LIGA"@ && flags[0].1 == Some(0i64) {
        (true, seq![])
    } else {
        (false, seq!["OpenType features"@])
    }
}

/// The glyph colour's source: the sole shown fill, when it is a coloured
/// solid, by index, and what refuses it otherwise.
pub open spec fn text_fill(n: FigmaNode) -> (Option<int>, Seq<Seq<char>>) {
    let count = shown_count(n.fills@);
    if count == 0 {
        (None, seq!["a text node with no fill"@])
    } else if count >= 2 {
        (None, seq!["more than one visible text fill"@])
    } else {
        let p = n.fills@[last_shown(n.fills@)];
        if p.kind@ == "SOLID"@ {
            if p.color is Some {
                (Some(last_shown(n.fills@)), seq![])
            } else {
                (None, seq!["a text SOLID fill with no color"@])
            }
        } else {
            (None, seq!["a non-solid text fill"@])
        }
    }
}

/// Every authored text feature with no lowering, in order, for a text node
/// with characters and a style.
pub open spec fn style_findings(n: FigmaNode, st: FigmaTextStyle) -> Seq<Seq<char>> {
    one_if(n.style_overrides > 0, "multiple text style segments (styleOverrideTable)"@) + align_h(
        st.text_align_horizontal,
    ).1 + align_v(st.text_align_vertical).1 + line_height_outcome(st.line_height_unit, st.line_height_px).1
        + one_if(italic(st), "italic text"@) + one_if(decorated(st), "text decoration"@) + one_if(
        cased(st),
        "a text case transform"@,
    ) + resize_findings(st.text_auto_resize@) + one_if(st.hyperlink, "a text hyperlink"@) + ligatures(
        st.opentype_flags@,
    ).1 + one_if(shown_count(n.strokes@) > 0, "a text stroke (outline)"@) + text_fill(n).1
}

/// What refuses a text node's lowering: a missing `characters` or style
/// alone, else every unlowerable feature of the style.
pub open spec fn text_findings(n: FigmaNode) -> Seq<Seq<char>> {
    match n.characters {
        None => seq!["a text node with no characters"@],
        Some(_) => match n.style {
            None => seq!["a text node with no style"@],
            Some(st) => style_findings(n, st),
        },
    }
}

/// A text node's style as the document carries it, with the glyph colour
/// named by the fill that supplies it.
#[derive(Clone, Debug)]
pub struct TextIntent {
    pub family: String,
    pub size: u32,
    pub weight: u16,
    pub fill: usize,
    pub line_height_px: Option<u32>,
    pub letter_spacing: u32,
    pub text_align: TextAlign,
    pub text_align_v: TextAlignV,
    pub ligatures_off: bool,
}

/// Whether `t` is the style a node with style `st` lowers to.
pub open spec fn lowers_to(n: FigmaNode, st: FigmaTextStyle, t: TextIntent) -> bool {
    &&& text_fill(n).0 == Some(t.fill as int)
    &&& t.family@ == st.font_family@
    &&& t.size == st.font_size
    &&& t.weight == match st.font_weight {
        Some(w) => w,
        None => 400u16,
    }
    &&& t.line_height_px == line_height_outcome(st.line_height_unit, st.line_height_px).0
    &&& t.letter_spacing == match st.letter_spacing {
        Some(l) => l,
        None => 0u32,
    }
    &&& t.text_align == align_h(st.text_align_horizontal).0
    &&& t.text_align_v == align_v(st.text_align_vertical).0
    &&& t.ligatures_off == ligatures(st.opentype_flags@).0
}

fn align_h_exec(a: &Option<String>, blockers: &mut Vec<String>) -> (r: TextAlign)
    ensures
        r == align_h(*a).0,
        strings_view(final(blockers)@) == strings_view(old(blockers)@) + align_h(*a).1,
{
    match a {
        None => {
            assert(strings_view(blockers@) =~= strings_view(old(blockers)@) + seq![]);
            TextAlign::Left
        },
        Some(s) => {
            if str_eq(s.as_str(), "LEFT") || str_eq(s.as_str(), "CENTER") || str_eq(s.as_str(), "RIGHT") {
                assert(strings_view(blockers@) =~= strings_view(old(blockers)@) + seq![]);
                if str_eq(s.as_str(), "LEFT") {
                    TextAlign::Left
                } else if str_eq(s.as_str(), "CENTER") {
                    TextAlign::Center
                } else {
                    TextAlign::Right
                }
            } else {
                let mut what = string_of("text alignment ");
                push_str(&mut what, s.as_str());
                block(blockers, what);
                assert(strings_view(blockers@) =~= strings_view(old(blockers)@) + align_h(*a).1);
                TextAlign::Left
            }
        },
    }
}

fn align_v_exec(a: &Option<String>, blockers: &mut Vec<String>) -> (r: TextAlignV)
    ensures
        r == align_v(*a).0,
        strings_view(final(blockers)@) == strings_view(old(blockers)@) + align_v(*a).1,
{
    match a {
        None => {
            assert(strings_view(blockers@) =~= strings_view(old(blockers)@) + seq![]);
            TextAlignV::Top
        },
        Some(s) => {
            if str_eq(s.as_str(), "TOP") || str_eq(s.as_str(), "CENTER") || str_eq(s.as_str(), "BOTTOM") {
                assert(strings_view(blockers@) =~= strings_view(old(blockers)@) + seq![]);
                if str_eq(s.as_str(), "TOP") {
                    TextAlignV::Top
                } else if str_eq(s.as_str(), "CENTER") {
                    TextAlignV::Center
                } else {
                    TextAlignV::Bottom
                }
            } else {
                let mut what = string_of("vertical text alignment ");
                push_str(&mut what, s.as_str());
                block(blockers, what);
                assert(strings_view(blockers@) =~= strings_view(old(blockers)@) + align_v(*a).1);
                TextAlignV::Top
            }
        },
    }
}

fn line_height_exec(unit: &Option<String>, px: Option<u32>, blockers: &mut Vec<String>) -> (r: Option<u32>)
    ensures
        r == line_height_outcome(*unit, px).0,
        strings_view(final(blockers)@) == strings_view(old(blockers)@) + line_height_outcome(*unit, px).1,
{
    match unit {
        None => {
            assert(strings_view(blockers@) =~= strings_view(old(blockers)@) + seq![]);
            None
        },
        Some(u) => {
            if str_eq(u.as_str(), "INTRINSIC_%") {
                assert(strings_view(blockers@) =~= strings_view(old(blockers)@) + seq![]);
                None
            } else if str_eq(u.as_str(), "PIXELS") {
                assert(strings_view(blockers@) =~= strings_view(old(blockers)@) + seq![]);
                px
            } else {
                let mut what = string_of("a ");
                push_str(&mut what, u.as_str());
                push_str(&mut what, " line height");
                block(blockers, what);
                assert(strings_view(blockers@) =~= strings_view(old(blockers)@) + line_height_outcome(*unit, px).1);
                None
            }
        },
    }
}

fn resize_exec(r: &String, blockers: &mut Vec<String>)
    ensures
        strings_view(final(blockers)@) == strings_view(old(blockers)@) + resize_findings(r@),
{
    let s = r.as_str();
    if str_eq(s, "WIDTH_AND_HEIGHT") || str_eq(s, "HEIGHT") || str_eq(s, "NONE") {
        assert(strings_view(blockers@) =~= strings_view(old(blockers)@) + seq![]);
    } else if str_eq(s, "TRUNCATE") {
        block_if(blockers, true, "text truncation");
    } else {
        let mut what = string_of("text auto-resize ");
        push_str(&mut what, s);
        block(blockers, what);
        assert(strings_view(blockers@) =~= strings_view(old(blockers)@) + resize_findings(r@));
    }
}

fn ligatures_exec(flags: &Vec<(String, Option<i64>)>, blockers: &mut Vec<String>) -> (off: bool)
    ensures
        off == ligatures(flags@).0,
        strings_view(final(blockers)@) == strings_view(old(blockers)@) + ligatures(flags@).1,
{
    if flags.len() == 0 {
        assert(strings_view(blockers@) =~= strings_view(old(blockers)@) + seq![]);
        return false;
    }
    let liga_off = flags.len() == 1 && str_eq(flags[0].0.as_str(), "LIGA") && match flags[0].1 {
        Some(v) => v == 0,
        None => false,
    };
    if liga_off {
        assert(strings_view(blockers@) =~= strings_view(old(blockers)@) + seq![]);
        true
    } else {
        block_if(blockers, true, "OpenType features");
        false
    }
}

fn text_fill_of(node: &FigmaNode, blockers: &mut Vec<String>) -> (fill: Option<usize>)
    ensures
        match fill {
            Some(i) => text_fill(*node).0 == Some(i as int),
            None => text_fill(*node).0 is None,
        },
        strings_view(final(blockers)@) == strings_view(old(blockers)@) + text_fill(*node).1,
{
    match single_visible_paint(&node.fills) {
        OnePaint::Nothing => {
            block_if(blockers, true, "a text node with no fill");
            None
        },
        OnePaint::Many => {
            block_if(blockers, true, "more than one visible text fill");
            None
        },
        OnePaint::One(i) => {
            let p = &node.fills[i];
            if str_eq(p.kind.as_str(), "SOLID") {
                if p.color.is_some() {
                    assert(strings_view(blockers@) =~= strings_view(old(blockers)@) + seq![]);
                    Some(i)
                } else {
                    block_if(blockers, true, "a text SOLID fill with no color");
                    None
                }
            } else {
                block_if(blockers, true, "a non-solid text fill");
                None
            }
        },
    }
}

/// A text node's characters and style, every unlowerable feature appended
/// to `blockers`. No characters, or no style, is the one finding and
/// lowers nothing; otherwise the characters come back, and the style too
/// when the glyph colour has a source.
pub fn text_of(node: &FigmaNode, blockers: &mut Vec<String>) -> (r: (Option<String>, Option<TextIntent>))
    ensures
        strings_view(final(blockers)@) == strings_view(old(blockers)@) + text_findings(*node),
        match node.characters {
            None => r.0 is None && r.1 is None,
            Some(c) => match node.style {
                None => r.0 is None && r.1 is None,
                Some(st) => {
                    &&& r.0 matches Some(rc) && rc@ == c@
                    &&& match r.1 {
                        None => text_fill(*node).0 is None,
                        Some(t) => lowers_to(*node, st, t),
                    }
                },
            },
        },
{
    let ghost n = *node;
    let ghost b0 = strings_view(blockers@);
    let characters = match &node.characters {
        None => {
            block_if(blockers, true, "a text node with no characters");
            return (None, None);
        },
        Some(c) => c,
    };
    let style = match &node.style {
        None => {
            block_if(blockers, true, "a text node with no style");
            return (None, None);
        },
        Some(st) => st,
    };
    let ghost st = *style;
    block_if(blockers, node.style_overrides > 0, "multiple text style segments (styleOverrideTable)");
    let ghost f1 = one_if(n.style_overrides > 0, "multiple text style segments (styleOverrideTable)"@);
    let text_align = align_h_exec(&style.text_align_horizontal, blockers);
    let ghost f2 = align_h(st.text_align_horizontal).1;
    proof {
        lemma_append_assoc(b0, f1, f2);
    }
    let text_align_v = align_v_exec(&style.text_align_vertical, blockers);
    let ghost f3 = align_v(st.text_align_vertical).1;
    proof {
        lemma_append_assoc(b0, f1 + f2, f3);
    }
    let line_height_px = line_height_exec(&style.line_height_unit, style.line_height_px, blockers);
    let ghost f4 = line_height_outcome(st.line_height_unit, st.line_height_px).1;
    proof {
        lemma_append_assoc(b0, f1 + f2 + f3, f4);
    }
    let letter_spacing = match style.letter_spacing {
        Some(l) => l,
        None => 0,
    };
    let is_italic = match &style.font_style {
        Some(f) => contains_text(f.as_str(), "Italic"),
        None => false,
    };
    block_if(blockers, is_italic, "italic text");
    let ghost f5 = one_if(italic(st), "italic text"@);
    proof {
        lemma_append_assoc(b0, f1 + f2 + f3 + f4, f5);
    }
    let is_decorated = match &style.text_decoration {
        Some(d) => !str_eq(d.as_str(), "NONE"),
        None => false,
    };
    block_if(blockers, is_decorated, "text decoration");
    let ghost f6 = one_if(decorated(st), "text decoration"@);
    proof {
        lemma_append_assoc(b0, f1 + f2 + f3 + f4 + f5, f6);
    }
    let is_cased = match &style.text_case {
        Some(c) => !str_eq(c.as_str(), "ORIGINAL"),
        None => false,
    };
    block_if(blockers, is_cased, "a text case transform");
    let ghost f7 = one_if(cased(st), "a text case transform"@);
    proof {
        lemma_append_assoc(b0, f1 + f2 + f3 + f4 + f5 + f6, f7);
    }
    resize_exec(&style.text_auto_resize, blockers);
    let ghost f8 = resize_findings(st.text_auto_resize@);
    proof {
        lemma_append_assoc(b0, f1 + f2 + f3 + f4 + f5 + f6 + f7, f8);
    }
    block_if(blockers, style.hyperlink, "a text hyperlink");
    let ghost f9 = one_if(st.hyperlink, "a text hyperlink"@);
    proof {
        lemma_append_assoc(b0, f1 + f2 + f3 + f4 + f5 + f6 + f7 + f8, f9);
    }
    let ligatures_off = ligatures_exec(&style.opentype_flags, blockers);
    let ghost f10 = ligatures(st.opentype_flags@).1;
    proof {
        lemma_append_assoc(b0, f1 + f2 + f3 + f4 + f5 + f6 + f7 + f8 + f9, f10);
    }
    let outlined = match single_visible_paint(&node.strokes) {
        OnePaint::Nothing => false,
        _ => true,
    };
    block_if(blockers, outlined, "a text stroke (outline)");
    let ghost f11 = one_if(shown_count(n.strokes@) > 0, "a text stroke (outline)"@);
    proof {
        lemma_append_assoc(b0, f1 + f2 + f3 + f4 + f5 + f6 + f7 + f8 + f9 + f10, f11);
    }
    let fill = text_fill_of(node, blockers);
    let ghost f12 = text_fill(n).1;
    proof {
        lemma_append_assoc(b0, f1 + f2 + f3 + f4 + f5 + f6 + f7 + f8 + f9 + f10 + f11, f12);
        assert(style_findings(n, st) == f1 + f2 + f3 + f4 + f5 + f6 + f7 + f8 + f9 + f10 + f11 + f12);
    }
    let weight: u16 = match style.font_weight {
        Some(w) => w,
        None => 400,
    };
    let intent = match fill {
        None => None,
        Some(i) => Some(
            TextIntent {
                family: style.font_family.clone(),
                size: style.font_size,
                weight,
                fill: i,
                line_height_px,
                letter_spacing,
                text_align,
                text_align_v,
                ligatures_off,
            },
        ),
    };
    (Some(characters.clone()), intent)
}

// ------------------------------------------------------------- a vector's field input

/// The contours' paths joined by single spaces into one path.
pub open spec fn joined_paths(gs: Seq<Geometry>) -> Seq<char>
    decreases gs.len(),
{
    if gs.len() == 0 {
        seq![]
    } else if gs.len() == 1 {
        gs[0].path@
    } else {
        joined_paths(gs.drop_last()) + " "@ + gs.last().path@
    }
}

/// The path a vector's selected geometry bakes as, and the winding rule
/// its contours share; a vector with no geometry, or whose contours do not
/// agree on a known rule, is refused by name.
pub fn field_input(geometry: &[Geometry]) -> (r: Result<(String, WindingRule), String>)
    ensures
        match r {
            Ok((path, w)) => geometry@.len() > 0 && winding_fold(geometry@) == Ok::<
                Option<WindingRule>,
                Seq<char>,
            >(Some(w)) && path@ == joined_paths(geometry@),
            Err(e) => if geometry@.len() == 0 {
                e@ == "a vector with no path geometry"@
            } else {
                winding_fold(geometry@) == Err::<Option<WindingRule>, Seq<char>>(e@)
            },
        },
{
    if geometry.len() == 0 {
        return Err(string_of("a vector with no path geometry"));
    }
    let winding = match uniform_winding(geometry) {
        Ok(w) => w,
        Err(e) => return Err(e),
    };
    let mut path = String::new();
    let mut i: usize = 0;
    proof {
        assert(geometry@.take(0) =~= Seq::<Geometry>::empty());
    }
    while i < geometry.len()
        invariant
            i <= geometry@.len(),
            path@ == joined_paths(geometry@.take(i as int)),
        decreases geometry@.len() - i,
    {
        proof {
            assert(geometry@.take(i + 1).drop_last() =~= geometry@.take(i as int));
            assert(geometry@.take(i + 1).last() == geometry@[i as int]);
        }
        if i > 0 {
            push_str(&mut path, " ");
        } else {
            assert(geometry@.take(1)[0] == geometry@[0]);
        }
        push_str(&mut path, geometry[i].path.as_str());
        i = i + 1;
    }
    proof {
        assert(geometry@.take(i as int) =~= geometry@);
    }
    Ok((path, winding))
}

} // verus!
