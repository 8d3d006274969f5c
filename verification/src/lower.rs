//! The lowering walk itself: every top-level node of a Figma file, depth
//! first in document order, into a document. Each node is lowered or
//! skipped with its subtree, every reason it cannot lower collected first;
//! component definitions resolve but paint nothing. The walk's state after
//! each visit is stated over its view, and the whole lowering as the fold
//! of those visits.
use vstd::prelude::*;

use crate::bindings::{apply_rows_only_appends, find_lowered, lowered_from, apply, apply_rows, lowered_view, rows_view, state_of, BindState, BoundVariable, Finding, LoweredNode, LoweredNodeView};
use crate::diagnostics::{diagnostics_view, Construct, Diagnostic, DiagnosticView, NodePath, Profile};
use crate::document::{
    default_constraints, AxisSizing, Box2D, Color, Document, FillKind, LayoutConstraints, LayoutContainer,
    LayoutContainerView, Node, Paint, TextStyle, VariantSet,
};
use crate::figma::{
    canvas_children, container_of, count_named, names_of, container_outcome, derefs, disambiguated_segments,
    forest_size, lemma_forest_append, segment, subtree_size, text_sizing, text_sizing_outcome,
    top_level_nodes, CompileError, CompileErrorView, FigmaNode, Flow,
};
use crate::lowering::{
    ellipse_paint, ellipse_paint_spec, entry_view, frame_paint, frame_paint_spec, vector_paint,
    vector_paint_spec, PaintEntry, PaintEntryView,
};
use crate::paints::{
    cache_in_pool, cache_view, digests_of, entries_below, from_images, lemma_from_images_take, FillSpec, FillSpecView, IdentifiedImage, ONE_BITS,
};
use crate::pools::TextStyleKey;
use crate::text::{decimal, opt_chars, push_str, string_of, strings_view};
use crate::triage::{constructs_of, constructs_spec};
use crate::vector::{keep_below, GeometryDedup, GeometryDedupView};
use crate::walk::{
    align_h, align_v, blur_on_text, child_flow, container_view, dropped_findings, flow_below, flow_value,
    intent_outcome, kind_refusal, kind_verdict, last_shown, ligatures, line_height_outcome, lower_gap,
    lowered_gap, node_intent, node_kind, omission, refused_subtree, rotated, shadow_blocker, shown_count,
    single_visible_paint, skip_blocked, text_blur_blocker, text_fill, text_findings, text_of,
    unlowered_shadow, unsupported_at, KindVerdict, OnePaint, TextIntent,
};
use crate::echo::omission_weight;
use crate::diagnostics::Severity;
use crate::seqs::first_match;
use crate::EmitPolicy;
use crate::variants::{apply_variants, pass_weight, set_in_range, VariantFinding};
use crate::walk::{any_error, no_content, no_content_finding};

verus! {

// ---- what the walk holds ------------------------------------------------------

/// One pending node of the walk: the node, the index of the document node
/// it lowers under, its slash-joined name path, and the flex context its
/// parent puts it in.
pub struct Visit<'a> {
    pub node: &'a FigmaNode,
    pub parent: Option<u32>,
    pub path: String,
    pub flow: Option<Flow>,
}

pub struct VisitView {
    pub node: FigmaNode,
    pub parent: Option<u32>,
    pub path: Seq<char>,
    pub flow: Option<Flow>,
}

impl<'a> View for Visit<'a> {
    type V = VisitView;

    open spec fn view(&self) -> VisitView {
        VisitView { node: *self.node, parent: self.parent, path: self.path@, flow: self.flow }
    }
}

pub open spec fn visits_view<'a>(s: Seq<Visit<'a>>) -> Seq<VisitView> {
    s.map_values(|v: Visit<'a>| v@)
}

/// A construct the import gate triages, on the node it sits on, and the
/// place among the walk's findings where its verdict belongs. The verdict
/// itself is the validator's to give.
#[derive(Clone, Debug)]
pub struct Triaged {
    pub position: usize,
    pub at: NodePath,
    pub construct: Construct,
}

pub struct TriagedView {
    pub position: int,
    pub index: u32,
    pub path: Seq<char>,
    pub construct: Construct,
}

impl View for Triaged {
    type V = TriagedView;

    open spec fn view(&self) -> TriagedView {
        TriagedView {
            position: self.position as int,
            index: self.at.index,
            path: self.at.path@,
            construct: self.construct,
        }
    }
}

/// A document node by value.
pub struct NodeView {
    pub name: Option<Seq<char>>,
    pub parent: Option<u32>,
    pub box2d: Box2D,
    pub paint: Option<Paint>,
    pub container: Option<LayoutContainerView>,
    pub constraints: Option<LayoutConstraints>,
    pub text: Option<Seq<char>>,
    pub text_style: Option<TextStyleKey>,
    pub opacity: u32,
    pub mask: bool,
    pub visible: bool,
}

pub open spec fn style_view(s: Option<TextStyle>) -> Option<TextStyleKey> {
    match s {
        Some(t) => Some(
            (
                t.family@,
                t.size,
                t.weight,
                t.color,
                t.line_height_px,
                t.letter_spacing,
                t.text_align,
                t.text_align_v,
                t.ligatures_off,
            ),
        ),
        None => None,
    }
}

pub open spec fn node_view(n: Node) -> NodeView {
    NodeView {
        name: opt_chars(n.name),
        parent: n.parent,
        box2d: n.box2d,
        paint: n.paint,
        container: container_view(n.container),
        constraints: n.constraints,
        text: opt_chars(n.text),
        text_style: style_view(n.text_style),
        opacity: n.opacity,
        mask: n.mask,
        visible: n.visible,
    }
}

/// The walk's state by value: the nodes lowered so far and their paint
/// entries, the digests of the image pool, the image cache, the findings,
/// the triaged constructs, where each Figma id landed, and the baked
/// shapes.
#[verifier::ext_equal]
pub struct WalkView {
    pub nodes: Seq<NodeView>,
    pub entries: Seq<Option<PaintEntryView>>,
    pub digests: Seq<Seq<u8>>,
    pub cache: Seq<(Seq<char>, u32)>,
    pub diagnostics: Seq<DiagnosticView>,
    pub triaged: Seq<TriagedView>,
    pub lowered: Seq<LoweredNodeView>,
    pub dedup: GeometryDedupView,
}

/// The lowering walk's state. `entries` holds each lowered node's full
/// paint entry, beside `doc.nodes`; `image_of` interns an `imageRef` to its
/// pool index; `index_of_id` records where each Figma id landed, which the
/// binding rows join against; `dedup` holds every baked geometry once.
pub struct Walk<'a> {
    pub doc: Document,
    pub entries: Vec<Option<PaintEntry>>,
    pub diagnostics: Vec<Diagnostic>,
    pub triaged: Vec<Triaged>,
    pub image_of: Vec<(String, u32)>,
    pub index_of_id: Vec<LoweredNode>,
    pub dedup: GeometryDedup,
    pub images: &'a Vec<IdentifiedImage>,
    pub policy: EmitPolicy,
}

impl<'a> View for Walk<'a> {
    type V = WalkView;

    open spec fn view(&self) -> WalkView {
        WalkView {
            nodes: self.doc.nodes@.map_values(|n: Node| node_view(n)),
            entries: self.entries@.map_values(|e: Option<PaintEntry>| entry_view(e)),
            digests: digests_of(self.doc.assets@),
            cache: cache_view(self.image_of@),
            diagnostics: diagnostics_view(self.diagnostics@),
            triaged: self.triaged@.map_values(|t: Triaged| t@),
            lowered: lowered_view(self.index_of_id@),
            dedup: self.dedup@,
        }
    }
}

impl<'a> Walk<'a> {
    /// The shapes line up with the nodes, the cache names only pool entries,
    /// each recorded landing names a lowered node, and no signal is declared
    /// yet, nor any variant table; every asset is a supplied image as
    /// admitted.
    pub open spec fn wf(&self) -> bool {
        &&& self.dedup.wf()
        &&& self.doc.variant_sets@.len() == 0
        &&& from_images(self.doc.assets@, self.images@)
        &&& cache_in_pool(cache_view(self.image_of@), self.doc.assets@.len())
        &&& self.entries@.len() == self.doc.nodes@.len()
        &&& self.doc.signals@.len() == 0
        &&& self.doc.bindings@.len() == 0
        &&& forall|j: int|
            0 <= j < self.index_of_id@.len() ==> #[trigger] self.index_of_id@[j].index < self.doc.nodes@.len()
    }
}

// ---- one node's type-specific lowering ----------------------------------------

/// What a node's kind-specific lowering yields: its paint entry, its
/// container, its characters and text style, and its sizing intent.
pub struct ArmView {
    pub entry: Option<PaintEntryView>,
    pub container: Option<LayoutContainerView>,
    pub text: Option<Seq<char>>,
    pub style: Option<TextStyleKey>,
    pub constraints: Option<LayoutConstraints>,
}

pub struct ArmOutcome {
    pub result: Result<ArmView, CompileErrorView>,
    pub cache: Seq<(Seq<char>, u32)>,
    pub digests: Seq<Seq<u8>>,
    pub added: Seq<Seq<char>>,
    pub dedup: GeometryDedupView,
}

/// The glyph colour of fill `f`: the colour the reader worked out with the
/// paint's opacity applied, or the authored one where it supplied none.
pub open spec fn glyph_color(n: FigmaNode, f: int) -> Color {
    if f < n.facts.fill_colors@.len() && n.facts.fill_colors@[f] is Some {
        n.facts.fill_colors@[f]->0
    } else {
        n.fills@[f].color->0
    }
}

pub open spec fn text_spec(n: FigmaNode) -> Option<Seq<char>> {
    match n.characters {
        None => None,
        Some(c) => match n.style {
            None => None,
            Some(_) => Some(c@),
        },
    }
}

/// A text node's style as the document carries it: none without
/// characters, a style, or a single solid fill.
pub open spec fn text_style_spec(n: FigmaNode) -> Option<TextStyleKey> {
    match n.characters {
        None => None,
        Some(_) => match n.style {
            None => None,
            Some(st) => match text_fill(n).0 {
                None => None,
                Some(f) => Some(
                    (
                        st.font_family@,
                        st.font_size,
                        match st.font_weight {
                            Some(w) => w,
                            None => 400u16,
                        },
                        glyph_color(n, f),
                        line_height_outcome(st.line_height_unit, st.line_height_px).0,
                        match st.letter_spacing {
                            Some(l) => l,
                            None => 0u32,
                        },
                        align_h(st.text_align_horizontal).0,
                        align_v(st.text_align_vertical).0,
                        ligatures(st.opentype_flags@).0,
                    ),
                ),
            },
        },
    }
}

/// The lowering a node's kind selects: a text node its characters, style
/// and sizing; an ellipse and a vector their paint; anything else its
/// container and paint.
pub open spec fn arm_spec(
    n: FigmaNode,
    c0: Option<LayoutConstraints>,
    path: Seq<char>,
    index: u32,
    images: Seq<IdentifiedImage>,
    cache: Seq<(Seq<char>, u32)>,
    digests: Seq<Seq<u8>>,
    policy: EmitPolicy,
    had: nat,
    dedup: GeometryDedupView,
) -> ArmOutcome {
    if n.kind@ == "TEXT"@ {
        ArmOutcome {
            result: Ok(
                ArmView {
                    entry: None,
                    container: None,
                    text: text_spec(n),
                    style: text_style_spec(n),
                    constraints: text_sizing_outcome(n.layout, c0),
                },
            ),
            cache,
            digests,
            added: text_findings(n) + text_blur_blocker(n),
            dedup,
        }
    } else if n.kind@ == "ELLIPSE"@ {
        let o = ellipse_paint_spec(n, c0, path, index, images, cache, digests, policy, had, dedup);
        ArmOutcome {
            result: match o.result {
                Ok(p) => Ok(ArmView { entry: p, container: None, text: None, style: None, constraints: c0 }),
                Err(e) => Err(e),
            },
            cache: o.cache,
            digests: o.digests,
            added: o.added,
            dedup: o.dedup,
        }
    } else if n.kind@ == "VECTOR"@ {
        let o = vector_paint_spec(n, path, index, images, cache, digests, policy, had, dedup);
        ArmOutcome {
            result: match o.result {
                Ok(p) => Ok(ArmView { entry: p, container: None, text: None, style: None, constraints: c0 }),
                Err(e) => Err(e),
            },
            cache: o.cache,
            digests: o.digests,
            added: o.added,
            dedup: o.dedup,
        }
    } else {
        let co = container_outcome(n.layout);
        let o = frame_paint_spec(n, path, index, images, cache, digests, policy, had + co.1.len(), dedup);
        ArmOutcome {
            result: match o.result {
                Ok(p) => Ok(ArmView { entry: p, container: co.0, text: None, style: None, constraints: c0 }),
                Err(e) => Err(e),
            },
            cache: o.cache,
            digests: o.digests,
            added: co.1 + o.added,
            dedup: o.dedup,
        }
    }
}

pub(crate) fn glyph_color_of(node: &FigmaNode, f: usize) -> (c: Color)
    requires
        f < node.fills@.len(),
        node.fills@[f as int].color is Some,
    ensures
        c == glyph_color(*node, f as int),
{
    if f < node.facts.fill_colors.len() {
        match node.facts.fill_colors[f] {
            Some(c) => {
                return c;
            },
            None => {},
        }
    }
    match node.fills[f].color {
        Some(c) => c,
        None => Color { r: 0, g: 0, b: 0, a: 0 },
    }
}

fn style_of(node: &FigmaNode, t: TextIntent) -> (s: TextStyle)
    requires
        node.style is Some,
        node.characters is Some,
        crate::walk::lowers_to(*node, node.style->0, t),
    ensures
        style_view(Some(s)) == text_style_spec(*node),
{
    proof {
        crate::walk::lemma_last_shown(node.fills@);
    }
    let color = glyph_color_of(node, t.fill);
    TextStyle {
        family: t.family,
        size: t.size,
        weight: t.weight,
        color,
        line_height_px: t.line_height_px,
        letter_spacing: t.letter_spacing,
        text_align: t.text_align,
        text_align_v: t.text_align_v,
        ligatures_off: t.ligatures_off,
    }
}

/// Runs the lowering `n`'s kind selects, adding what refuses it to
/// `blockers`.
#[verifier::rlimit(40)]
fn arm_of(
    node: &FigmaNode,
    c0: Option<LayoutConstraints>,
    path: &str,
    policy: EmitPolicy,
    images: &Vec<IdentifiedImage>,
    image_of: &mut Vec<(String, u32)>,
    doc: &mut Document,
    blockers: &mut Vec<String>,
    dedup: &mut GeometryDedup,
) -> (r: Result<
    (Option<PaintEntry>, Option<LayoutContainer>, Option<String>, Option<TextStyle>, Option<LayoutConstraints>),
    CompileError,
>)
    requires
        old(doc).assets@.len() + node.fills@.len() < u32::MAX,
        old(dedup).wf(),
        old(dedup)@.keys.len() < u32::MAX,
    ensures
        final(dedup).wf(),
        crate::paints::same_but_assets(*final(doc), *old(doc)),
        cache_in_pool(cache_view(old(image_of)@), old(doc).assets@.len()) ==> cache_in_pool(
            cache_view(final(image_of)@),
            final(doc).assets@.len(),
        ),
        from_images(old(doc).assets@, images@) ==> from_images(final(doc).assets@, images@),
        ({
            let o = arm_spec(
                *node,
                c0,
                path@,
                #[verifier::truncate] (old(doc).nodes@.len() as u32),
                images@,
                cache_view(old(image_of)@),
                digests_of(old(doc).assets@),
                policy,
                old(blockers)@.len(),
                old(dedup)@,
            );
            &&& cache_view(final(image_of)@) == o.cache
            &&& digests_of(final(doc).assets@) == o.digests
            &&& final(dedup)@ == o.dedup
            &&& match o.result {
                Err(e) => r matches Err(x) && x@ == e,
                Ok(a) => r matches Ok(q) && entry_view(q.0) == a.entry && container_view(q.1) == a.container
                    && opt_chars(q.2) == a.text && style_view(q.3) == a.style && q.4 == a.constraints
                    && strings_view(final(blockers)@) == strings_view(old(blockers)@) + o.added,
            }
        }),
{
    let ghost b0 = strings_view(blockers@);
    if crate::text::str_eq(node.kind.as_str(), "TEXT") {
        let (t, intent) = text_of(node, blockers);
        blur_on_text(node, blockers);
        let c = text_sizing(&node.layout, c0);
        let style = match intent {
            Some(i) => Some(style_of(node, i)),
            None => None,
        };
        proof {
            assert(b0 + (text_findings(*node) + text_blur_blocker(*node)) =~= b0 + text_findings(*node)
                + text_blur_blocker(*node));
        }
        return Ok((None, None, t, style, c));
    }
    if crate::text::str_eq(node.kind.as_str(), "ELLIPSE") {
        return match ellipse_paint(node, c0, path, policy, images, image_of, doc, blockers, Ghost(dedup@)) {
            Ok(p) => Ok((p, None, None, None, c0)),
            Err(e) => Err(e),
        };
    }
    if crate::text::str_eq(node.kind.as_str(), "VECTOR") {
        return match vector_paint(node, path, policy, images, image_of, doc, blockers, dedup) {
            Ok(p) => Ok((p, None, None, None, c0)),
            Err(e) => Err(e),
        };
    }
    let container = container_of(&node.layout, blockers);
    let ghost b1 = strings_view(blockers@);
    match frame_paint(node, path, policy, images, image_of, doc, blockers, Ghost(dedup@)) {
        Ok(p) => {
            proof {
                let co = container_outcome(node.layout);
                assert(b1.len() == old(blockers)@.len() + co.1.len());
                let o = frame_paint_spec(
                    *node,
                    path@,
                    #[verifier::truncate] (old(doc).nodes@.len() as u32),
                    images@,
                    cache_view(old(image_of)@),
                    digests_of(old(doc).assets@),
                    policy,
                    b1.len(),
                    dedup@,
                );
                assert(b0 + (co.1 + o.added) =~= b0 + co.1 + o.added);
            }
            Ok((p, container, None, None, c0))
        },
        Err(e) => Err(e),
    }
}

// ---- one visit ----------------------------------------------------------------

/// Whether lowering `n` keeps every index the walk hands out in range.
pub open spec fn fits(st: WalkView, n: FigmaNode) -> bool {
    &&& st.nodes.len() + 1 < u32::MAX
    &&& st.digests.len() + n.fills@.len() < u32::MAX
    &&& st.dedup.keys.len() + 1 < u32::MAX
}

/// The refusal of a file too large for the document's indices.
pub open spec fn too_large(path: Seq<char>) -> CompileErrorView {
    CompileErrorView::Unsupported { path, what: "a document with more nodes, images or shapes than its indices can name"@ }
}

/// How many pool entries a truncation to `before` keeps of `after`.
pub open spec fn kept_len(before: int, after: int) -> int {
    if before <= after {
        before
    } else {
        after
    }
}

/// The shapes below `len`, and the buckets that name them.
pub open spec fn dedup_below(d: GeometryDedupView, len: int) -> GeometryDedupView {
    GeometryDedupView {
        seen: keep_below(d.seen, len),
        keys: if len < d.keys.len() {
            d.keys.take(len)
        } else {
            d.keys
        },
    }
}

/// The constructs of the node at `index`, each to be triaged at `position`
/// among the findings.
pub open spec fn triaged_at(cs: Seq<Construct>, position: int, index: u32, path: Seq<char>) -> Seq<TriagedView> {
    cs.map_values(|c: Construct| TriagedView { position, index, path, construct: c })
}

/// The paint opacity of a node's one shown fill, which the lowering folds
/// into its colour; one when it shows none or several.
pub open spec fn fill_opacity(n: FigmaNode) -> u32 {
    if shown_count(n.fills@) == 1 {
        match n.fills@[last_shown(n.fills@)].opacity {
            Some(o) => o,
            None => ONE_BITS,
        }
    } else {
        ONE_BITS
    }
}

pub open spec fn fill_kind(f: FillSpecView) -> FillKind {
    match f {
        FillSpecView::Solid { color, opacity: _ } => FillKind::Solid(color),
        FillSpecView::Gradient { .. } => FillKind::Gradient,
        FillSpecView::Image { image, .. } => FillKind::Image(image),
    }
}

/// The style the document node carries of a paint entry: its bottom fill,
/// its clip intent and its baked shape.
pub open spec fn entry_paint(e: Option<PaintEntryView>) -> Option<Paint> {
    match e {
        None => None,
        Some(p) => Some(
            Paint {
                fill: match p.fill {
                    Some(f) => Some(fill_kind(f)),
                    None => None,
                },
                clip: p.clip,
                shape_field: p.shape_field,
            },
        ),
    }
}

/// The slash-path segment of the node at `p` among `nodes`: its name, with
/// its Figma id (or its position, for a node without one) appended when a
/// sibling shares the name.
pub open spec fn sibling_segment(nodes: Seq<FigmaNode>, p: int) -> Seq<char> {
    let c = nodes[p];
    if count_named(nodes.map_values(|k: FigmaNode| k.name@), c.name@) > 1 {
        match c.id {
            Some(id) => c.name@ + " ("@ + id@ + ")"@,
            None => c.name@ + " (#"@ + decimal(p as nat) + ")"@,
        }
    } else {
        c.name@
    }
}

/// The visit of `v`'s child at position `p`, once `v` lowered at `index`
/// with `container` (its gap lowered, leaving `margin`) and `constraints`.
pub open spec fn child_visit(
    v: VisitView,
    index: u32,
    container: Option<LayoutContainerView>,
    margin: u32,
    constraints: Option<LayoutConstraints>,
    p: int,
) -> VisitView {
    VisitView {
        node: v.node.children@[p],
        parent: Some(index),
        path: v.path + "/"@ + sibling_segment(v.node.children@, p),
        flow: flow_below(container, margin, constraints, p),
    }
}

/// `v`'s children's visits, last child first, so that popping them takes
/// them in document order.
pub open spec fn children_visits(
    v: VisitView,
    index: u32,
    container: Option<LayoutContainerView>,
    margin: u32,
    constraints: Option<LayoutConstraints>,
) -> Seq<VisitView> {
    let len = v.node.children@.len() as int;
    Seq::new(len as nat, |j: int| child_visit(v, index, container, margin, constraints, len - 1 - j))
}

/// A node's own extent: its `size` when it is turned, else its box's.
pub open spec fn own_extent(n: FigmaNode) -> (u32, u32) {
    if rotated(n) && n.size is Some {
        n.size->0
    } else {
        (n.absolute_bounding_box->0.width, n.absolute_bounding_box->0.height)
    }
}

/// A lowered node's box: at the origin under a flex parent and as a root,
/// else at its offset in its parent; each axis's extent where that axis is
/// fixed, zero where the solver sizes it.
pub open spec fn placed_box(v: VisitView, constraints: Option<LayoutConstraints>) -> Box2D {
    let n = v.node;
    let s = match constraints {
        Some(c) => c,
        None => default_constraints(),
    };
    let at: (u32, u32) = if v.flow is Some || v.parent is None {
        (0u32, 0u32)
    } else {
        match n.facts.offset_in_parent {
            Some(o) => o,
            None => (0u32, 0u32),
        }
    };
    Box2D {
        x: at.0,
        y: at.1,
        width: if s.sizing_h == AxisSizing::Fixed {
            own_extent(n).0
        } else {
            0
        },
        height: if s.sizing_v == AxisSizing::Fixed {
            own_extent(n).1
        } else {
            0
        },
    }
}

pub open spec fn gap_lowered(c: Option<LayoutContainerView>) -> (Option<LayoutContainerView>, u32) {
    match c {
        Some(k) => (Some(lowered_gap(k).0), lowered_gap(k).1),
        None => (None, 0),
    }
}

/// The document node `v` lowers to.
pub open spec fn lowered_node(v: VisitView, mask: bool, a: ArmView) -> NodeView {
    NodeView {
        name: Some(v.node.name@),
        parent: v.parent,
        box2d: placed_box(v, a.constraints),
        paint: entry_paint(a.entry),
        container: gap_lowered(a.container).0,
        constraints: a.constraints,
        text: a.text,
        text_style: a.style,
        opacity: v.node.facts.opacity,
        mask,
        visible: v.node.facts.visible != Some(false),
    }
}

/// The walk once a node's kind-specific lowering has run: its pool, cache
/// and shapes as that lowering left them.
pub open spec fn after_arm(st: WalkView, arm: ArmOutcome) -> WalkView {
    WalkView { digests: arm.digests, cache: arm.cache, dedup: arm.dedup, ..st }
}

/// The walk after skipping the node at `index` for `blockers`: the pool
/// truncated back to `before` entries and the cache with it, the shapes
/// back to `shapes`, each blocker an omission and the lost subtree
/// counted, and the node's constructs triaged after those findings.
pub open spec fn skipped(
    mid: WalkView,
    before: int,
    shapes: int,
    blockers: Seq<Seq<char>>,
    constructs: Seq<Construct>,
    index: u32,
    path: Seq<char>,
    n: FigmaNode,
    policy: EmitPolicy,
) -> WalkView {
    let kept = kept_len(before, mid.digests.len() as int);
    let diagnostics = mid.diagnostics + blockers.map_values(|w: Seq<char>| omission(index, path, w, policy))
        + dropped_findings(index, path, n, policy);
    WalkView {
        digests: mid.digests.take(kept),
        cache: entries_below(mid.cache, kept),
        dedup: dedup_below(mid.dedup, shapes),
        diagnostics,
        triaged: mid.triaged + triaged_at(constructs, diagnostics.len() as int, index, path),
        ..mid
    }
}

/// The walk after `v`'s node lands at `index`: the node and its entry
/// pushed, its Figma id recorded with its fill opacity, its constructs
/// triaged.
pub open spec fn landed(mid: WalkView, v: VisitView, index: u32, mask: bool, a: ArmView, constructs: Seq<Construct>) -> WalkView {
    WalkView {
        nodes: mid.nodes.push(lowered_node(v, mask, a)),
        entries: mid.entries.push(a.entry),
        triaged: mid.triaged + triaged_at(constructs, mid.diagnostics.len() as int, index, v.path),
        lowered: match v.node.id {
            Some(id) => record_landing(
                mid.lowered,
                LoweredNodeView { node_id: id@, index, path: v.path, fill_opacity: fill_opacity(v.node) },
            ),
            None => mid.lowered,
        },
        ..mid
    }
}

/// The landings after `l`: it replaces the landing recorded under its
/// Figma id, which then names the latest node lowered from that id, or
/// joins the list when none is.
pub open spec fn record_landing(lowered: Seq<LoweredNodeView>, l: LoweredNodeView) -> Seq<LoweredNodeView> {
    match first_match(lowered, lowered_from(l.node_id)) {
        Some(j) => lowered.update(j, l),
        None => lowered.push(l),
    }
}

/// A node of a kind with a lowering: every reason it cannot lower is
/// collected (its structure and sizing, its kind's own lowering, a shadow
/// nothing draws, the effects triage has no construct for); with any, it is
/// skipped, its own pool entries and baked shapes withdrawn, each reason
/// an omission and its lost subtree counted; without, it lowers, its
/// Figma id is recorded, and its children are scheduled. Its triaged
/// constructs are kept either way.
pub open spec fn lowered_step(
    st: WalkView,
    v: VisitView,
    stack: Seq<VisitView>,
    images: Seq<IdentifiedImage>,
    policy: EmitPolicy,
) -> (WalkView, Seq<VisitView>, Result<(), CompileErrorView>) {
    let n = v.node;
    let index = st.nodes.len() as u32;
    let intent = intent_outcome(n, v.flow);
    let arm = arm_spec(n, intent.1, v.path, index, images, st.cache, st.digests, policy, intent.2.len(), st.dedup);
    match arm.result {
        Err(e) => (after_arm(st, arm), stack, Err(e)),
        Ok(a) => {
            let blockers = intent.2 + arm.added + shadow_blocker(n) + constructs_spec(&n).1;
            let constructs = constructs_spec(&n).0;
            let mid = after_arm(st, arm);
            if blockers.len() > 0 {
                (
                    skipped(mid, st.digests.len() as int, st.dedup.keys.len() as int, blockers, constructs, index, v.path, n, policy),
                    stack,
                    Ok(()),
                )
            } else {
                let (container, margin) = gap_lowered(a.container);
                (
                    landed(mid, v, index, intent.0, a, constructs),
                    stack + children_visits(v, index, container, margin, a.constraints),
                    Ok(()),
                )
            }
        },
    }
}

/// What visiting `v` does to the walk and the pending visits: a component
/// definition is skipped whole; a kind with no lowering is refused by its
/// type, its lost subtree counted; any other lowers as `lowered_step` says,
/// unless the document has outgrown its indices.
pub open spec fn visit_step(
    st: WalkView,
    v: VisitView,
    stack: Seq<VisitView>,
    images: Seq<IdentifiedImage>,
    policy: EmitPolicy,
) -> (WalkView, Seq<VisitView>, Result<(), CompileErrorView>) {
    let n = v.node;
    let index = st.nodes.len() as u32;
    match kind_verdict(n.kind@) {
        KindVerdict::Definition => (st, stack, Ok(())),
        KindVerdict::Refused => (
            WalkView {
                diagnostics: st.diagnostics.push(omission(index, v.path, "node type "@ + n.kind@, policy))
                    + dropped_findings(index, v.path, n, policy),
                ..st
            },
            stack,
            Ok(()),
        ),
        KindVerdict::Lowered => if fits(st, n) {
            lowered_step(st, v, stack, images, policy)
        } else {
            (st, stack, Err(too_large(v.path)))
        },
    }
}

// ---- the visit, executed -------------------------------------------------------

fn paint_of_entry(e: &Option<PaintEntry>) -> (p: Option<Paint>)
    ensures
        p == entry_paint(entry_view(*e)),
{
    match e {
        None => None,
        Some(entry) => {
            let fill = match &entry.fill {
                None => None,
                Some(FillSpec::Solid { color, opacity: _ }) => Some(FillKind::Solid(*color)),
                Some(FillSpec::Gradient { .. }) => Some(FillKind::Gradient),
                Some(FillSpec::Image { image, .. }) => Some(FillKind::Image(*image)),
            };
            Some(Paint { fill, clip: entry.clip, shape_field: entry.shape_field })
        },
    }
}

fn fill_opacity_of(node: &FigmaNode) -> (o: u32)
    ensures
        o == fill_opacity(*node),
{
    match single_visible_paint(&node.fills) {
        OnePaint::One(i) => match node.fills[i].opacity {
            Some(o) => o,
            None => ONE_BITS,
        },
        _ => ONE_BITS,
    }
}

fn record_constructs(triaged: &mut Vec<Triaged>, constructs: &Vec<Construct>, position: usize, index: u32, path: &str)
    ensures
        final(triaged)@.map_values(|t: Triaged| t@) == old(triaged)@.map_values(|t: Triaged| t@) + triaged_at(
            constructs@,
            position as int,
            index,
            path@,
        ),
{
    let ghost t0 = triaged@.map_values(|t: Triaged| t@);
    let mut i: usize = 0;
    while i < constructs.len()
        invariant
            i <= constructs@.len(),
            triaged@.map_values(|t: Triaged| t@) == t0 + triaged_at(constructs@.take(i as int), position as int, index, path@),
        decreases constructs@.len() - i,
    {
        let ghost before = triaged@;
        triaged.push(Triaged { position, at: NodePath::new(index, string_of(path)), construct: constructs[i] });
        proof {
            assert(constructs@.take(i + 1) =~= constructs@.take(i as int).push(constructs@[i as int]));
            assert(triaged@.map_values(|t: Triaged| t@) =~= before.map_values(|t: Triaged| t@).push(triaged@.last()@));
            assert(triaged_at(constructs@.take(i + 1), position as int, index, path@) =~= triaged_at(
                constructs@.take(i as int),
                position as int,
                index,
                path@,
            ).push(triaged@.last()@));
        }
        i = i + 1;
    }
    proof {
        assert(constructs@.take(i as int) =~= constructs@);
    }
}

proof fn lemma_sibling_segment(nodes: Seq<FigmaNode>, refs: Seq<&FigmaNode>, p: int)
    requires
        refs.len() == nodes.len(),
        forall|j: int| 0 <= j < refs.len() ==> *refs[j] == nodes[j],
        0 <= p < refs.len(),
    ensures
        segment(refs, p) == sibling_segment(nodes, p),
{
    assert(names_of(refs) =~= nodes.map_values(|k: FigmaNode| k.name@));
}

/// Schedules `node`'s children, last first, under `path`, at `index`, in
/// the flex context `container` (its gap lowered, leaving `margin`) and
/// `constraints` put them in.
fn push_children<'a>(
    node: &'a FigmaNode,
    index: u32,
    path: &str,
    container: &Option<LayoutContainer>,
    margin: u32,
    constraints: &Option<LayoutConstraints>,
    stack: &mut Vec<Visit<'a>>,
    Ghost(v): Ghost<VisitView>,
)
    requires
        v.node == *node,
        v.path == path@,
    ensures
        visits_view(final(stack)@) == visits_view(old(stack)@) + children_visits(
            v,
            index,
            container_view(*container),
            margin,
            *constraints,
        ),
{
    let mut refs: Vec<&'a FigmaNode> = Vec::new();
    let mut i: usize = 0;
    while i < node.children.len()
        invariant
            i <= node.children@.len(),
            refs@.len() == i,
            forall|j: int| 0 <= j < i ==> *refs@[j] == node.children@[j],
        decreases node.children@.len() - i,
    {
        refs.push(&node.children[i]);
        i = i + 1;
    }
    let segments = disambiguated_segments(refs.as_slice());
    let len = node.children.len();
    let ghost all = children_visits(v, index, container_view(*container), margin, *constraints);
    let ghost s0 = visits_view(stack@);
    let mut k = len;
    proof {
        assert(s0 + all.take(0) =~= s0);
    }
    while k > 0
        invariant
            k <= len,
            len == node.children@.len(),
            all.len() == len,
            all == children_visits(v, index, container_view(*container), margin, *constraints),
            v.node == *node,
            v.path == path@,
            segments@.len() == len,
            refs@.len() == len,
            forall|j: int| 0 <= j < len ==> *refs@[j] == node.children@[j],
            forall|p: int| 0 <= p < len ==> (#[trigger] segments@[p])@ == segment(refs@, p),
            visits_view(stack@) == s0 + all.take(len - k),
        decreases k,
    {
        k = k - 1;
        let mut p = string_of(path);
        push_str(&mut p, "/");
        push_str(&mut p, segments[k].as_str());
        let flow = child_flow(container, margin, constraints, k);
        let ghost before = stack@;
        let visit = Visit { node: &node.children[k], parent: Some(index), path: p, flow };
        stack.push(visit);
        proof {
            lemma_sibling_segment(node.children@, refs@, k as int);
            assert(visit@ == child_visit(v, index, container_view(*container), margin, *constraints, k as int));
            assert(all[len - 1 - k] == visit@);
            assert(all.take(len - k) =~= all.take(len - 1 - k).push(all[len - 1 - k]));
            assert(visits_view(stack@) =~= visits_view(before).push(visit@));
        }
    }
    proof {
        assert(all.take(len as int) =~= all);
    }
}

impl<'a> Walk<'a> {
    /// Skips the node at `index` for `blockers` (see `skipped`).
    fn skip_node(
        &mut self,
        node: &FigmaNode,
        path: &str,
        index: u32,
        blockers: Vec<String>,
        constructs: &Vec<Construct>,
        before: usize,
        shapes: usize,
    )
        requires
            old(self).wf(),
            index == #[verifier::truncate] (old(self).doc.nodes@.len() as u32),
            forest_size(node.children@) <= usize::MAX,
        ensures
            final(self).wf(),
            final(self).images == old(self).images,
            final(self).policy == old(self).policy,
            final(self)@ == skipped(
                old(self)@,
                before as int,
                shapes as int,
                strings_view(blockers@),
                constructs@,
                index,
                path@,
                *node,
                old(self).policy,
            ),
    {
        let ghost mid = self@;
        let kept = if before <= self.doc.assets.len() {
            before
        } else {
            self.doc.assets.len()
        };
        let ghost ws = blockers@;
        skip_blocked(&mut self.doc, &mut self.image_of, kept, &mut self.diagnostics, path, node, blockers, self.policy);
        self.dedup.truncate(shapes);
        let position = self.diagnostics.len();
        record_constructs(&mut self.triaged, constructs, position, index, path);
        proof {
            let bs = strings_view(ws);
            assert(ws.map_values(|w: String| omission(index, path@, w@, self.policy)) =~= bs.map_values(
                |w: Seq<char>| omission(index, path@, w, self.policy),
            ));
            let diagnostics = mid.diagnostics + bs.map_values(|w: Seq<char>| omission(index, path@, w, self.policy))
                + dropped_findings(index, path@, *node, self.policy);
            assert(self@.diagnostics =~= diagnostics);
            assert(self@.digests =~= mid.digests.take(kept as int));
            assert(self@.nodes =~= mid.nodes);
            assert(self@.entries =~= mid.entries);
            assert(self@.lowered =~= mid.lowered);
            assert(self@.dedup =~= dedup_below(mid.dedup, shapes as int));
            assert(self@ =~= skipped(mid, before as int, shapes as int, bs, constructs@, index, path@, *node, self.policy));
        }
    }

    /// Lands `v`'s node at `index` (see `landed`) and schedules its
    /// children.
    #[verifier::rlimit(40)]
    fn land_node(
        &mut self,
        v: &Visit<'a>,
        index: u32,
        mask: bool,
        lowered: (Option<PaintEntry>, Option<LayoutContainer>, Option<String>, Option<TextStyle>, Option<LayoutConstraints>),
        constructs: &Vec<Construct>,
        stack: &mut Vec<Visit<'a>>,
        Ghost(a): Ghost<ArmView>,
    )
        requires
            old(self).wf(),
            index == old(self).doc.nodes@.len(),
            old(self).doc.nodes@.len() + 1 < u32::MAX,
            v.node.absolute_bounding_box is Some,
            entry_view(lowered.0) == a.entry,
            container_view(lowered.1) == a.container,
            opt_chars(lowered.2) == a.text,
            style_view(lowered.3) == a.style,
            lowered.4 == a.constraints,
        ensures
            final(self).wf(),
            final(self).images == old(self).images,
            final(self).policy == old(self).policy,
            final(self)@ == landed(old(self)@, v@, index, mask, a, constructs@),
            visits_view(final(stack)@) == visits_view(old(stack)@) + children_visits(
                v@,
                index,
                gap_lowered(a.container).0,
                gap_lowered(a.container).1,
                a.constraints,
            ),
    {
        let ghost mid = self@;
        let node = v.node;
        let (entry, container, text, style, constraints) = lowered;
        let bbox = node.absolute_bounding_box.unwrap();
        let turned = match node.rotation {
            Some(t) => t != 0 && t != 0x8000_0000,
            None => false,
        };
        let (own_w, own_h) = match node.size {
            Some(s) => if turned {
                s
            } else {
                (bbox.width, bbox.height)
            },
            None => (bbox.width, bbox.height),
        };
        let (x, y) = if v.flow.is_some() || v.parent.is_none() {
            (0u32, 0u32)
        } else {
            match node.facts.offset_in_parent {
                Some(at) => at,
                None => (0u32, 0u32),
            }
        };
        let sizing = match constraints {
            Some(k) => k,
            None => LayoutConstraints::default(),
        };
        let width = if sizing.sizing_h == AxisSizing::Fixed {
            own_w
        } else {
            0
        };
        let height = if sizing.sizing_v == AxisSizing::Fixed {
            own_h
        } else {
            0
        };
        let (container, margin) = match container {
            Some(c) => {
                let (c2, m) = lower_gap(c);
                (Some(c2), m)
            },
            None => (None, 0u32),
        };
        push_children(node, index, v.path.as_str(), &container, margin, &constraints, stack, Ghost(v@));
        let paint = paint_of_entry(&entry);
        let out = Node {
            name: Some(string_of(node.name.as_str())),
            parent: v.parent,
            box2d: Box2D { x, y, width, height },
            paint,
            container,
            constraints,
            text,
            text_style: style,
            opacity: node.facts.opacity,
            mask,
            visible: match node.facts.visible {
                Some(false) => false,
                _ => true,
            },
        };
        proof {
            assert(node_view(out) == lowered_node(v@, mask, a));
        }
        self.doc.push(out);
        self.entries.push(entry);
        let ghost l0 = self.index_of_id@;
        match &node.id {
            Some(id) => {
                let fo = fill_opacity_of(node);
                let landing = LoweredNode {
                    node_id: string_of(id.as_str()),
                    index,
                    path: string_of(v.path.as_str()),
                    fill_opacity: fo,
                };
                match find_lowered(&self.index_of_id, id) {
                    Some(j) => {
                        self.index_of_id.set(j, landing);
                        proof {
                            assert(lowered_view(self.index_of_id@) =~= lowered_view(l0).update(j as int, landing@));
                        }
                    },
                    None => {
                        self.index_of_id.push(landing);
                        proof {
                            assert(lowered_view(self.index_of_id@) =~= lowered_view(l0).push(landing@));
                        }
                    },
                }
            },
            None => {},
        }
        let position = self.diagnostics.len();
        record_constructs(&mut self.triaged, constructs, position, index, v.path.as_str());
        proof {
            assert(self@.nodes =~= mid.nodes.push(lowered_node(v@, mask, a)));
            assert(self@.entries =~= mid.entries.push(a.entry));
            assert forall|j: int| 0 <= j < self.index_of_id@.len() implies #[trigger] self.index_of_id@[j].index
                < self.doc.nodes@.len() by {
                if j < l0.len() && self.index_of_id@[j].index != index {
                    assert(self.index_of_id@[j] == l0[j]);
                }
            }
            assert(self@ =~= landed(mid, v@, index, mask, a, constructs@));
        }
    }
}

impl<'a> Walk<'a> {
    #[verifier::rlimit(60)]
    fn lower_node(&mut self, v: Visit<'a>, stack: &mut Vec<Visit<'a>>) -> (r: Result<(), CompileError>)
        requires
            old(self).wf(),
            forest_size(v.node.children@) <= usize::MAX,
        ensures
            final(self).wf(),
            final(self).images == old(self).images,
            final(self).policy == old(self).policy,
            ({
                let step = if fits(old(self)@, *v.node) {
                    lowered_step(old(self)@, v@, visits_view(old(stack)@), old(self).images@, old(self).policy)
                } else {
                    (old(self)@, visits_view(old(stack)@), Err(too_large(v.path@)))
                };
                &&& final(self)@ == step.0
                &&& visits_view(final(stack)@) == step.1
                &&& match step.2 {
                    Ok(_) => r is Ok,
                    Err(e) => r matches Err(x) && x@ == e,
                }
            }),
    {
        let node = v.node;
        if !(self.doc.nodes.len() < 0xffff_fffe && self.doc.assets.len() < 0xffff_ffff && node.fills.len() < 0xffff_ffff
            - self.doc.assets.len() && self.dedup.len() < 0xffff_fffe) {
            let what = string_of("a document with more nodes, images or shapes than its indices can name");
            return Err(CompileError::Unsupported { path: v.path, what });
        }
        let ghost st = self@;
        let index = self.doc.nodes.len() as u32;
        let mut blockers: Vec<String> = Vec::new();
        let flow_ref: Option<&Flow> = match &v.flow {
            Some(f) => Some(f),
            None => None,
        };
        let (mask, constraints0) = node_intent(node, flow_ref, &mut blockers);
        let assets_before = self.doc.assets.len();
        let shapes_before = self.dedup.len();
        let ghost intent = intent_outcome(*node, v.flow);
        proof {
            assert(flow_value(flow_ref) == v.flow);
        }
        let arm = arm_of(
            node,
            constraints0,
            v.path.as_str(),
            self.policy,
            self.images,
            &mut self.image_of,
            &mut self.doc,
            &mut blockers,
            &mut self.dedup,
        );
        let ghost o = arm_spec(
            *node,
            intent.1,
            v.path@,
            index,
            self.images@,
            st.cache,
            st.digests,
            self.policy,
            intent.2.len(),
            st.dedup,
        );
        proof {
            assert(self@ =~= after_arm(st, o));
        }
        let lowered = match arm {
            Ok(a) => a,
            Err(e) => {
                return Err(e);
            },
        };
        let ghost a = o.result->Ok_0;
        unlowered_shadow(node, &mut blockers);
        let (constructs, effect_blockers) = constructs_of(node);
        let mut eb = effect_blockers;
        let ghost b3 = blockers@;
        blockers.append(&mut eb);
        let ghost all = intent.2 + o.added + shadow_blocker(*node) + constructs_spec(node).1;
        proof {
            assert(strings_view(blockers@) =~= strings_view(b3) + strings_view(effect_blockers@));
            assert(strings_view(blockers@) =~= all);
        }
        if blockers.len() > 0 {
            self.skip_node(node, v.path.as_str(), index, blockers, &constructs, assets_before, shapes_before);
            return Ok(());
        }
        proof {
            assert(crate::walk::box_blocker(*node).len() == 0);
        }
        self.land_node(&v, index, mask, lowered, &constructs, stack, Ghost(a));
        Ok(())
    }

    /// Visits one node: lowers it, or records why it cannot be lowered,
    /// and schedules its children. An error is the caller's contract
    /// failing over the images, or a document outgrowing its indices; after
    /// one the walk is abandoned.
    pub fn visit(&mut self, v: Visit<'a>, stack: &mut Vec<Visit<'a>>) -> (r: Result<(), CompileError>)
        requires
            old(self).wf(),
            forest_size(v.node.children@) <= usize::MAX,
        ensures
            final(self).wf(),
            final(self).images == old(self).images,
            final(self).policy == old(self).policy,
            ({
                let step = visit_step(old(self)@, v@, visits_view(old(stack)@), old(self).images@, old(self).policy);
                &&& final(self)@ == step.0
                &&& visits_view(final(stack)@) == step.1
                &&& match step.2 {
                    Ok(_) => r is Ok,
                    Err(e) => r matches Err(x) && x@ == e,
                }
            }),
    {
        let index = #[verifier::truncate] (self.doc.nodes.len() as u32);
        match node_kind(v.node.kind.as_str()) {
            KindVerdict::Definition => Ok(()),
            KindVerdict::Refused => {
                let ghost d0 = self@.diagnostics;
                let what = kind_refusal(v.node.kind.as_str());
                let d = unsupported_at(index, v.path.as_str(), what.as_str(), self.policy);
                self.diagnostics.push(d);
                let ghost d1 = self@.diagnostics;
                match refused_subtree(index, v.path.as_str(), v.node, self.policy) {
                    Some(d2) => {
                        self.diagnostics.push(d2);
                    },
                    None => {},
                }
                proof {
                    assert(d1 =~= d0.push(d@));
                    assert(self@.diagnostics =~= d1 + dropped_findings(index, v.path@, *v.node, self.policy));
                }
                Ok(())
            },
            KindVerdict::Lowered => self.lower_node(v, stack),
        }
    }
}

// ---- the whole walk -----------------------------------------------------------

/// How many nodes the pending visits hold, subtrees included.
pub open spec fn pending(s: Seq<VisitView>) -> nat {
    forest_size(s.map_values(|v: VisitView| v.node))
}

pub open spec fn reversed(ns: Seq<FigmaNode>) -> Seq<FigmaNode> {
    Seq::new(ns.len(), |j: int| ns[ns.len() - 1 - j])
}

/// The walk from `st` over the pending visits `stack`, the last popped
/// first, until none is left or a visit fails; `fuel` bounds the visits.
pub open spec fn walk_run(
    st: WalkView,
    stack: Seq<VisitView>,
    images: Seq<IdentifiedImage>,
    policy: EmitPolicy,
    fuel: nat,
) -> Result<WalkView, CompileErrorView>
    decreases fuel,
{
    if stack.len() == 0 || fuel == 0 {
        Ok(st)
    } else {
        let (w, s, r) = visit_step(st, stack.last(), stack.drop_last(), images, policy);
        match r {
            Err(e) => Err(e),
            Ok(_) => walk_run(w, s, images, policy, (fuel - 1) as nat),
        }
    }
}

/// The roots' visits, last first, each at `/` and its segment among the
/// roots.
pub open spec fn root_visits(roots: Seq<FigmaNode>) -> Seq<VisitView> {
    Seq::new(
        roots.len(),
        |j: int|
            VisitView {
                node: roots[roots.len() - 1 - j],
                parent: None,
                path: "/"@ + sibling_segment(roots, roots.len() - 1 - j),
                flow: None,
            },
    )
}

pub open spec fn empty_walk() -> WalkView {
    WalkView {
        nodes: seq![],
        entries: seq![],
        digests: seq![],
        cache: seq![],
        diagnostics: seq![],
        triaged: seq![],
        lowered: seq![],
        dedup: GeometryDedupView { seen: seq![], keys: seq![] },
    }
}

/// The walk over a file: every node under every `CANVAS` is a root, and
/// the roots are visited in order, each subtree depth first before the next
/// root; a file with no root is refused.
pub open spec fn lowering_walk(file: FigmaNode, images: Seq<IdentifiedImage>, policy: EmitPolicy) -> Result<
    WalkView,
    CompileErrorView,
> {
    let roots = canvas_children(file.children@);
    if roots.len() == 0 {
        Err(
            CompileErrorView::Unsupported {
                path: "/"@,
                what: "a document with no top-level node under any CANVAS"@,
            },
        )
    } else {
        walk_run(empty_walk(), root_visits(roots), images, policy, pending(root_visits(roots)))
    }
}

proof fn lemma_reversed_size(ns: Seq<FigmaNode>)
    ensures
        forest_size(reversed(ns)) == forest_size(ns),
    decreases ns.len(),
{
    if ns.len() > 0 {
        lemma_reversed_size(ns.drop_last());
        let one = seq![ns.last()];
        assert(reversed(ns) =~= one + reversed(ns.drop_last()));
        lemma_forest_append(one, reversed(ns.drop_last()));
        assert(one.drop_last() =~= Seq::<FigmaNode>::empty());
        assert(forest_size(one.drop_last()) == 0);
        assert(one.last() == ns.last());
        assert(forest_size(one) == subtree_size(ns.last()));
    } else {
        assert(reversed(ns) =~= ns);
    }
}

proof fn lemma_pending_push(s: Seq<VisitView>, v: VisitView)
    ensures
        pending(s.push(v)) == pending(s) + subtree_size(v.node),
{
    let ns = s.push(v).map_values(|x: VisitView| x.node);
    assert(ns.drop_last() =~= s.map_values(|x: VisitView| x.node));
}

proof fn lemma_pending_children(
    stack: Seq<VisitView>,
    v: VisitView,
    index: u32,
    container: Option<LayoutContainerView>,
    margin: u32,
    constraints: Option<LayoutConstraints>,
)
    ensures
        pending(stack + children_visits(v, index, container, margin, constraints)) == pending(stack)
            + forest_size(v.node.children@),
{
    let cv = children_visits(v, index, container, margin, constraints);
    assert((stack + cv).map_values(|x: VisitView| x.node) =~= stack.map_values(|x: VisitView| x.node) + reversed(
        v.node.children@,
    ));
    lemma_forest_append(stack.map_values(|x: VisitView| x.node), reversed(v.node.children@));
    lemma_reversed_size(v.node.children@);
}

#[verifier::rlimit(40)]
proof fn lemma_step_shrinks(
    st: WalkView,
    v: VisitView,
    stack: Seq<VisitView>,
    images: Seq<IdentifiedImage>,
    policy: EmitPolicy,
)
    ensures
        visit_step(st, v, stack, images, policy).2 is Ok ==> pending(visit_step(st, v, stack, images, policy).1)
            < pending(stack) + subtree_size(v.node),
{
    let n = v.node;
    let index = st.nodes.len() as u32;
    let intent = intent_outcome(n, v.flow);
    let arm = arm_spec(n, intent.1, v.path, index, images, st.cache, st.digests, policy, intent.2.len(), st.dedup);
    match arm.result {
        Ok(a) => {
            let (container, margin) = gap_lowered(a.container);
            lemma_pending_children(stack, v, index, container, margin, a.constraints);
        },
        Err(_) => {},
    }
}

proof fn lemma_pending_positive(s: Seq<VisitView>)
    requires
        s.len() > 0,
    ensures
        pending(s) == pending(s.drop_last()) + subtree_size(s.last().node),
        pending(s) >= 1,
{
    lemma_pending_push(s.drop_last(), s.last());
    assert(s.drop_last().push(s.last()) =~= s);
}

/// Any fuel at least the pending node count runs the walk to its end.
proof fn lemma_fuel(
    st: WalkView,
    s: Seq<VisitView>,
    images: Seq<IdentifiedImage>,
    policy: EmitPolicy,
    f1: nat,
    f2: nat,
)
    requires
        pending(s) <= f1,
        pending(s) <= f2,
    ensures
        walk_run(st, s, images, policy, f1) == walk_run(st, s, images, policy, f2),
    decreases f1,
{
    if s.len() > 0 {
        lemma_pending_positive(s);
        let (w, s2, r) = visit_step(st, s.last(), s.drop_last(), images, policy);
        lemma_step_shrinks(st, s.last(), s.drop_last(), images, policy);
        if r is Ok {
            lemma_fuel(w, s2, images, policy, (f1 - 1) as nat, (f2 - 1) as nat);
        }
    }
}

/// What lowering a file yields: the document, its signal and binding
/// tables filled from the joined rows and its variant tables from the
/// component sets; each node's full paint entry; the walk's findings and
/// the constructs the import gate is to triage among them, under
/// `profile`; the binding rows' findings; the variant pass's findings; the
/// `figma.no-content` refusal, where it is owed; the image each ref was
/// admitted as; where each Figma id landed; and the shapes to bake. The
/// findings read in that order: the walk's, the rows', the variant pass's,
/// then the refusal.
pub struct Lowering {
    pub doc: Document,
    pub entries: Vec<Option<PaintEntry>>,
    pub diagnostics: Vec<Diagnostic>,
    pub triaged: Vec<Triaged>,
    pub profile: Profile,
    pub findings: Vec<Finding>,
    pub variants: Vec<VariantFinding>,
    pub no_content: Option<Diagnostic>,
    pub image_of: Vec<(String, u32)>,
    pub index_of_id: Vec<LoweredNode>,
    pub shapes: GeometryDedup,
}

/// Whether a binding row's finding withholds the document: an error note,
/// or a signal conflict.
pub open spec fn finding_blocks(f: Finding) -> bool {
    match f {
        Finding::Note(d) => d.severity == Severity::Error,
        Finding::Conflict(..) => true,
    }
}

/// Whether a variant finding withholds the document: an error note (a
/// refused instance is a warning).
pub open spec fn variant_blocks(f: VariantFinding) -> bool {
    match f {
        VariantFinding::Note(d) => d.severity == Severity::Error,
        VariantFinding::Refused { .. } => false,
    }
}

/// Whether some finding of the walk, the rows or the variant pass already
/// withholds the document.
pub open spec fn blocked(ds: Seq<Diagnostic>, fs: Seq<Finding>, vs: Seq<VariantFinding>) -> bool {
    ||| any_error(ds)
    ||| exists|i: int| 0 <= i < fs.len() && finding_blocks(#[trigger] fs[i])
    ||| exists|i: int| 0 <= i < vs.len() && variant_blocks(#[trigger] vs[i])
}

/// The `figma.no-content` refusal a lowering of `file` owes: where no node
/// lowered and nothing else withholds the document.
pub open spec fn owed_no_content(file: FigmaNode, l: Lowering) -> Option<DiagnosticView> {
    if l.doc.nodes@.len() == 0 && !blocked(l.diagnostics@, l.findings@, l.variants@) {
        Some(no_content_finding(canvas_children(file.children@)))
    } else {
        None
    }
}

fn findings_block(fs: &Vec<Finding>) -> (b: bool)
    ensures
        b == exists|i: int| 0 <= i < fs@.len() && finding_blocks(#[trigger] fs@[i]),
{
    let mut i: usize = 0;
    while i < fs.len()
        invariant
            i <= fs@.len(),
            forall|j: int| 0 <= j < i ==> !finding_blocks(#[trigger] fs@[j]),
        decreases fs@.len() - i,
    {
        let b = match &fs[i] {
            Finding::Note(d) => d.severity == Severity::Error,
            Finding::Conflict(..) => true,
        };
        if b {
            assert(finding_blocks(fs@[i as int]));
            return true;
        }
        i = i + 1;
    }
    false
}

fn variants_block(vs: &Vec<VariantFinding>) -> (b: bool)
    ensures
        b == exists|i: int| 0 <= i < vs@.len() && variant_blocks(#[trigger] vs@[i]),
{
    let mut i: usize = 0;
    while i < vs.len()
        invariant
            i <= vs@.len(),
            forall|j: int| 0 <= j < i ==> !variant_blocks(#[trigger] vs@[j]),
        decreases vs@.len() - i,
    {
        let b = match &vs[i] {
            VariantFinding::Note(d) => d.severity == Severity::Error,
            VariantFinding::Refused { .. } => false,
        };
        if b {
            assert(variant_blocks(vs@[i as int]));
            return true;
        }
        i = i + 1;
    }
    false
}

/// The walk a lowering ended in.
pub open spec fn lowering_view(l: Lowering) -> WalkView {
    WalkView {
        nodes: l.doc.nodes@.map_values(|n: Node| node_view(n)),
        entries: l.entries@.map_values(|e: Option<PaintEntry>| entry_view(e)),
        digests: digests_of(l.doc.assets@),
        cache: cache_view(l.image_of@),
        diagnostics: diagnostics_view(l.diagnostics@),
        triaged: l.triaged@.map_values(|t: Triaged| t@),
        lowered: lowered_view(l.index_of_id@),
        dedup: l.shapes@,
    }
}

pub open spec fn no_bindings() -> BindState {
    BindState { signals: seq![], bindings: seq![], findings: seq![] }
}

/// Lowers `file`: walks its roots depth first in document order (see
/// `lowering_walk`), applies the joined binding rows `bound` to the nodes
/// they name, in order, then emits the variant tables and names the
/// prototype interactions (`apply_variants`); a document that lowered no
/// node, with nothing else withholding it, is refused by name. What
/// floating point works out of a node arrives in its facts; the triage
/// verdicts, the decimals of signal conflicts and refused instances, and
/// the baked atlas are the caller's, after this.
pub fn lower_with_bindings_and_policy(
    file: &FigmaNode,
    profile: Profile,
    images: &Vec<IdentifiedImage>,
    bound: &[BoundVariable],
    policy: EmitPolicy,
) -> (r: Result<Lowering, CompileError>)
    requires
        forest_size(canvas_children(file.children@)) <= usize::MAX,
        4 * bound@.len() <= u32::MAX,
    ensures
        match r {
            Err(e) => lowering_walk(*file, images@, policy) == Err::<WalkView, CompileErrorView>(e@),
            Ok(l) => {
                &&& lowering_walk(*file, images@, policy) == Ok::<WalkView, CompileErrorView>(lowering_view(l))
                &&& state_of(l.doc, l.findings@) == apply_rows(
                    l.doc.nodes@,
                    lowered_view(l.index_of_id@),
                    0,
                    no_bindings(),
                    rows_view(bound@),
                )
                &&& l.profile == profile
                &&& forall|v: int|
                    0 <= v < l.doc.variant_sets@.len() ==> set_in_range(
                        #[trigger] l.doc.variant_sets@[v],
                        l.doc.nodes@.len() as int,
                    )
                &&& match owed_no_content(*file, l) {
                    Some(d) => l.no_content matches Some(n) && n@ == d,
                    None => l.no_content is None,
                }
                &&& from_images(l.doc.assets@, images@)
                &&& forall|i: int|
                    0 <= i < l.variants@.len() ==> ((#[trigger] l.variants@[i]) matches VariantFinding::Note(d)
                        ==> pass_weight(d@.rule, d@.severity, policy))
                &&& policy == EmitPolicy::Partial ==> forall|i: int|
                    0 <= i < l.variants@.len() ==> !variant_blocks(#[trigger] l.variants@[i])
                &&& forall|k: int|
                    0 <= k < l.doc.bindings@.len() ==> (#[trigger] l.doc.bindings@[k]).node < l.doc.nodes@.len()
                        && l.doc.bindings@[k].signal < l.doc.signals@.len()
            },
        },
{
    let roots = match top_level_nodes(file) {
        Ok(roots) => roots,
        Err(e) => {
            return Err(e);
        },
    };
    let ghost rs = derefs(roots@);
    let mut walk = Walk {
        doc: Document::new(),
        entries: Vec::new(),
        diagnostics: Vec::new(),
        triaged: Vec::new(),
        image_of: Vec::new(),
        index_of_id: Vec::new(),
        dedup: GeometryDedup::new(),
        images,
        policy,
    };
    let segments = disambiguated_segments(roots.as_slice());
    let mut stack: Vec<Visit> = Vec::new();
    let len = roots.len();
    let ghost all = root_visits(rs);
    let mut k = len;
    proof {
        assert(visits_view(stack@) =~= all.take(0));
    }
    while k > 0
        invariant
            k <= len,
            len == roots@.len(),
            rs == derefs(roots@),
            all == root_visits(rs),
            segments@.len() == len,
            forall|p: int| 0 <= p < len ==> (#[trigger] segments@[p])@ == segment(roots@, p),
            visits_view(stack@) == all.take(len - k),
        decreases k,
    {
        k = k - 1;
        let mut p = string_of("/");
        push_str(&mut p, segments[k].as_str());
        let ghost before = stack@;
        let visit = Visit { node: roots[k], parent: None, path: p, flow: None };
        stack.push(visit);
        proof {
            lemma_sibling_segment(rs, roots@, k as int);
            assert(all[len - 1 - k] == visit@);
            assert(all.take(len - k) =~= all.take(len - 1 - k).push(all[len - 1 - k]));
            assert(visits_view(stack@) =~= visits_view(before).push(visit@));
        }
    }
    let ghost target = walk_run(empty_walk(), all, images@, policy, pending(all));
    let ghost limit = pending(all);
    proof {
        assert(visits_view(stack@) =~= all);
        assert(all.map_values(|v: VisitView| v.node) =~= reversed(rs));
        lemma_reversed_size(rs);
        assert(rs == canvas_children(file.children@));
        assert(target == lowering_walk(*file, images@, policy));
        assert(walk@.dedup.seen =~= empty_walk().dedup.seen);
        assert(walk@.dedup.keys =~= empty_walk().dedup.keys);
        assert(walk@ =~= empty_walk());
    }
    while stack.len() > 0
        invariant
            walk.wf(),
            walk.images == images,
            walk.policy == policy,
            limit <= usize::MAX,
            target == lowering_walk(*file, images@, policy),
            pending(visits_view(stack@)) <= limit,
            walk_run(walk@, visits_view(stack@), images@, policy, pending(visits_view(stack@))) == target,
        decreases pending(visits_view(stack@)),
    {
        let ghost sv = visits_view(stack@);
        let v = stack.pop().unwrap();
        proof {
            lemma_pending_positive(sv);
            assert(visits_view(stack@) =~= sv.drop_last());
            assert(v@ == sv.last());
            lemma_step_shrinks(walk@, v@, sv.drop_last(), images@, policy);
        }
        let ghost w0 = walk@;
        let ghost step = visit_step(w0, sv.last(), sv.drop_last(), images@, policy);
        proof {
            assert(walk_run(w0, sv, images@, policy, pending(sv)) == match step.2 {
                Err(e) => Err(e),
                Ok(_) => walk_run(step.0, step.1, images@, policy, (pending(sv) - 1) as nat),
            });
        }
        match walk.visit(v, &mut stack) {
            Ok(()) => {},
            Err(e) => {
                proof {
                    assert(step.2 == Err::<(), CompileErrorView>(e@));
                    assert(walk_run(w0, sv, images@, policy, pending(sv)) == Err::<WalkView, CompileErrorView>(e@));
                }
                return Err(e);
            },
        }
        proof {
            lemma_fuel(walk@, visits_view(stack@), images@, policy, (pending(sv) - 1) as nat, pending(visits_view(stack@)));
        }
    }
    let ghost walked = walk@;
    let ghost before = walk.doc;
    proof {
        assert(visits_view(stack@).len() == 0);
        assert(state_of(before, Seq::empty()).signals =~= no_bindings().signals);
        assert(state_of(before, Seq::empty()).bindings =~= no_bindings().bindings);
        assert(state_of(before, Seq::empty()).findings =~= no_bindings().findings);
        assert(state_of(before, Seq::empty()) == no_bindings());
    }
    let findings = apply(&mut walk.doc, bound, &walk.index_of_id);
    let ghost bound_doc = walk.doc;
    proof {
        apply_rows_only_appends(
            before.nodes@,
            lowered_view(walk.index_of_id@),
            0,
            no_bindings(),
            rows_view(bound@),
        );
        assert(state_of(bound_doc, findings@).bindings == bound_doc.bindings@);
        assert(state_of(bound_doc, findings@).signals.len() == bound_doc.signals@.len());
    }
    let variants = apply_variants(&mut walk.doc, file, &walk.index_of_id, policy);
    proof {
        assert(walk.doc.variant_sets@.subrange(0, 0) =~= Seq::<VariantSet>::empty());
        assert(state_of(walk.doc, findings@) == state_of(bound_doc, findings@));
    }
    let no_content = if findings_block(&findings) || variants_block(&variants) {
        None
    } else {
        no_content(roots.as_slice(), &walk.doc, &walk.diagnostics)
    };
    let l = Lowering {
        doc: walk.doc,
        entries: walk.entries,
        diagnostics: walk.diagnostics,
        triaged: walk.triaged,
        profile,
        findings,
        variants,
        no_content,
        image_of: walk.image_of,
        index_of_id: walk.index_of_id,
        shapes: walk.dedup,
    };
    proof {
        assert(l.doc.nodes@ == before.nodes@);
        assert(lowering_view(l) =~= walked);
        assert(rs == canvas_children(file.children@));
    }
    Ok(l)
}

/// `lower_with_bindings_and_policy` under `Strict`: any vocabulary gap
/// refuses the file.
pub fn lower_with_bindings(file: &FigmaNode, profile: Profile, images: &Vec<IdentifiedImage>, bound: &[BoundVariable]) -> (r: Result<
    Lowering,
    CompileError,
>)
    requires
        forest_size(canvas_children(file.children@)) <= usize::MAX,
        4 * bound@.len() <= u32::MAX,
    ensures
        match r {
            Err(e) => lowering_walk(*file, images@, EmitPolicy::Strict) == Err::<WalkView, CompileErrorView>(e@),
            Ok(l) => {
                &&& lowering_walk(*file, images@, EmitPolicy::Strict) == Ok::<WalkView, CompileErrorView>(
                    lowering_view(l),
                )
                &&& state_of(l.doc, l.findings@) == apply_rows(
                    l.doc.nodes@,
                    lowered_view(l.index_of_id@),
                    0,
                    no_bindings(),
                    rows_view(bound@),
                )
                &&& l.profile == profile
                &&& match owed_no_content(*file, l) {
                    Some(d) => l.no_content matches Some(n) && n@ == d,
                    None => l.no_content is None,
                }
                &&& from_images(l.doc.assets@, images@)
            },
        },
{
    lower_with_bindings_and_policy(file, profile, images, bound, EmitPolicy::Strict)
}

/// `lower_with_bindings` with no binding rows: the document's signal and
/// binding tables stay empty.
pub fn lower(file: &FigmaNode, profile: Profile, images: &Vec<IdentifiedImage>) -> (r: Result<Lowering, CompileError>)
    requires
        forest_size(canvas_children(file.children@)) <= usize::MAX,
    ensures
        match r {
            Err(e) => lowering_walk(*file, images@, EmitPolicy::Strict) == Err::<WalkView, CompileErrorView>(e@),
            Ok(l) => {
                &&& lowering_walk(*file, images@, EmitPolicy::Strict) == Ok::<WalkView, CompileErrorView>(
                    lowering_view(l),
                )
                &&& l.doc.signals@.len() == 0
                &&& l.doc.bindings@.len() == 0
                &&& l.findings@.len() == 0
                &&& l.profile == profile
                &&& match owed_no_content(*file, l) {
                    Some(d) => l.no_content matches Some(n) && n@ == d,
                    None => l.no_content is None,
                }
                &&& from_images(l.doc.assets@, images@)
            },
        },
{
    let none: Vec<BoundVariable> = Vec::new();
    let r = lower_with_bindings(file, profile, images, none.as_slice());
    proof {
        assert(rows_view(none@) =~= Seq::<crate::bindings::BoundVariableView>::empty());
        match &r {
            Ok(l) => {
                let st = state_of(l.doc, l.findings@);
                assert(st == no_bindings());
                assert(st.signals.len() == l.doc.signals@.len());
                assert(st.findings.len() == l.findings@.len());
            },
            Err(_) => {},
        }
    }
    r
}

// ---- what every walk keeps ------------------------------------------------------

/// Every node's parent is a node before it.
pub open spec fn parents_precede(nodes: Seq<NodeView>) -> bool {
    forall|i: int|
        0 <= i < nodes.len() ==> match (#[trigger] nodes[i]).parent {
            Some(p) => (p as int) < i,
            None => true,
        }
}

/// Every pending visit lowers under a node already among the first `len`.
pub open spec fn parents_below(stack: Seq<VisitView>, len: int) -> bool {
    forall|i: int|
        0 <= i < stack.len() ==> match (#[trigger] stack[i]).parent {
            Some(p) => (p as int) < len,
            None => true,
        }
}

/// Every node without a parent is a root, placed at the origin.
pub open spec fn roots_at_origin(nodes: Seq<NodeView>) -> bool {
    forall|i: int|
        0 <= i < nodes.len() && (#[trigger] nodes[i]).parent is None ==> nodes[i].box2d.x == 0 && nodes[i].box2d.y
            == 0
}

pub open spec fn walk_keeps(st: WalkView, stack: Seq<VisitView>) -> bool {
    &&& parents_precede(st.nodes)
    &&& roots_at_origin(st.nodes)
    &&& parents_below(stack, st.nodes.len() as int)
    &&& st.entries.len() == st.nodes.len()
}

#[verifier::rlimit(60)]
proof fn lemma_step_keeps(
    st: WalkView,
    v: VisitView,
    stack: Seq<VisitView>,
    images: Seq<IdentifiedImage>,
    policy: EmitPolicy,
)
    requires
        walk_keeps(st, stack.push(v)),
    ensures
        visit_step(st, v, stack, images, policy).2 is Ok ==> walk_keeps(
            visit_step(st, v, stack, images, policy).0,
            visit_step(st, v, stack, images, policy).1,
        ),
{
    assert(stack.push(v)[stack.len() as int] == v);
    assert forall|i: int| 0 <= i < stack.len() implies match (#[trigger] stack[i]).parent {
        Some(p) => (p as int) < st.nodes.len(),
        None => true,
    } by {
        assert(stack.push(v)[i] == stack[i]);
    }
    let n = v.node;
    if kind_verdict(n.kind@) == KindVerdict::Lowered && fits(st, n) {
        let index = st.nodes.len() as u32;
        let intent = intent_outcome(n, v.flow);
        let arm = arm_spec(n, intent.1, v.path, index, images, st.cache, st.digests, policy, intent.2.len(), st.dedup);
        match arm.result {
            Ok(a) => {
                let blockers = intent.2 + arm.added + shadow_blocker(n) + constructs_spec(&n).1;
                if blockers.len() == 0 {
                    let constructs = constructs_spec(&n).0;
                    let w = landed(after_arm(st, arm), v, index, intent.0, a, constructs);
                    let (container, margin) = gap_lowered(a.container);
                    let cv = children_visits(v, index, container, margin, a.constraints);
                    assert(index as int == st.nodes.len());
                    assert forall|i: int| 0 <= i < w.nodes.len() implies match (#[trigger] w.nodes[i]).parent {
                        Some(p) => (p as int) < i,
                        None => true,
                    } by {
                        if i < st.nodes.len() {
                            assert(w.nodes[i] == st.nodes[i]);
                        }
                    }
                    assert forall|i: int| 0 <= i < w.nodes.len() && (#[trigger] w.nodes[i]).parent is None implies w.nodes[i].box2d.x
                        == 0 && w.nodes[i].box2d.y == 0 by {
                        if i < st.nodes.len() {
                            assert(w.nodes[i] == st.nodes[i]);
                        }
                    }
                    assert forall|i: int| 0 <= i < (stack + cv).len() implies match (#[trigger] (stack
                        + cv)[i]).parent {
                        Some(p) => (p as int) < w.nodes.len(),
                        None => true,
                    } by {
                        if i < stack.len() {
                            assert((stack + cv)[i] == stack[i]);
                        } else {
                            assert((stack + cv)[i] == cv[i - stack.len()]);
                        }
                    }
                }
            },
            Err(_) => {},
        }
    }
}

proof fn lemma_run_keeps(
    st: WalkView,
    stack: Seq<VisitView>,
    images: Seq<IdentifiedImage>,
    policy: EmitPolicy,
    fuel: nat,
)
    requires
        walk_keeps(st, stack),
    ensures
        walk_run(st, stack, images, policy, fuel) matches Ok(w) ==> parents_precede(w.nodes) && roots_at_origin(
            w.nodes,
        ) && w.entries.len() == w.nodes.len(),
    decreases fuel,
{
    if stack.len() > 0 && fuel > 0 {
        assert(stack.drop_last().push(stack.last()) =~= stack);
        lemma_step_keeps(st, stack.last(), stack.drop_last(), images, policy);
        let (w, s, r) = visit_step(st, stack.last(), stack.drop_last(), images, policy);
        if r is Ok {
            lemma_run_keeps(w, s, images, policy, (fuel - 1) as nat);
        }
    }
}

/// Lowering lays the document out in depth-first preorder: every node's
/// parent is a node lowered before it, every node without a parent is a
/// root placed at the origin, and every node has its paint entry.
pub proof fn lowered_parents_precede_children(file: FigmaNode, images: Seq<IdentifiedImage>, policy: EmitPolicy)
    ensures
        lowering_walk(file, images, policy) matches Ok(w) ==> parents_precede(w.nodes) && roots_at_origin(w.nodes)
            && w.entries.len() == w.nodes.len(),
{
    let roots = canvas_children(file.children@);
    if roots.len() > 0 {
        let rv = root_visits(roots);
        assert(parents_below(rv, 0));
        lemma_run_keeps(empty_walk(), rv, images, policy, pending(rv));
    }
}

/// Every finding weighs what `policy` makes an omission weigh.
pub open spec fn all_weigh(ds: Seq<DiagnosticView>, policy: EmitPolicy) -> bool {
    forall|i: int| 0 <= i < ds.len() ==> (#[trigger] ds[i]).severity == omission_weight(policy)
}

#[verifier::rlimit(60)]
proof fn lemma_step_weighs(
    st: WalkView,
    v: VisitView,
    stack: Seq<VisitView>,
    images: Seq<IdentifiedImage>,
    policy: EmitPolicy,
)
    requires
        all_weigh(st.diagnostics, policy),
    ensures
        visit_step(st, v, stack, images, policy).2 is Ok ==> all_weigh(
            visit_step(st, v, stack, images, policy).0.diagnostics,
            policy,
        ),
{
    let n = v.node;
    let index = st.nodes.len() as u32;
    let dropped = dropped_findings(index, v.path, n, policy);
    assert(all_weigh(dropped, policy));
    match kind_verdict(n.kind@) {
        KindVerdict::Refused => {
            let one = st.diagnostics.push(omission(index, v.path, "node type "@ + n.kind@, policy));
            assert(all_weigh(one, policy)) by {
                assert forall|i: int| 0 <= i < one.len() implies (#[trigger] one[i]).severity == omission_weight(
                    policy,
                ) by {
                    if i < st.diagnostics.len() {
                        assert(one[i] == st.diagnostics[i]);
                    }
                }
            }
            let all = one + dropped;
            assert forall|i: int| 0 <= i < all.len() implies (#[trigger] all[i]).severity == omission_weight(policy) by {
                if i < one.len() {
                    assert(all[i] == one[i]);
                } else {
                    assert(all[i] == dropped[i - one.len()]);
                }
            }
        },
        KindVerdict::Lowered => if fits(st, n) {
            let intent = intent_outcome(n, v.flow);
            let arm = arm_spec(n, intent.1, v.path, index, images, st.cache, st.digests, policy, intent.2.len(), st.dedup);
            match arm.result {
                Ok(a) => {
                    let blockers = intent.2 + arm.added + shadow_blocker(n) + constructs_spec(&n).1;
                    let named = blockers.map_values(|w: Seq<char>| omission(index, v.path, w, policy));
                    let all = st.diagnostics + named + dropped;
                    assert forall|i: int| 0 <= i < all.len() implies (#[trigger] all[i]).severity == omission_weight(
                        policy,
                    ) by {
                        if i < st.diagnostics.len() {
                            assert(all[i] == st.diagnostics[i]);
                        } else if i < st.diagnostics.len() + named.len() {
                            assert(all[i] == named[i - st.diagnostics.len()]);
                        } else {
                            assert(all[i] == dropped[i - st.diagnostics.len() - named.len()]);
                        }
                    }
                },
                Err(_) => {},
            }
        },
        KindVerdict::Definition => {},
    }
}

proof fn lemma_run_weighs(
    st: WalkView,
    stack: Seq<VisitView>,
    images: Seq<IdentifiedImage>,
    policy: EmitPolicy,
    fuel: nat,
)
    requires
        all_weigh(st.diagnostics, policy),
    ensures
        walk_run(st, stack, images, policy, fuel) matches Ok(w) ==> all_weigh(w.diagnostics, policy),
    decreases fuel,
{
    if stack.len() > 0 && fuel > 0 {
        lemma_step_weighs(st, stack.last(), stack.drop_last(), images, policy);
        let (w, s, r) = visit_step(st, stack.last(), stack.drop_last(), images, policy);
        if r is Ok {
            lemma_run_weighs(w, s, images, policy, (fuel - 1) as nat);
        }
    }
}

/// The walk's own findings are its omissions and the subtrees they lost,
/// and the emit policy weighs them all alike: under `Partial` every one is
/// a warning, so a skipped node never blocks the document; under `Strict`
/// every one is an error.
pub proof fn walk_findings_weigh_by_policy(file: FigmaNode, images: Seq<IdentifiedImage>, policy: EmitPolicy)
    ensures
        lowering_walk(file, images, policy) matches Ok(w) ==> forall|i: int|
            0 <= i < w.diagnostics.len() ==> (#[trigger] w.diagnostics[i]).severity == match policy {
                EmitPolicy::Strict => Severity::Error,
                EmitPolicy::Partial => Severity::Warning,
            },
{
    let roots = canvas_children(file.children@);
    if roots.len() > 0 {
        lemma_run_weighs(empty_walk(), root_visits(roots), images, policy, pending(root_visits(roots)));
    }
}

} // verus!
