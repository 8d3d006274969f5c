//! The paint entry the lowering walk builds for a node: a frame's stacked
//! fills, stroke, corners, shadows and blurs; an ellipse's circle; a
//! vector's baked field. Every refusal is collected as it is found.
//! Whatever only floating point can work out of a node arrives worked out,
//! in its `WalkFacts`.
use vstd::prelude::*;

use crate::diagnostics::{diagnostics_view, Construct, Diagnostic, DiagnosticView, NodePath};
use crate::document::{AxisSizing, Box2D, Color, Document, LayoutConstraints, Node, Paint, FillKind};
use crate::figma::{field_is, is_nonzero_bits, lemma_prefix_error_stays, one_if, winding_fold, CompileError, CompileErrorView, FigmaEffect, FigmaNode, Bake, Geometry};
use crate::paints::{
    cache_in_pool, from_images, cache_view, digests_of, fills_blockers, fills_error, fills_of, fills_run, fills_view,
    same_but_assets, FillSpec, FillSpecView, IdentifiedImage,
};
use crate::text::{push_str, string_of, strings_view};
use crate::tweens::{f32_equal, f32_equal_exec};
use crate::vector::{bucket_of, vector_field_blocker, vector_refusal, GeometryDedup, GeometryDedupView, Lookup, lookup_of, WindingRule};
use crate::walk::{
    fill_of, last_shown, shown_count, single_visible_paint, OnePaint, stroke_findings, stroke_intent, stroke_of, visible_backdrop_blur,
    visible_shadow, field_input, StrokeIntent,
};
use crate::EmitPolicy;

verus! {

// ---- a node's paint entry ----------------------------------------------------

/// A paint entry's corner radii (bits).
#[derive(Clone, Copy, Debug, PartialEq, Eq, Structural)]
pub struct Corners {
    pub top_left: u32,
    pub top_right: u32,
    pub bottom_right: u32,
    pub bottom_left: u32,
}

/// What a lowered node paints: its bottom fill and the fills stacked over
/// it, its stroke (which stroke paint colours it, and where it sits), its
/// corner radii (bits), the shadows and backdrop blurs it carries (by
/// their index among its effects), whether it clips its children, and the
/// baked shape that masks it.
#[derive(Clone, Debug)]
pub struct PaintEntry {
    pub fill: Option<FillSpec>,
    pub extra_fills: Vec<FillSpec>,
    pub stroke: Option<StrokeIntent>,
    pub corners: Corners,
    pub shadows: Vec<usize>,
    pub blurs: Vec<usize>,
    pub clip: bool,
    pub shape_field: Option<u32>,
}

pub struct PaintEntryView {
    pub fill: Option<FillSpecView>,
    pub extra_fills: Seq<FillSpecView>,
    pub stroke: Option<StrokeIntent>,
    pub corners: Corners,
    pub shadows: Seq<usize>,
    pub blurs: Seq<usize>,
    pub clip: bool,
    pub shape_field: Option<u32>,
}

impl View for PaintEntry {
    type V = PaintEntryView;

    open spec fn view(&self) -> PaintEntryView {
        PaintEntryView {
            fill: match self.fill {
                Some(f) => Some(f@),
                None => None,
            },
            extra_fills: fills_view(self.extra_fills@),
            stroke: self.stroke,
            corners: self.corners,
            shadows: self.shadows@,
            blurs: self.blurs@,
            clip: self.clip,
            shape_field: self.shape_field,
        }
    }
}

/// The shadows a node carries, by index, and a blocker for each shown
/// shadow with no colour, in effect order.
pub open spec fn shadows_spec(es: Seq<FigmaEffect>) -> (Seq<usize>, Seq<Seq<char>>)
    decreases es.len(),
{
    if es.len() == 0 {
        (Seq::empty(), Seq::empty())
    } else {
        let (s, b) = shadows_spec(es.drop_last());
        let e = es.last();
        if visible_shadow(e) {
            if e.color is Some {
                (s.push((es.len() - 1) as usize), b)
            } else {
                (s, b.push("a shadow with no color"@))
            }
        } else {
            (s, b)
        }
    }
}

/// The backdrop blurs a node carries, by index, in effect order.
pub open spec fn blurs_spec(es: Seq<FigmaEffect>) -> Seq<usize>
    decreases es.len(),
{
    if es.len() == 0 {
        Seq::empty()
    } else {
        let b = blurs_spec(es.drop_last());
        if visible_backdrop_blur(es.last()) {
            b.push((es.len() - 1) as usize)
        } else {
            b
        }
    }
}

/// A frame's corners: its per-corner radii when it has them, else its one
/// radius (zero when absent) at every corner.
pub open spec fn corners_spec(n: FigmaNode) -> Corners {
    match n.compared.rectangle_corner_radii {
        Some(a) => Corners { top_left: a[0], top_right: a[1], bottom_right: a[2], bottom_left: a[3] },
        None => {
            let r = match n.compared.corner_radius {
                Some(r) => r,
                None => 0u32,
            };
            Corners { top_left: r, top_right: r, bottom_right: r, bottom_left: r }
        },
    }
}

fn effects_of(effects: &Vec<FigmaEffect>, blockers: &mut Vec<String>) -> (r: (Vec<usize>, Vec<usize>))
    ensures
        r.0@ == shadows_spec(effects@).0,
        r.1@ == blurs_spec(effects@),
        strings_view(final(blockers)@) == strings_view(old(blockers)@) + shadows_spec(effects@).1,
{
    let mut shadows: Vec<usize> = Vec::new();
    let mut blurs: Vec<usize> = Vec::new();
    let ghost b0 = strings_view(blockers@);
    let mut i: usize = 0;
    proof {
        assert(effects@.take(0) =~= Seq::<FigmaEffect>::empty());
        assert(b0 + Seq::<Seq<char>>::empty() =~= b0);
    }
    while i < effects.len()
        invariant
            i <= effects@.len(),
            shadows@ == shadows_spec(effects@.take(i as int)).0,
            blurs@ == blurs_spec(effects@.take(i as int)),
            strings_view(blockers@) == b0 + shadows_spec(effects@.take(i as int)).1,
        decreases effects@.len() - i,
    {
        let e = &effects[i];
        let shown = match e.visible {
            Some(v) => v,
            None => true,
        };
        let ghost t = effects@.take(i + 1);
        proof {
            assert(t.drop_last() =~= effects@.take(i as int));
            assert(t.last() == effects@[i as int]);
        }
        if shown && (crate::text::str_eq(e.kind.as_str(), "DROP_SHADOW") || crate::text::str_eq(
            e.kind.as_str(),
            "INNER_SHADOW",
        )) {
            if e.color.is_some() {
                shadows.push(i);
            } else {
                let ghost before = blockers@;
                blockers.push(string_of("a shadow with no color"));
                proof {
                    assert(strings_view(blockers@) =~= strings_view(before).push("a shadow with no color"@));
                }
            }
        }
        if shown && crate::text::str_eq(e.kind.as_str(), "BACKGROUND_BLUR") {
            blurs.push(i);
        }
        i = i + 1;
    }
    proof {
        assert(effects@.take(i as int) =~= effects@);
    }
    (shadows, blurs)
}

fn corners_of(node: &FigmaNode) -> (c: Corners)
    ensures
        c == corners_spec(*node),
{
    match node.compared.rectangle_corner_radii {
        Some(a) => Corners { top_left: a[0], top_right: a[1], bottom_right: a[2], bottom_left: a[3] },
        None => {
            let r = match node.compared.corner_radius {
                Some(r) => r,
                None => 0u32,
            };
            Corners { top_left: r, top_right: r, bottom_right: r, bottom_left: r }
        },
    }
}

pub open spec fn entry_view(e: Option<PaintEntry>) -> Option<PaintEntryView> {
    match e {
        Some(p) => Some(p@),
        None => None,
    }
}

pub open spec fn no_corners(c: Corners) -> bool {
    !is_nonzero_bits(c.top_left) && !is_nonzero_bits(c.top_right) && !is_nonzero_bits(c.bottom_right)
        && !is_nonzero_bits(c.bottom_left)
}

pub open spec fn stroke_spec(n: FigmaNode) -> Option<StrokeIntent> {
    match stroke_intent(n) {
        Some((p, a)) => Some(StrokeIntent { paint: p as usize, align: a }),
        None => None,
    }
}

/// What lowering a node's paint does: the entry (or the error that ends
/// the lowering), the image cache and payload digests it leaves, the
/// blockers it adds, and the shape dedup after it.
pub struct PaintOutcome {
    pub result: Result<Option<PaintEntryView>, CompileErrorView>,
    pub cache: Seq<(Seq<char>, u32)>,
    pub digests: Seq<Seq<u8>>,
    pub added: Seq<Seq<char>>,
    pub dedup: GeometryDedupView,
}

/// A frame's, rectangle's, instance's, section's or group's paint: its
/// stacked fills, its stroke, its corners, its shadows and blurs, every
/// refusal collected; nothing when it draws nothing and does not clip.
pub open spec fn frame_paint_spec(
    n: FigmaNode,
    path: Seq<char>,
    index: u32,
    images: Seq<IdentifiedImage>,
    cache: Seq<(Seq<char>, u32)>,
    digests: Seq<Seq<u8>>,
    policy: EmitPolicy,
    had: nat,
    dedup: GeometryDedupView,
) -> PaintOutcome {
    let run = fills_run(n.fills@, path, index, images, cache, digests, policy);
    match fills_error(run, had, path) {
        Some(e) => PaintOutcome {
            result: Err(e),
            cache: run.cache,
            digests: run.digests,
            added: fills_blockers(run, had, path),
            dedup,
        },
        None => {
            let ks = run.lowered;
            let entry = PaintEntryView {
                fill: if ks.len() > 0 {
                    Some(ks[0])
                } else {
                    None
                },
                extra_fills: if ks.len() > 0 {
                    ks.skip(1)
                } else {
                    ks
                },
                stroke: stroke_spec(n),
                corners: corners_spec(n),
                shadows: shadows_spec(n.effects@).0,
                blurs: blurs_spec(n.effects@),
                clip: n.compared.clips_content,
                shape_field: None,
            };
            let empty = ks.len() == 0 && entry.stroke is None && no_corners(entry.corners)
                && entry.shadows.len() == 0 && entry.blurs.len() == 0 && !entry.clip;
            PaintOutcome {
                result: Ok(
                    if empty {
                        None
                    } else {
                        Some(entry)
                    },
                ),
                cache: run.cache,
                digests: run.digests,
                added: fills_blockers(run, had, path) + stroke_findings(n) + shadows_spec(n.effects@).1,
                dedup,
            }
        },
    }
}

fn zero_bits(b: u32) -> (r: bool)
    ensures
        r == !is_nonzero_bits(b),
{
    b == 0 || b == 0x8000_0000
}

pub fn frame_paint(
    node: &FigmaNode,
    path: &str,
    policy: EmitPolicy,
    images: &Vec<IdentifiedImage>,
    image_of: &mut Vec<(String, u32)>,
    doc: &mut Document,
    blockers: &mut Vec<String>,
    Ghost(dedup): Ghost<GeometryDedupView>,
) -> (r: Result<Option<PaintEntry>, CompileError>)
    requires
        old(doc).assets@.len() + node.fills@.len() < u32::MAX,
    ensures
        ({
            let o = frame_paint_spec(
                *node,
                path@,
                #[verifier::truncate] (old(doc).nodes@.len() as u32),
                images@,
                cache_view(old(image_of)@),
                digests_of(old(doc).assets@),
                policy,
                old(blockers)@.len(),
                dedup,
            );
            &&& cache_view(final(image_of)@) == o.cache
            &&& digests_of(final(doc).assets@) == o.digests
            &&& match o.result {
                Err(e) => r matches Err(x) && x@ == e,
                Ok(p) => r matches Ok(q) && entry_view(q) == p && strings_view(final(blockers)@)
                    == strings_view(old(blockers)@) + o.added,
            }
        }),
        same_but_assets(*final(doc), *old(doc)),
        cache_in_pool(cache_view(old(image_of)@), old(doc).assets@.len()) ==> cache_in_pool(
            cache_view(final(image_of)@),
            final(doc).assets@.len(),
        ),
        from_images(old(doc).assets@, images@) ==> from_images(final(doc).assets@, images@),
{
    let ghost b0 = strings_view(blockers@);
    let mut fills = match fills_of(node, path, policy, images, image_of, doc, blockers) {
        Ok(ks) => ks,
        Err(e) => return Err(e),
    };
    let ghost b1 = strings_view(blockers@);
    let stroke = stroke_of(node, blockers);
    let ghost b2 = strings_view(blockers@);
    let corners = corners_of(node);
    let (shadows, blurs) = effects_of(&node.effects, blockers);
    let ghost ks = fills_view(fills@);
    let fill = if fills.len() > 0 {
        Some(fills.remove(0))
    } else {
        None
    };
    proof {
        if ks.len() > 0 {
            assert(fills_view(fills@) =~= ks.skip(1));
        }
        let run = fills_run(
            node.fills@,
            path@,
            #[verifier::truncate] (old(doc).nodes@.len() as u32),
            images@,
            cache_view(old(image_of)@),
            digests_of(old(doc).assets@),
            policy,
        );
        let fb = fills_blockers(run, old(blockers)@.len(), path@);
        assert(b0 + (fb + stroke_findings(*node) + shadows_spec(node.effects@).1) =~= b0 + fb + stroke_findings(
            *node,
        ) + shadows_spec(node.effects@).1);
    }
    let clip = node.compared.clips_content;
    if fill.is_none() && stroke.is_none() && zero_bits(corners.top_left) && zero_bits(corners.top_right)
        && zero_bits(corners.bottom_right) && zero_bits(corners.bottom_left) && shadows.len() == 0
        && blurs.len() == 0 && !clip {
        return Ok(None);
    }
    Ok(Some(PaintEntry { fill, extra_fills: fills, stroke, corners, shadows, blurs, clip, shape_field: None }))
}

/// Whether both axes of a node's sizing are fixed (the default when it has
/// none).
pub open spec fn fixed_size(c: Option<LayoutConstraints>) -> bool {
    match c {
        Some(k) => k.sizing_h == AxisSizing::Fixed && k.sizing_v == AxisSizing::Fixed,
        None => true,
    }
}

/// What an ellipse's geometry refuses, in order: a partial sweep and a
/// ring (where it has an arc), a size that is not fixed on both axes, and
/// unequal extents (where it has a box).
pub open spec fn ellipse_gates(n: FigmaNode, c: Option<LayoutConstraints>) -> Seq<Seq<char>> {
    let f = n.facts.ellipse;
    let arc = n.compared.arc_data is Some;
    one_if(arc && f.partial_sweep, "an elliptical arc (partial arcData sweep)"@) + one_if(
        arc && f.ring,
        "a ring (arcData innerRadius)"@,
    ) + one_if(!fixed_size(c), "a non-fixed-size ellipse"@) + one_if(
        n.absolute_bounding_box is Some && !f.circular,
        "a non-circular ellipse (unequal extents)"@,
    )
}

/// The sole fill of a node whose entry carries one, after a fills run.
pub open spec fn sole_fill_spec(n: FigmaNode, lowered: Seq<FillSpecView>) -> Option<FillSpecView> {
    if shown_count(n.fills@) == 1 && lowered.len() > 0 {
        Some(lowered[0])
    } else {
        None
    }
}

/// A full-circle ellipse's paint: its gates, then its sole fill, its
/// stroke, a radius of half its extent at every corner, its shadows and
/// blurs; nothing when it has no ink. It never clips.
pub open spec fn ellipse_paint_spec(
    n: FigmaNode,
    c: Option<LayoutConstraints>,
    path: Seq<char>,
    index: u32,
    images: Seq<IdentifiedImage>,
    cache: Seq<(Seq<char>, u32)>,
    digests: Seq<Seq<u8>>,
    policy: EmitPolicy,
    had: nat,
    dedup: GeometryDedupView,
) -> PaintOutcome {
    let gates = ellipse_gates(n, c);
    let radius = ellipse_radius(n);
    let run = fills_run(n.fills@, path, index, images, cache, digests, policy);
    let had2 = had + gates.len();
    match fills_error(run, had2, path) {
        Some(e) => PaintOutcome {
            result: Err(e),
            cache: run.cache,
            digests: run.digests,
            added: gates + fills_blockers(run, had2, path),
            dedup,
        },
        None => {
            let entry = PaintEntryView {
                fill: sole_fill_spec(n, run.lowered),
                extra_fills: Seq::empty(),
                stroke: stroke_spec(n),
                corners: Corners { top_left: radius, top_right: radius, bottom_right: radius, bottom_left: radius },
                shadows: shadows_spec(n.effects@).0,
                blurs: blurs_spec(n.effects@),
                clip: false,
                shape_field: None,
            };
            let empty = entry.fill is None && entry.stroke is None && entry.shadows.len() == 0
                && entry.blurs.len() == 0;
            PaintOutcome {
                result: Ok(
                    if empty {
                        None
                    } else {
                        Some(entry)
                    },
                ),
                cache: run.cache,
                digests: run.digests,
                added: gates + fills_blockers(run, had2, path) + one_if(
                    shown_count(n.fills@) >= 2,
                    "more than one visible fill"@,
                ) + stroke_findings(n) + shadows_spec(n.effects@).1,
                dedup,
            }
        },
    }
}

fn gate(blockers: &mut Vec<String>, cond: bool, what: &str)
    ensures
        strings_view(final(blockers)@) == strings_view(old(blockers)@) + one_if(cond, what@),
{
    crate::figma::block_if(blockers, cond, what);
}

pub open spec fn ellipse_radius(n: FigmaNode) -> u32 {
    if n.absolute_bounding_box is Some && n.facts.ellipse.circular {
        n.facts.ellipse.radius
    } else {
        0u32
    }
}

fn gates_of(node: &FigmaNode, constraints: Option<LayoutConstraints>, blockers: &mut Vec<String>) -> (radius: u32)
    ensures
        radius == ellipse_radius(*node),
        strings_view(final(blockers)@) == strings_view(old(blockers)@) + ellipse_gates(*node, constraints),
{
    let ghost b0 = strings_view(blockers@);
    let facts = &node.facts.ellipse;
    let arc = node.compared.arc_data.is_some();
    gate(blockers, arc && facts.partial_sweep, "an elliptical arc (partial arcData sweep)");
    gate(blockers, arc && facts.ring, "a ring (arcData innerRadius)");
    let fixed = match constraints {
        Some(k) => k.sizing_h == AxisSizing::Fixed && k.sizing_v == AxisSizing::Fixed,
        None => true,
    };
    gate(blockers, !fixed, "a non-fixed-size ellipse");
    let boxed = node.absolute_bounding_box.is_some();
    gate(blockers, boxed && !facts.circular, "a non-circular ellipse (unequal extents)");
    assert(strings_view(blockers@) =~= b0 + ellipse_gates(*node, constraints));
    if boxed && facts.circular {
        facts.radius
    } else {
        0u32
    }
}

#[verifier::rlimit(90)]
pub fn ellipse_paint(
    node: &FigmaNode,
    constraints: Option<LayoutConstraints>,
    path: &str,
    policy: EmitPolicy,
    images: &Vec<IdentifiedImage>,
    image_of: &mut Vec<(String, u32)>,
    doc: &mut Document,
    blockers: &mut Vec<String>,
    Ghost(dedup): Ghost<GeometryDedupView>,
) -> (r: Result<Option<PaintEntry>, CompileError>)
    requires
        old(doc).assets@.len() + node.fills@.len() < u32::MAX,
    ensures
        ({
            let o = ellipse_paint_spec(
                *node,
                constraints,
                path@,
                #[verifier::truncate] (old(doc).nodes@.len() as u32),
                images@,
                cache_view(old(image_of)@),
                digests_of(old(doc).assets@),
                policy,
                old(blockers)@.len(),
                dedup,
            );
            &&& cache_view(final(image_of)@) == o.cache
            &&& digests_of(final(doc).assets@) == o.digests
            &&& match o.result {
                Err(e) => r matches Err(x) && x@ == e,
                Ok(p) => r matches Ok(q) && entry_view(q) == p && strings_view(final(blockers)@)
                    == strings_view(old(blockers)@) + o.added,
            }
        }),
        same_but_assets(*final(doc), *old(doc)),
        cache_in_pool(cache_view(old(image_of)@), old(doc).assets@.len()) ==> cache_in_pool(
            cache_view(final(image_of)@),
            final(doc).assets@.len(),
        ),
        from_images(old(doc).assets@, images@) ==> from_images(final(doc).assets@, images@),
{
    let ghost b0 = strings_view(blockers@);
    let radius = gates_of(node, constraints, blockers);
    let ghost bg = strings_view(blockers@);
    let fill = match fill_of(node, path, policy, images, image_of, doc, blockers) {
        Ok(f) => f,
        Err(e) => return Err(e),
    };
    let ghost b1 = strings_view(blockers@);
    let stroke = stroke_of(node, blockers);
    let (shadows, blurs) = effects_of(&node.effects, blockers);
    proof {
        let run = fills_run(
            node.fills@,
            path@,
            #[verifier::truncate] (old(doc).nodes@.len() as u32),
            images@,
            cache_view(old(image_of)@),
            digests_of(old(doc).assets@),
            policy,
        );
        let g = ellipse_gates(*node, constraints);
        let fb = fills_blockers(run, old(blockers)@.len() + g.len(), path@);
        let more = one_if(shown_count(node.fills@) >= 2, "more than one visible fill"@);
        assert(b0 + (g + fb + more + stroke_findings(*node) + shadows_spec(node.effects@).1) =~= b0 + g + fb
            + more + stroke_findings(*node) + shadows_spec(node.effects@).1);
    }
    if fill.is_none() && stroke.is_none() && shadows.len() == 0 && blurs.len() == 0 {
        return Ok(None);
    }
    let entry = PaintEntry {
        fill,
        extra_fills: Vec::new(),
        stroke,
        corners: Corners { top_left: radius, top_right: radius, bottom_right: radius, bottom_left: radius },
        shadows,
        blurs,
        clip: false,
        shape_field: None,
    };
    proof {
        assert(fills_view(entry.extra_fills@) =~= Seq::<FillSpecView>::empty());
    }
    Ok(Some(entry))
}

// ---- a baked vector -----------------------------------------------------------

/// Why the contours `gs` cannot bake as one field, if they cannot: there
/// are none, or they do not share one known winding rule.
pub open spec fn field_problem(gs: Seq<Geometry>) -> Option<Seq<char>> {
    if gs.len() == 0 {
        Some("a vector with no path geometry"@)
    } else {
        match winding_fold(gs) {
            Err(e) => Some(e),
            Ok(_) => None,
        }
    }
}

/// One contour more of a winding fold: the rule so far, or the refusal
/// this contour meets.
fn winding_step(winding: Option<WindingRule>, g: &Geometry, Ghost(gs): Ghost<Seq<Geometry>>) -> (r: Result<
    Option<WindingRule>,
    String,
>)
    requires
        gs.len() > 0,
        gs.last() == *g,
        winding_fold(gs.drop_last()) == Ok::<Option<WindingRule>, Seq<char>>(winding),
    ensures
        match r {
            Ok(w) => winding_fold(gs) == Ok::<Option<WindingRule>, Seq<char>>(w),
            Err(e) => winding_fold(gs) == Err::<Option<WindingRule>, Seq<char>>(e@),
        },
{
    let w = &g.winding_rule;
    let rule = if w.is_none() || field_is(w, "NONZERO") {
        WindingRule::NonZero
    } else if field_is(w, "EVENODD") {
        WindingRule::EvenOdd
    } else {
        let mut e = string_of("a vector with winding rule ");
        match w {
            Some(t) => push_str(&mut e, t.as_str()),
            None => {},
        }
        return Err(e);
    };
    match winding {
        None => Ok(Some(rule)),
        Some(prev) => if prev != rule {
            Err(string_of("a vector with mixed per-contour winding rules"))
        } else {
            Ok(Some(prev))
        },
    }
}

/// `field_problem` of `a` followed by `b`, read in place.
fn field_problem_of(a: &Vec<Geometry>, b: &Vec<Geometry>) -> (r: Option<String>)
    ensures
        match r {
            Some(e) => field_problem(a@ + b@) == Some(e@),
            None => field_problem(a@ + b@) is None,
        },
{
    let ghost gs = a@ + b@;
    if a.len() == 0 && b.len() == 0 {
        return Some(string_of("a vector with no path geometry"));
    }
    let mut winding: Option<WindingRule> = None;
    let mut i: usize = 0;
    proof {
        assert(a@.take(0) =~= Seq::<Geometry>::empty());
    }
    while i < a.len()
        invariant
            i <= a@.len(),
            gs == a@ + b@,
            winding_fold(a@.take(i as int)) == Ok::<Option<WindingRule>, Seq<char>>(winding),
        decreases a@.len() - i,
    {
        proof {
            assert(a@.take(i + 1).drop_last() =~= a@.take(i as int));
        }
        match winding_step(winding, &a[i], Ghost(a@.take(i + 1))) {
            Ok(w) => {
                winding = w;
            },
            Err(e) => {
                proof {
                    assert(gs.take(i + 1) =~= a@.take(i + 1));
                    lemma_prefix_error_stays(gs, i + 1);
                }
                return Some(e);
            },
        }
        i = i + 1;
    }
    let mut j: usize = 0;
    proof {
        assert(a@.take(i as int) =~= a@);
        assert(gs.take(a@.len() as int) =~= a@);
    }
    while j < b.len()
        invariant
            j <= b@.len(),
            gs == a@ + b@,
            winding_fold(gs.take(a@.len() + j)) == Ok::<Option<WindingRule>, Seq<char>>(winding),
        decreases b@.len() - j,
    {
        let ghost t = gs.take(a@.len() + j + 1);
        proof {
            assert(t.drop_last() =~= gs.take(a@.len() + j));
            assert(t.last() == b@[j as int]);
        }
        match winding_step(winding, &b[j], Ghost(t)) {
            Ok(w) => {
                winding = w;
            },
            Err(e) => {
                proof {
                    lemma_prefix_error_stays(gs, a@.len() + j + 1);
                }
                return Some(e);
            },
        }
        j = j + 1;
    }
    proof {
        assert(gs.take(a@.len() + j) =~= gs);
    }
    None
}

/// The dedup after a new shape's geometry is recorded.
pub open spec fn recorded(d: GeometryDedupView, key: Seq<u64>, hash: u64) -> GeometryDedupView {
    GeometryDedupView {
        keys: d.keys.push(key),
        seen: if bucket_of(d.seen, hash) is Some {
            d.seen
        } else {
            d.seen.push((hash, d.keys.len() as u32))
        },
    }
}

/// Baking one selection against the dedup: identical geometry already
/// baked shares its shape; otherwise the path must parse and the field
/// bake, and the new shape is recorded. A refusal is its sentence.
pub open spec fn bake_spec(b: Bake, d: GeometryDedupView) -> (Result<u32, Seq<char>>, GeometryDedupView) {
    match b.key {
        Err(e) => (Err(vector_refusal(e@)), d),
        Ok((key, hash)) => match lookup_of(d, key@, hash) {
            Lookup::Hit(i) => (Ok(i), d),
            _ => match b.baked {
                Err(e) => (Err(vector_refusal(e@)), d),
                Ok(_) => (Ok(d.keys.len() as u32), recorded(d, key@, hash)),
            },
        },
    }
}

fn bake(b: &Bake, dedup: &mut GeometryDedup) -> (r: Result<u32, String>)
    requires
        old(dedup).wf(),
        old(dedup)@.keys.len() < u32::MAX,
    ensures
        final(dedup).wf(),
        ({
            let (o, d) = bake_spec(*b, old(dedup)@);
            &&& final(dedup)@ == d
            &&& match o {
                Ok(i) => r matches Ok(j) && j == i,
                Err(w) => r matches Err(m) && m@ == w,
            }
        }),
{
    match &b.key {
        Err(e) => Err(vector_field_blocker(e)),
        Ok((key, hash)) => match dedup.find(key, *hash) {
            Lookup::Hit(i) => Ok(i),
            _ => match &b.baked {
                Err(e) => Err(vector_field_blocker(e)),
                Ok(()) => {
                    let k = copy_key(key);
                    let i = dedup.record(k, *hash);
                    Ok(i)
                },
            },
        },
    }
}

fn copy_key(key: &Vec<u64>) -> (k: Vec<u64>)
    ensures
        k@ == key@,
{
    let mut k: Vec<u64> = Vec::new();
    let mut i: usize = 0;
    while i < key.len()
        invariant
            i <= key@.len(),
            k@ == key@.take(i as int),
        decreases key@.len() - i,
    {
        k.push(key[i]);
        i = i + 1;
        assert(k@ =~= key@.take(i as int));
    }
    assert(key@.take(i as int) =~= key@);
    k
}

pub open spec fn same_color(a: Color, b: Color) -> bool {
    f32_equal(a.r, b.r) && f32_equal(a.g, b.g) && f32_equal(a.b, b.b) && f32_equal(a.a, b.a)
}

/// Whether a vector's sole fill and its stroke paint one colour, as the
/// reader worked each out.
pub open spec fn fill_stroke_same(n: FigmaNode, stroke: int) -> bool {
    let fi = last_shown(n.fills@);
    &&& 0 <= fi < n.facts.fill_colors@.len()
    &&& 0 <= stroke < n.facts.stroke_colors@.len()
    &&& n.facts.fill_colors@[fi] matches Some(a)
    &&& n.facts.stroke_colors@[stroke] matches Some(b)
    &&& same_color(a, b)
}

fn same_colors(node: &FigmaNode, fi: usize, stroke: usize) -> (r: bool)
    requires
        fi as int == last_shown(node.fills@),
    ensures
        r == fill_stroke_same(*node, stroke as int),
{
    if fi >= node.facts.fill_colors.len() || stroke >= node.facts.stroke_colors.len() {
        return false;
    }
    match (node.facts.fill_colors[fi], node.facts.stroke_colors[stroke]) {
        (Some(a), Some(b)) => f32_equal_exec(a.r, b.r) && f32_equal_exec(a.g, b.g) && f32_equal_exec(a.b, b.b)
            && f32_equal_exec(a.a, b.a),
        _ => false,
    }
}

/// What a vector bakes: its geometry, the fill that paints it, and the
/// bake of that selection; or the refusal of a fill and stroke that do
/// not union; or nothing, with no ink at all.
pub open spec fn vector_choice(n: FigmaNode, fill: Option<FillSpecView>) -> Option<
    Result<(Seq<Geometry>, FillSpecView, Bake), Seq<char>>,
> {
    let fg = n.compared.fill_geometry@;
    let sg = n.compared.stroke_geometry@;
    match (fill, stroke_intent(n)) {
        (None, None) => None,
        (Some(f), None) => Some(Ok((fg + Seq::empty(), f, n.facts.bakes.fill))),
        (None, Some((sp, _))) => Some(
            Ok(
                (
                    sg + Seq::empty(),
                    FillSpecView::Solid { color: n.strokes@[sp].color->0, opacity: n.strokes@[sp].opacity },
                    n.facts.bakes.stroke,
                ),
            ),
        ),
        (Some(f), Some((sp, _))) => if !(f is Solid) {
            Some(Err("a vector with a non-solid fill and a stroke"@))
        } else if !fill_stroke_same(n, sp) {
            Some(Err("a vector with a differently-coloured fill and stroke"@))
        } else {
            Some(Ok((fg + sg, f, n.facts.bakes.both)))
        },
    }
}

/// A baked vector's paint: its sole fill and its stroke decide what bakes,
/// the selection must be fieldable, and the bake shares or records a shape
/// that masks the entry; it carries its blurs and never a stroke, a corner
/// or a shadow.
pub open spec fn vector_paint_spec(
    n: FigmaNode,
    path: Seq<char>,
    index: u32,
    images: Seq<IdentifiedImage>,
    cache: Seq<(Seq<char>, u32)>,
    digests: Seq<Seq<u8>>,
    policy: EmitPolicy,
    had: nat,
    dedup: GeometryDedupView,
) -> PaintOutcome {
    let run = fills_run(n.fills@, path, index, images, cache, digests, policy);
    match fills_error(run, had, path) {
        Some(e) => PaintOutcome {
            result: Err(e),
            cache: run.cache,
            digests: run.digests,
            added: fills_blockers(run, had, path),
            dedup,
        },
        None => {
            let base = fills_blockers(run, had, path) + one_if(
                shown_count(n.fills@) >= 2,
                "more than one visible fill"@,
            ) + stroke_findings(n);
            let none = PaintOutcome { result: Ok(None), cache: run.cache, digests: run.digests, added: base, dedup };
            match vector_choice(n, sole_fill_spec(n, run.lowered)) {
                None => none,
                Some(Err(w)) => PaintOutcome { added: base.push(w), ..none },
                Some(Ok((g, pf, b))) => match field_problem(g) {
                    Some(w) => PaintOutcome { added: base.push(w), ..none },
                    None => {
                        let (o, d2) = bake_spec(b, dedup);
                        match o {
                            Err(w) => PaintOutcome { added: base.push(w), ..none },
                            Ok(i) => PaintOutcome {
                                result: Ok(
                                    Some(
                                        PaintEntryView {
                                            fill: Some(pf),
                                            extra_fills: Seq::empty(),
                                            stroke: None,
                                            corners: Corners {
                                                top_left: 0,
                                                top_right: 0,
                                                bottom_right: 0,
                                                bottom_left: 0,
                                            },
                                            shadows: Seq::empty(),
                                            blurs: blurs_spec(n.effects@),
                                            clip: false,
                                            shape_field: Some(i),
                                        },
                                    ),
                                ),
                                dedup: d2,
                                ..none
                            },
                        }
                    },
                },
            }
        },
    }
}

fn push_blocker(blockers: &mut Vec<String>, w: String)
    ensures
        strings_view(final(blockers)@) == strings_view(old(blockers)@).push(w@),
{
    let ghost before = blockers@;
    let ghost wv = w@;
    blockers.push(w);
    assert(strings_view(blockers@) =~= strings_view(before).push(wv));
}

#[verifier::rlimit(60)]
pub fn vector_paint(
    node: &FigmaNode,
    path: &str,
    policy: EmitPolicy,
    images: &Vec<IdentifiedImage>,
    image_of: &mut Vec<(String, u32)>,
    doc: &mut Document,
    blockers: &mut Vec<String>,
    dedup: &mut GeometryDedup,
) -> (r: Result<Option<PaintEntry>, CompileError>)
    requires
        old(doc).assets@.len() + node.fills@.len() < u32::MAX,
        old(dedup).wf(),
        old(dedup)@.keys.len() < u32::MAX,
    ensures
        final(dedup).wf(),
        ({
            let o = vector_paint_spec(
                *node,
                path@,
                #[verifier::truncate] (old(doc).nodes@.len() as u32),
                images@,
                cache_view(old(image_of)@),
                digests_of(old(doc).assets@),
                policy,
                old(blockers)@.len(),
                old(dedup)@,
            );
            &&& cache_view(final(image_of)@) == o.cache
            &&& digests_of(final(doc).assets@) == o.digests
            &&& final(dedup)@ == o.dedup
            &&& match o.result {
                Err(e) => r matches Err(x) && x@ == e,
                Ok(p) => r matches Ok(q) && entry_view(q) == p && strings_view(final(blockers)@)
                    == strings_view(old(blockers)@) + o.added,
            }
        }),
        same_but_assets(*final(doc), *old(doc)),
        cache_in_pool(cache_view(old(image_of)@), old(doc).assets@.len()) ==> cache_in_pool(
            cache_view(final(image_of)@),
            final(doc).assets@.len(),
        ),
        from_images(old(doc).assets@, images@) ==> from_images(final(doc).assets@, images@),
{
    let ghost b0 = strings_view(blockers@);
    let fill = match fill_of(node, path, policy, images, image_of, doc, blockers) {
        Ok(f) => f,
        Err(e) => return Err(e),
    };
    let stroke = stroke_of(node, blockers);
    proof {
        let run = fills_run(
            node.fills@,
            path@,
            #[verifier::truncate] (old(doc).nodes@.len() as u32),
            images@,
            cache_view(old(image_of)@),
            digests_of(old(doc).assets@),
            policy,
        );
        let fb = fills_blockers(run, old(blockers)@.len(), path@);
        let more = one_if(shown_count(node.fills@) >= 2, "more than one visible fill"@);
        assert(b0 + (fb + more + stroke_findings(*node)) =~= b0 + fb + more + stroke_findings(*node));
    }
    let empty: Vec<Geometry> = Vec::new();
    let fg = &node.compared.fill_geometry;
    let sg = &node.compared.stroke_geometry;
    let (first, second, paint_fill, chosen): (&Vec<Geometry>, &Vec<Geometry>, FillSpec, &Bake) = match (
        fill,
        stroke,
    ) {
        (None, None) => return Ok(None),
        (Some(f), None) => (fg, &empty, f, &node.facts.bakes.fill),
        (None, Some(s)) => {
            proof {
                crate::walk::lemma_last_shown(node.strokes@);
            }
            let color = match node.strokes[s.paint].color {
                Some(c) => c,
                None => {
                    assert(false);
                    return Ok(None);
                },
            };
            (sg, &empty, FillSpec::Solid { color, opacity: node.strokes[s.paint].opacity }, &node.facts.bakes.stroke)
        },
        (Some(f), Some(s)) => {
            let solid = match &f {
                FillSpec::Solid { .. } => true,
                _ => false,
            };
            if !solid {
                push_blocker(blockers, string_of("a vector with a non-solid fill and a stroke"));
                return Ok(None);
            }
            let fi = match single_visible_paint(&node.fills) {
                OnePaint::One(i) => i,
                _ => {
                    assert(false);
                    return Ok(None);
                },
            };
            if !same_colors(node, fi, s.paint) {
                push_blocker(blockers, string_of("a vector with a differently-coloured fill and stroke"));
                return Ok(None);
            }
            (fg, sg, f, &node.facts.bakes.both)
        },
    };
    proof {
        assert(empty@ =~= Seq::<Geometry>::empty());
    }
    match field_problem_of(first, second) {
        Some(w) => {
            push_blocker(blockers, w);
            return Ok(None);
        },
        None => {},
    }
    let shape = match bake(chosen, dedup) {
        Ok(i) => i,
        Err(w) => {
            push_blocker(blockers, w);
            return Ok(None);
        },
    };
    let (_, blurs) = effects_of_quiet(&node.effects);
    let entry = PaintEntry {
        fill: Some(paint_fill),
        extra_fills: Vec::new(),
        stroke: None,
        corners: Corners { top_left: 0, top_right: 0, bottom_right: 0, bottom_left: 0 },
        shadows: Vec::new(),
        blurs,
        clip: false,
        shape_field: Some(shape),
    };
    proof {
        assert(fills_view(entry.extra_fills@) =~= Seq::<FillSpecView>::empty());
        assert(entry.shadows@ =~= Seq::<usize>::empty());
    }
    Ok(Some(entry))
}

/// A node's backdrop blurs, by index, in effect order.
fn effects_of_quiet(effects: &Vec<FigmaEffect>) -> (r: ((), Vec<usize>))
    ensures
        r.1@ == blurs_spec(effects@),
{
    let mut blurs: Vec<usize> = Vec::new();
    let mut i: usize = 0;
    proof {
        assert(effects@.take(0) =~= Seq::<FigmaEffect>::empty());
    }
    while i < effects.len()
        invariant
            i <= effects@.len(),
            blurs@ == blurs_spec(effects@.take(i as int)),
        decreases effects@.len() - i,
    {
        let e = &effects[i];
        let shown = match e.visible {
            Some(v) => v,
            None => true,
        };
        proof {
            assert(effects@.take(i + 1).drop_last() =~= effects@.take(i as int));
            assert(effects@.take(i + 1).last() == effects@[i as int]);
        }
        if shown && crate::text::str_eq(e.kind.as_str(), "BACKGROUND_BLUR") {
            blurs.push(i);
        }
        i = i + 1;
    }
    proof {
        assert(effects@.take(i as int) =~= effects@);
    }
    ((), blurs)
}

} // verus!
