//! Figma constructs outside the profile's supported band, mapped onto the
//! validator's `Construct`, and the effects the document cannot express at
//! all, named.
use vstd::prelude::*;

use crate::diagnostics::Construct;
use crate::figma::{holds, is_positive_corner, FigmaEffect, FigmaNode, FigmaPaint};
use crate::text::{push_str, str_eq, string_of, strings_view};

verus! {

/// `PASS_THROUGH` is a frame's default and `NORMAL` a paint's; anything
/// else is an advanced blend mode.
pub open spec fn plain_blend(mode: Option<String>) -> bool {
    mode is None || holds(mode, "NORMAL"@) || holds(mode, "PASS_THROUGH"@)
}

pub fn is_plain_blend(mode: &Option<String>) -> (r: bool)
    ensures
        r == plain_blend(*mode),
{
    match mode {
        None => true,
        Some(m) => str_eq(m.as_str(), "NORMAL") || str_eq(m.as_str(), "PASS_THROUGH"),
    }
}

/// What one effect earns: nothing when the schema carries it as it is (a
/// drop or inner shadow with no advanced blend), a construct the validator
/// triages, or the name of an effect the schema cannot carry.
pub open spec fn effect_verdict(e: FigmaEffect) -> Option<Result<Construct, Seq<char>>> {
    let k = e.kind@;
    if k == "NOISE"@ || k == "TEXTURE"@ {
        Some(Ok(Construct::NoiseOrTextureEffect))
    } else if k == "LAYER_BLUR"@ {
        Some(
            Ok(
                if holds(e.blur_type, "PROGRESSIVE"@) {
                    Construct::ProgressiveBlur
                } else {
                    Construct::LayerBlur
                },
            ),
        )
    } else if k == "BACKGROUND_BLUR"@ {
        Some(Ok(Construct::BackdropBlur))
    } else if k == "DROP_SHADOW"@ || k == "INNER_SHADOW"@ {
        if plain_blend(e.blend_mode) {
            None
        } else {
            Some(Ok(Construct::AdvancedBlendMode))
        }
    } else {
        Some(Err("effect "@ + k))
    }
}

pub fn effect_construct(effect: &FigmaEffect) -> (r: Option<Result<Construct, String>>)
    ensures
        match r {
            None => effect_verdict(*effect) is None,
            Some(Ok(c)) => effect_verdict(*effect) == Some(Ok::<Construct, Seq<char>>(c)),
            Some(Err(s)) => effect_verdict(*effect) == Some(Err::<Construct, Seq<char>>(s@)),
        },
{
    let k = effect.kind.as_str();
    if str_eq(k, "NOISE") || str_eq(k, "TEXTURE") {
        Some(Ok(Construct::NoiseOrTextureEffect))
    } else if str_eq(k, "LAYER_BLUR") {
        let progressive = match &effect.blur_type {
            Some(b) => str_eq(b.as_str(), "PROGRESSIVE"),
            None => false,
        };
        Some(Ok(if progressive { Construct::ProgressiveBlur } else { Construct::LayerBlur }))
    } else if str_eq(k, "BACKGROUND_BLUR") {
        Some(Ok(Construct::BackdropBlur))
    } else if str_eq(k, "DROP_SHADOW") || str_eq(k, "INNER_SHADOW") {
        if is_plain_blend(&effect.blend_mode) {
            None
        } else {
            Some(Ok(Construct::AdvancedBlendMode))
        }
    } else {
        let mut what = string_of("effect ");
        push_str(&mut what, k);
        Some(Err(what))
    }
}

/// The verdicts of the visible effects among `es`, in order.
pub open spec fn effects_fold(es: Seq<FigmaEffect>) -> (Seq<Construct>, Seq<Seq<char>>)
    decreases es.len(),
{
    if es.len() == 0 {
        (seq![], seq![])
    } else {
        let prev = effects_fold(es.drop_last());
        let e = es.last();
        if e.visible == Some(false) {
            prev
        } else {
            match effect_verdict(e) {
                None => prev,
                Some(Ok(c)) => (prev.0.push(c), prev.1),
                Some(Err(w)) => (prev.0, prev.1.push(w)),
            }
        }
    }
}

/// An advanced blend mode for each visible paint among `ps` that has one.
pub open spec fn paints_fold(ps: Seq<FigmaPaint>) -> Seq<Construct>
    decreases ps.len(),
{
    if ps.len() == 0 {
        seq![]
    } else {
        let prev = paints_fold(ps.drop_last());
        let p = ps.last();
        if p.visible != Some(false) && !plain_blend(p.blend_mode) {
            prev.push(Construct::AdvancedBlendMode)
        } else {
            prev
        }
    }
}

pub open spec fn constructs_spec(node: &FigmaNode) -> (Seq<Construct>, Seq<Seq<char>>) {
    let effects = effects_fold(node.effects@);
    let node_blend = if plain_blend(node.blend_mode) {
        seq![]
    } else {
        seq![Construct::AdvancedBlendMode]
    };
    let smoothing = if is_positive_corner(node.corner_smoothing) {
        seq![Construct::CornerSmoothing]
    } else {
        seq![]
    };
    (effects.0 + node_blend + paints_fold(node.fills@ + node.strokes@) + smoothing, effects.1)
}

/// The advanced blend modes among `paints`, appended to `found`.
fn triage_paints(paints: &Vec<FigmaPaint>, found: &mut Vec<Construct>)
    ensures
        final(found)@ == old(found)@ + paints_fold(paints@),
{
    let ghost base = found@;
    let mut i: usize = 0;
    proof {
        assert(paints@.take(0) =~= Seq::<FigmaPaint>::empty());
        assert(base + seq![] =~= base);
    }
    while i < paints.len()
        invariant
            i <= paints@.len(),
            found@ == base + paints_fold(paints@.take(i as int)),
        decreases paints@.len() - i,
    {
        proof {
            assert(paints@.take(i + 1).drop_last() =~= paints@.take(i as int));
            assert(paints@.take(i + 1).last() == paints@[i as int]);
        }
        let p = &paints[i];
        let hidden = match p.visible {
            Some(v) => !v,
            None => false,
        };
        if !hidden && !is_plain_blend(&p.blend_mode) {
            found.push(Construct::AdvancedBlendMode);
            proof {
                assert(found@ =~= base + paints_fold(paints@.take(i + 1)));
            }
        }
        i = i + 1;
    }
    proof {
        assert(paints@.take(i as int) =~= paints@);
    }
}

proof fn lemma_paints_fold_append(a: Seq<FigmaPaint>, b: Seq<FigmaPaint>)
    ensures
        paints_fold(a + b) == paints_fold(a) + paints_fold(b),
    decreases b.len(),
{
    if b.len() == 0 {
        assert(a + b =~= a);
        assert(paints_fold(a) + seq![] =~= paints_fold(a));
    } else {
        assert((a + b).drop_last() =~= a + b.drop_last());
        lemma_paints_fold_append(a, b.drop_last());
        assert((a + b).last() == b.last());
        let prev = paints_fold(a) + paints_fold(b.drop_last());
        assert(prev.push(Construct::AdvancedBlendMode) =~= paints_fold(a) + paints_fold(b.drop_last()).push(
            Construct::AdvancedBlendMode,
        ));
    }
}

/// The out-of-profile constructs `node` carries, and the effects the
/// document cannot express at all. Both lists come back from one pass, so
/// a node carrying one of each reports both.
pub fn constructs_of(node: &FigmaNode) -> (r: (Vec<Construct>, Vec<String>))
    ensures
        r.0@ == constructs_spec(node).0,
        strings_view(r.1@) == constructs_spec(node).1,
{
    let mut found: Vec<Construct> = Vec::new();
    let mut unsupported: Vec<String> = Vec::new();
    let mut i: usize = 0;
    proof {
        assert(node.effects@.take(0) =~= Seq::<FigmaEffect>::empty());
        assert(strings_view(unsupported@) =~= Seq::<Seq<char>>::empty());
    }
    while i < node.effects.len()
        invariant
            i <= node.effects@.len(),
            found@ == effects_fold(node.effects@.take(i as int)).0,
            strings_view(unsupported@) == effects_fold(node.effects@.take(i as int)).1,
        decreases node.effects@.len() - i,
    {
        proof {
            assert(node.effects@.take(i + 1).drop_last() =~= node.effects@.take(i as int));
            assert(node.effects@.take(i + 1).last() == node.effects@[i as int]);
        }
        let effect = &node.effects[i];
        let hidden = match effect.visible {
            Some(v) => !v,
            None => false,
        };
        if !hidden {
            match effect_construct(effect) {
                None => {},
                Some(Ok(construct)) => found.push(construct),
                Some(Err(what)) => {
                    let ghost before = unsupported@;
                    let ghost wv = what@;
                    unsupported.push(what);
                    proof {
                        assert(strings_view(unsupported@) =~= strings_view(before).push(wv));
                    }
                },
            }
        }
        i = i + 1;
    }
    proof {
        assert(node.effects@.take(i as int) =~= node.effects@);
    }
    let ghost after_effects = found@;
    if !is_plain_blend(&node.blend_mode) {
        found.push(Construct::AdvancedBlendMode);
    }
    let ghost after_node = found@;
    triage_paints(&node.fills, &mut found);
    triage_paints(&node.strokes, &mut found);
    let positive = match node.corner_smoothing {
        Some(b) => 0 < b && b <= 0x7f80_0000,
        None => false,
    };
    if positive {
        found.push(Construct::CornerSmoothing);
    }
    proof {
        lemma_paints_fold_append(node.fills@, node.strokes@);
        assert(found@ =~= constructs_spec(node).0);
    }
    (found, unsupported)
}

/// A hidden effect or a hidden paint triages to nothing: adding one to a
/// node changes neither list.
pub proof fn hidden_entries_triage_to_nothing(es: Seq<FigmaEffect>, e: FigmaEffect, ps: Seq<FigmaPaint>, p: FigmaPaint)
    requires
        e.visible == Some(false),
        p.visible == Some(false),
    ensures
        effects_fold(es.push(e)) == effects_fold(es),
        paints_fold(ps.push(p)) == paints_fold(ps),
{
    assert(es.push(e).drop_last() =~= es);
    assert(ps.push(p).drop_last() =~= ps);
}

} // verus!
