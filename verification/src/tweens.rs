//! The transitions of a variant table and what a set says about its motion.
//! The document carries one transition per destination, so where two
//! declarations disagree the later one is kept and the destination is named
//! as contended; two declarations of the same transition lose nothing. Only
//! the four rect channels animate: a set differing elsewhere names each such
//! prop, and a set differing on no rect channel names that its transition
//! has nothing to animate. The table's tracks and each member's overrides
//! are laid out layer by layer, and a fill difference is carried only as a
//! single solid on a node that paints.
use vstd::prelude::*;

use crate::figma::{derefs, FigmaNode};
use crate::prototype::{Easing, Switch, SwitchView};
use crate::seqs::{first_match, lemma_first_match, lemma_first_match_at, lemma_first_match_none};
use crate::diagnostics::{Diagnostic, DiagnosticView, Location, LocationView, NodePath, Severity};
use crate::document::{BindingChannel, Color};
use crate::walk::{last_shown, shown_count, single_visible_paint, OnePaint};
use crate::echo::UNSUPPORTED_MOTION;
use crate::text::{opt_chars, push_str, str_eq, string_of, strings_view};

verus! {

/// Whether a single-precision bit pattern is a NaN.
pub open spec fn is_nan_bits(b: u32) -> bool {
    (0x7f80_0000 < b && b < 0x8000_0000) || 0xff80_0000 < b
}

/// Whether a single-precision bit pattern is a zero of either sign.
pub open spec fn is_zero_bits(b: u32) -> bool {
    b == 0 || b == 0x8000_0000
}

/// IEEE-754 equality of two single-precision values given by their bit
/// patterns: a NaN equals nothing, the two zeros are equal, and otherwise
/// two values are equal exactly when their bits are.
pub open spec fn f32_equal(a: u32, b: u32) -> bool {
    !is_nan_bits(a) && !is_nan_bits(b) && (a == b || (is_zero_bits(a) && is_zero_bits(b)))
}

pub(crate) fn f32_equal_exec(a: u32, b: u32) -> (r: bool)
    ensures
        r == f32_equal(a, b),
{
    let nan_a = (0x7f80_0000 < a && a < 0x8000_0000) || 0xff80_0000 < a;
    let nan_b = (0x7f80_0000 < b && b < 0x8000_0000) || 0xff80_0000 < b;
    !nan_a && !nan_b && (a == b || ((a == 0 || a == 0x8000_0000) && (b == 0 || b == 0x8000_0000)))
}

/// Whether two transitions are the same: both absent, or the same duration
/// (as floats compare) and curve.
pub open spec fn same_tween(a: Option<(u32, Easing)>, b: Option<(u32, Easing)>) -> bool {
    match (a, b) {
        (None, None) => true,
        (Some((d1, e1)), Some((d2, e2))) => f32_equal(d1, d2) && e1 == e2,
        _ => false,
    }
}

fn same_tween_exec(a: Option<(u32, Easing)>, b: Option<(u32, Easing)>) -> (r: bool)
    ensures
        r == same_tween(a, b),
{
    match (a, b) {
        (None, None) => true,
        (Some((d1, e1)), Some((d2, e2))) => f32_equal_exec(d1, d2) && e1 == e2,
        _ => false,
    }
}

/// Whether a member has the Figma id `id`.
pub open spec fn has_id(id: Seq<char>) -> spec_fn(FigmaNode) -> bool {
    |m: FigmaNode| opt_chars(m.id) == Some(id)
}

/// The position among `members` of the member with id `id`.
pub fn position_of(members: &[&FigmaNode], id: &String) -> (r: Option<usize>)
    ensures
        match r {
            Some(k) => first_match(derefs(members@), has_id(id@)) == Some(k as int),
            None => first_match(derefs(members@), has_id(id@)) is None,
        },
{
    let ghost ms = derefs(members@);
    let mut k: usize = 0;
    while k < members.len()
        invariant
            k <= members@.len(),
            ms == derefs(members@),
            forall|j: int| 0 <= j < k ==> !(has_id(id@))(#[trigger] ms[j]),
        decreases members@.len() - k,
    {
        let hit = match &members[k].id {
            Some(m) => str_eq(m.as_str(), id.as_str()),
            None => false,
        };
        proof {
            assert(ms[k as int] == *members@[k as int]);
        }
        if hit {
            proof {
                lemma_first_match_at(ms, has_id(id@), k as int);
            }
            return Some(k);
        }
        k = k + 1;
    }
    proof {
        lemma_first_match_none(ms, has_id(id@));
    }
    None
}

/// What each member (by position) has been declared with so far: the kept
/// transition, and whether a different one was displaced.
pub open spec fn declared(members: Seq<FigmaNode>, switches: Seq<SwitchView>) -> Seq<
    Option<(Option<(u32, Easing)>, bool)>,
>
    decreases switches.len(),
{
    if switches.len() == 0 {
        Seq::new(members.len(), |k: int| None)
    } else {
        let st = declared(members, switches.drop_last());
        let sw = switches.last();
        match first_match(members, has_id(sw.destination)) {
            None => st,
            Some(d) => {
                let (kept, contended) = match st[d] {
                    Some(e) => e,
                    None => (sw.tween, false),
                };
                st.update(d, Some((sw.tween, contended || !same_tween(kept, sw.tween))))
            },
        }
    }
}

/// The declared destinations below `upto`, ascending, each with its kept
/// transition.
pub open spec fn kept_entries(st: Seq<Option<(Option<(u32, Easing)>, bool)>>, upto: int) -> Seq<
    (int, Option<(u32, Easing)>),
>
    decreases upto,
{
    if upto <= 0 {
        seq![]
    } else {
        kept_entries(st, upto - 1) + match st[upto - 1] {
            Some((t, _)) => seq![(upto - 1, t)],
            None => seq![],
        }
    }
}

/// The contended destinations below `upto`, ascending.
pub open spec fn contended_entries(st: Seq<Option<(Option<(u32, Easing)>, bool)>>, upto: int) -> Seq<int>
    decreases upto,
{
    if upto <= 0 {
        seq![]
    } else {
        contended_entries(st, upto - 1) + match st[upto - 1] {
            Some((_, true)) => seq![upto - 1],
            _ => seq![],
        }
    }
}

pub open spec fn switch_views(switches: Seq<&Switch>) -> Seq<SwitchView> {
    switches.map_values(|s: &Switch| s@)
}

/// The transition each destination among `members` is declared with by
/// `switches`, later declarations winning, and the destinations where two
/// declarations disagreed; both by member position, ascending. A switch to
/// no member is ignored.
pub fn declared_tweens(members: &[&FigmaNode], switches: &[&Switch]) -> (out: (
    Vec<(usize, Option<(u32, Easing)>)>,
    Vec<usize>,
))
    ensures
        ({
            let st = declared(derefs(members@), switch_views(switches@));
            &&& out.0@.map_values(|e: (usize, Option<(u32, Easing)>)| (e.0 as int, e.1)) == kept_entries(
                st,
                members@.len() as int,
            )
            &&& out.1@.map_values(|d: usize| d as int) == contended_entries(st, members@.len() as int)
        }),
{
    let ghost ms = derefs(members@);
    let ghost sws = switch_views(switches@);
    let mut st: Vec<Option<(Option<(u32, Easing)>, bool)>> = Vec::new();
    let mut k: usize = 0;
    while k < members.len()
        invariant
            k <= members@.len(),
            st@ == Seq::<Option<(Option<(u32, Easing)>, bool)>>::new(k as nat, |j: int| None),
        decreases members@.len() - k,
    {
        st.push(None);
        proof {
            assert(st@ =~= Seq::<Option<(Option<(u32, Easing)>, bool)>>::new((k + 1) as nat, |j: int| None));
        }
        k = k + 1;
    }
    proof {
        assert(sws.take(0) =~= Seq::<SwitchView>::empty());
        assert(ms.len() == members@.len());
    }
    let mut i: usize = 0;
    while i < switches.len()
        invariant
            i <= switches@.len(),
            ms == derefs(members@),
            sws == switch_views(switches@),
            st@ == declared(ms, sws.take(i as int)),
            st@.len() == members@.len(),
        decreases switches@.len() - i,
    {
        let sw = switches[i];
        proof {
            assert(sws.take(i + 1).drop_last() =~= sws.take(i as int));
            assert(sws.take(i + 1).last() == sw@);
        }
        match position_of(members, &sw.destination) {
            None => {},
            Some(d) => {
                proof {
                    lemma_first_match(ms, has_id(sw.destination@));
                }
                let (kept, contended) = match st[d] {
                    Some(e) => e,
                    None => (sw.tween, false),
                };
                let changed = !same_tween_exec(kept, sw.tween);
                st.set(d, Some((sw.tween, contended || changed)));
            },
        }
        i = i + 1;
    }
    proof {
        assert(sws.take(i as int) =~= sws);
    }
    let ghost fin = st@;
    let mut kept: Vec<(usize, Option<(u32, Easing)>)> = Vec::new();
    let mut contended: Vec<usize> = Vec::new();
    let mut j: usize = 0;
    proof {
        assert(kept@.map_values(|e: (usize, Option<(u32, Easing)>)| (e.0 as int, e.1)) =~= kept_entries(fin, 0));
        assert(contended@.map_values(|d: usize| d as int) =~= contended_entries(fin, 0));
    }
    while j < st.len()
        invariant
            j <= st@.len(),
            st@ == fin,
            kept@.map_values(|e: (usize, Option<(u32, Easing)>)| (e.0 as int, e.1)) == kept_entries(fin, j as int),
            contended@.map_values(|d: usize| d as int) == contended_entries(fin, j as int),
        decreases st@.len() - j,
    {
        let ghost k0 = kept@;
        let ghost c0 = contended@;
        match st[j] {
            Some((t, c)) => {
                kept.push((j, t));
                proof {
                    assert(kept@.map_values(|e: (usize, Option<(u32, Easing)>)| (e.0 as int, e.1)) =~= k0.map_values(
                        |e: (usize, Option<(u32, Easing)>)| (e.0 as int, e.1),
                    ).push((j as int, t)));
                }
                if c {
                    contended.push(j);
                    proof {
                        assert(contended@.map_values(|d: usize| d as int) =~= c0.map_values(|d: usize| d as int).push(
                            j as int,
                        ));
                    }
                } else {
                    proof {
                        assert(contended_entries(fin, j + 1) =~= contended_entries(fin, j as int));
                    }
                }
            },
            None => {
                proof {
                    assert(kept_entries(fin, j + 1) =~= kept_entries(fin, j as int));
                    assert(contended_entries(fin, j + 1) =~= contended_entries(fin, j as int));
                }
            },
        }
        j = j + 1;
    }
    (kept, contended)
}

// ------------------------------------------------------------- what a set says about its motion

/// A variant set's rule for a set or instance that lowers no variant table.
pub const UNLOWERABLE_SET: &'static str = "figma.variants.unlowerable-set";

/// An overridable prop, as a key for "what differs where".
#[derive(Clone, Copy, Debug, PartialEq, Eq, Structural)]
pub enum Prop {
    X,
    Y,
    Width,
    Height,
    Fill,
    Visible,
    Rotation,
}

pub open spec fn prop_word(p: Prop) -> Seq<char> {
    match p {
        Prop::X => "x"@,
        Prop::Y => "y"@,
        Prop::Width => "width"@,
        Prop::Height => "height"@,
        Prop::Fill => "fill"@,
        Prop::Visible => "visibility"@,
        Prop::Rotation => "rotation"@,
    }
}

impl Prop {
    /// The word a finding uses for this prop.
    pub fn name(self) -> (w: &'static str)
        ensures
            w@ == prop_word(self),
    {
        match self {
            Prop::X => "x",
            Prop::Y => "y",
            Prop::Width => "width",
            Prop::Height => "height",
            Prop::Fill => "fill",
            Prop::Visible => "visibility",
            Prop::Rotation => "rotation",
        }
    }
}

/// Whether `p` differs at some key of `differing` (each key's differing
/// props).
pub open spec fn differs_on(differing: Seq<Vec<Prop>>, p: Prop) -> bool {
    exists|k: int, j: int| 0 <= k < differing.len() && 0 <= j < differing[k]@.len() && differing[k]@[j] == p
}

/// Whether the set differs on a rect channel anywhere, and so whether a
/// transition into it has anything to animate.
pub open spec fn rect_differs(differing: Seq<Vec<Prop>>) -> bool {
    differs_on(differing, Prop::X) || differs_on(differing, Prop::Y) || differs_on(differing, Prop::Width)
        || differs_on(differing, Prop::Height)
}

fn differs_exec(differing: &Vec<Vec<Prop>>, p: Prop) -> (r: bool)
    ensures
        r == differs_on(differing@, p),
{
    let mut k: usize = 0;
    while k < differing.len()
        invariant
            k <= differing@.len(),
            forall|k2: int, j: int| 0 <= k2 < k && 0 <= j < differing@[k2]@.len() ==> differing@[k2]@[j] != p,
        decreases differing@.len() - k,
    {
        let props = &differing[k];
        let mut j: usize = 0;
        while j < props.len()
            invariant
                k < differing@.len(),
                *props == differing@[k as int],
                j <= props@.len(),
                forall|j2: int| 0 <= j2 < j ==> props@[j2] != p,
            decreases props@.len() - j,
        {
            if props[j] == p {
                return true;
            }
            j = j + 1;
        }
        k = k + 1;
    }
    false
}

/// Whether the set differs on any rect channel.
pub fn animatable(differing: &Vec<Vec<Prop>>) -> (r: bool)
    ensures
        r == rect_differs(differing@),
{
    differs_exec(differing, Prop::X) || differs_exec(differing, Prop::Y) || differs_exec(differing, Prop::Width)
        || differs_exec(differing, Prop::Height)
}

pub open spec fn interpolated_text(p: Prop) -> Seq<char> {
    "the members differ in "@ + prop_word(p)
        + ", which Smart Animate interpolates and a variant transition cannot: only the four rect channels have a seam a runtime can write over (issue #891). The override ships, so the switch changes it in one frame"@
}

pub open spec fn motion_finding(at: LocationView, message: Seq<char>) -> DiagnosticView {
    DiagnosticView { rule: UNSUPPORTED_MOTION@, severity: Severity::Warning, at, message }
}

/// The props that differ on a channel no transition animates, in prop
/// order.
pub open spec fn named_props(differing: Seq<Vec<Prop>>) -> Seq<Prop> {
    (if differs_on(differing, Prop::Fill) {
        seq![Prop::Fill]
    } else {
        seq![]
    }) + (if differs_on(differing, Prop::Visible) {
        seq![Prop::Visible]
    } else {
        seq![]
    }) + (if differs_on(differing, Prop::Rotation) {
        seq![Prop::Rotation]
    } else {
        seq![]
    })
}

pub open spec fn contended_text(member: Seq<char>) -> Seq<char> {
    "more than one layer of this component set declares a CHANGE_TO to \""@ + member
        + "\" with a different transition, and the document carries one transition per destination, so only one of them lowers"@
}

/// What a set says about its motion at `at`: nothing when no switch into it
/// declares a transition; otherwise each prop that differs on a channel no
/// transition animates, then either that the set differs on no rect channel
/// (and nothing more), or each destination two declarations contended.
pub open spec fn set_motion(
    differing: Seq<Vec<Prop>>,
    members: Seq<Seq<char>>,
    at: LocationView,
    animates: bool,
    collisions: Seq<usize>,
) -> Seq<DiagnosticView> {
    if !animates {
        seq![]
    } else {
        let named = named_props(differing).map_values(|p: Prop| motion_finding(at, interpolated_text(p)));
        if !rect_differs(differing) {
            named.push(
                motion_finding(
                    at,
                    "the members differ on no rect channel, so the declared transition has nothing to animate and the switch lands in one frame"@,
                ),
            )
        } else {
            named + collisions.map_values(|m: usize| motion_finding(at, contended_text(members[m as int])))
        }
    }
}

/// A copy of a location.
pub fn copy_location(l: &Location) -> (c: Location)
    ensures
        c@ == l@,
{
    match l {
        Location::Node(p) => Location::Node(NodePath::new(p.index, p.path.clone())),
        Location::PaintEntry(i) => Location::PaintEntry(*i),
        Location::ImageAsset(i) => Location::ImageAsset(*i),
        Location::VariantSet(i) => Location::VariantSet(*i),
        Location::TextStyle(i) => Location::TextStyle(*i),
        Location::Signal(i) => Location::Signal(*i),
        Location::Binding(i) => Location::Binding(*i),
    }
}

fn push_motion(out: &mut Vec<Diagnostic>, at: &Location, message: String)
    ensures
        final(out)@.map_values(|d: Diagnostic| d@) == old(out)@.map_values(|d: Diagnostic| d@).push(
            motion_finding(at@, message@),
        ),
{
    let ghost before = out@;
    out.push(Diagnostic { rule: UNSUPPORTED_MOTION, severity: Severity::Warning, at: copy_location(at), message });
    proof {
        assert(out@.map_values(|d: Diagnostic| d@) =~= before.map_values(|d: Diagnostic| d@).push(
            motion_finding(at@, message@),
        ));
    }
}

/// What a component set whose members are named `members` says about its
/// motion at `at`, given each key's differing props, whether any switch into
/// it declares a transition, and the destinations (member positions) two
/// declarations contended.
pub fn set_diagnostics(
    differing: &Vec<Vec<Prop>>,
    members: &Vec<String>,
    at: &Location,
    animates: bool,
    collisions: &Vec<usize>,
) -> (out: Vec<Diagnostic>)
    requires
        forall|k: int| 0 <= k < collisions@.len() ==> (#[trigger] collisions@[k] as int) < members@.len(),
    ensures
        out@.map_values(|d: Diagnostic| d@) == set_motion(differing@, strings_view(members@), at@, animates, collisions@),
{
    let mut out: Vec<Diagnostic> = Vec::new();
    if !animates {
        proof {
            assert(out@.map_values(|d: Diagnostic| d@) =~= Seq::<DiagnosticView>::empty());
        }
        return out;
    }
    let ghost named = named_props(differing@).map_values(|p: Prop| motion_finding(at@, interpolated_text(p)));
    let candidates = [Prop::Fill, Prop::Visible, Prop::Rotation];
    let mut c: usize = 0;
    proof {
        assert(out@.map_values(|d: Diagnostic| d@) =~= Seq::<DiagnosticView>::empty());
    }
    while c < 3
        invariant
            c <= 3,
            candidates@ == seq![Prop::Fill, Prop::Visible, Prop::Rotation],
            out@.map_values(|d: Diagnostic| d@) == seq![Prop::Fill, Prop::Visible, Prop::Rotation].take(c as int).filter(
                |p: Prop| differs_on(differing@, p),
            ).map_values(|p: Prop| motion_finding(at@, interpolated_text(p))),
        decreases 3 - c,
    {
        let p = candidates[c];
        let ghost all = seq![Prop::Fill, Prop::Visible, Prop::Rotation];
        proof {
            assert(all.take(c + 1) =~= all.take(c as int).push(p));
            reveal(Seq::filter);
            assert(all.take(c + 1).drop_last() =~= all.take(c as int));
        }
        if differs_exec(differing, p) {
            let mut message = string_of("the members differ in ");
            push_str(&mut message, p.name());
            push_str(
                &mut message,
                ", which Smart Animate interpolates and a variant transition cannot: only the four rect channels have a seam a runtime can write over (issue #891). The override ships, so the switch changes it in one frame",
            );
            push_motion(&mut out, at, message);
        }
        c = c + 1;
    }
    proof {
        let all = seq![Prop::Fill, Prop::Visible, Prop::Rotation];
        assert(all.take(3) =~= all);
        reveal_with_fuel(Seq::filter, 4);
        assert(all.filter(|p: Prop| differs_on(differing@, p)) =~= named_props(differing@));
    }
    if !animatable(differing) {
        push_motion(
            &mut out,
            at,
            string_of(
                "the members differ on no rect channel, so the declared transition has nothing to animate and the switch lands in one frame",
            ),
        );
        return out;
    }
    let ghost base = out@.map_values(|d: Diagnostic| d@);
    let mut k: usize = 0;
    while k < collisions.len()
        invariant
            k <= collisions@.len(),
            forall|j: int| 0 <= j < collisions@.len() ==> (#[trigger] collisions@[j] as int) < members@.len(),
            out@.map_values(|d: Diagnostic| d@) == base + collisions@.take(k as int).map_values(
                |m: usize| motion_finding(at@, contended_text(strings_view(members@)[m as int])),
            ),
        decreases collisions@.len() - k,
    {
        let m = collisions[k];
        let mut message = string_of("more than one layer of this component set declares a CHANGE_TO to \"");
        push_str(&mut message, members[m].as_str());
        push_str(
            &mut message,
            "\" with a different transition, and the document carries one transition per destination, so only one of them lowers",
        );
        proof {
            assert(strings_view(members@)[m as int] == members@[m as int]@);
            assert(collisions@.take(k + 1) =~= collisions@.take(k as int).push(m));
        }
        push_motion(&mut out, at, message);
        proof {
            assert(base + collisions@.take(k + 1).map_values(
                |m: usize| motion_finding(at@, contended_text(strings_view(members@)[m as int])),
            ) =~= (base + collisions@.take(k as int).map_values(
                |m: usize| motion_finding(at@, contended_text(strings_view(members@)[m as int])),
            )).push(motion_finding(at@, contended_text(strings_view(members@)[m as int]))));
        }
        k = k + 1;
    }
    proof {
        assert(collisions@.take(k as int) =~= collisions@);
    }
    out
}

/// The finding of a component set that lowers no variant table, for the
/// reason `why`, at `at`.
pub fn set_loss(why: &str, at: Location) -> (d: Diagnostic)
    ensures
        d@ == (DiagnosticView {
            rule: UNLOWERABLE_SET@,
            severity: Severity::Warning,
            at: at@,
            message: why@ + ", so this component set lowers no variant table; its instances still paint the member they show"@,
        }),
{
    let mut message = string_of(why);
    push_str(&mut message, ", so this component set lowers no variant table; its instances still paint the member they show");
    Diagnostic { rule: UNLOWERABLE_SET, severity: Severity::Warning, at, message }
}

/// The finding of an instance whose table could not be expressed against
/// its baked subtree, for the reason `why`, at `at`.
pub fn instance_loss(why: &str, at: Location) -> (d: Diagnostic)
    ensures
        d@ == (DiagnosticView {
            rule: UNLOWERABLE_SET@,
            severity: Severity::Warning,
            at: at@,
            message: why@ + ", so this instance lowers no variant table; its baked subtree still paints"@,
        }),
{
    let mut message = string_of(why);
    push_str(&mut message, ", so this instance lowers no variant table; its baked subtree still paints");
    Diagnostic { rule: UNLOWERABLE_SET, severity: Severity::Warning, at, message }
}

// ------------------------------------------------------------- a variant table's tracks and overrides

/// The tracks of one differing layer: one per rect channel its props hold,
/// in the order x, y, width, height.
pub open spec fn layer_tracks(node: u32, props: Seq<Prop>) -> Seq<(u32, BindingChannel)> {
    (if props.contains(Prop::X) {
        seq![(node, BindingChannel::X)]
    } else {
        seq![]
    }) + (if props.contains(Prop::Y) {
        seq![(node, BindingChannel::Y)]
    } else {
        seq![]
    }) + (if props.contains(Prop::Width) {
        seq![(node, BindingChannel::Width)]
    } else {
        seq![]
    }) + (if props.contains(Prop::Height) {
        seq![(node, BindingChannel::Height)]
    } else {
        seq![]
    })
}

/// The tracks of a set: each differing layer's, layer by layer.
pub open spec fn set_tracks(differing: Seq<(u32, Vec<Prop>)>) -> Seq<(u32, BindingChannel)>
    decreases differing.len(),
{
    if differing.len() == 0 {
        seq![]
    } else {
        set_tracks(differing.drop_last()) + layer_tracks(differing.last().0, differing.last().1@)
    }
}

fn holds_prop(props: &Vec<Prop>, p: Prop) -> (r: bool)
    ensures
        r == props@.contains(p),
{
    let mut j: usize = 0;
    while j < props.len()
        invariant
            j <= props@.len(),
            forall|k: int| 0 <= k < j ==> props@[k] != p,
        decreases props@.len() - j,
    {
        if props[j] == p {
            assert(props@[j as int] == p);
            return true;
        }
        j = j + 1;
    }
    false
}

/// The tracks a variant table animates, from each differing layer's
/// document index and the props the set differs on there, layer by layer:
/// one track per rect channel, x, y, width and height in that order. The
/// table animates the union over the set, so one track list serves a switch
/// in either direction.
pub fn variant_tracks(differing: &Vec<(u32, Vec<Prop>)>) -> (tracks: Vec<(u32, BindingChannel)>)
    ensures
        tracks@ == set_tracks(differing@),
{
    let mut tracks: Vec<(u32, BindingChannel)> = Vec::new();
    let mut k: usize = 0;
    proof {
        assert(differing@.take(0) =~= Seq::<(u32, Vec<Prop>)>::empty());
    }
    while k < differing.len()
        invariant
            k <= differing@.len(),
            tracks@ == set_tracks(differing@.take(k as int)),
        decreases differing@.len() - k,
    {
        let node = differing[k].0;
        let props = &differing[k].1;
        let ghost before = tracks@;
        if holds_prop(props, Prop::X) {
            tracks.push((node, BindingChannel::X));
        }
        if holds_prop(props, Prop::Y) {
            tracks.push((node, BindingChannel::Y));
        }
        if holds_prop(props, Prop::Width) {
            tracks.push((node, BindingChannel::Width));
        }
        if holds_prop(props, Prop::Height) {
            tracks.push((node, BindingChannel::Height));
        }
        proof {
            assert(differing@.take(k + 1).drop_last() =~= differing@.take(k as int));
            assert(differing@.take(k + 1).last() == differing@[k as int]);
            assert(tracks@ =~= before + layer_tracks(node, props@));
        }
        k = k + 1;
    }
    proof {
        assert(differing@.take(k as int) =~= differing@);
    }
    tracks
}

/// The overrides one differing layer gives a member: each prop the set
/// differs on there that the member's own props differ on from the active
/// member's, in the set's order.
pub open spec fn layer_overrides(node: u32, props: Seq<Prop>, own: Seq<Prop>) -> Seq<(u32, Prop)>
    decreases props.len(),
{
    if props.len() == 0 {
        seq![]
    } else {
        layer_overrides(node, props.drop_last(), own) + if own.contains(props.last()) {
            seq![(node, props.last())]
        } else {
            seq![]
        }
    }
}

/// A member's overrides over the first `n` differing layers.
pub open spec fn overrides_upto(differing: Seq<(u32, Vec<Prop>)>, own: Seq<Vec<Prop>>, n: int) -> Seq<(u32, Prop)>
    decreases n,
{
    if n <= 0 {
        seq![]
    } else {
        overrides_upto(differing, own, n - 1) + layer_overrides(
            differing[n - 1].0,
            differing[n - 1].1@,
            own[n - 1]@,
        )
    }
}

/// The overrides of the member at `position`, given `own`, its props'
/// differences from the active member's at each differing layer: none for
/// the active member, which is the document's own state; otherwise, layer
/// by layer, each differing prop this member's own value departs on, as
/// the layer's document index and the prop.
pub fn member_overrides(
    differing: &Vec<(u32, Vec<Prop>)>,
    own: &Vec<Vec<Prop>>,
    position: usize,
    active: usize,
) -> (overrides: Vec<(u32, Prop)>)
    requires
        own@.len() == differing@.len(),
    ensures
        overrides@ == if position == active {
            Seq::<(u32, Prop)>::empty()
        } else {
            overrides_upto(differing@, own@, differing@.len() as int)
        },
{
    let mut overrides: Vec<(u32, Prop)> = Vec::new();
    if position == active {
        return overrides;
    }
    let mut k: usize = 0;
    while k < differing.len()
        invariant
            k <= differing@.len(),
            own@.len() == differing@.len(),
            overrides@ == overrides_upto(differing@, own@, k as int),
        decreases differing@.len() - k,
    {
        let node = differing[k].0;
        let props = &differing[k].1;
        let mine = &own[k];
        let ghost base = overrides@;
        let mut j: usize = 0;
        proof {
            assert(props@.take(0) =~= Seq::<Prop>::empty());
            assert(base + layer_overrides(node, props@.take(0), mine@) =~= base);
        }
        while j < props.len()
            invariant
                j <= props@.len(),
                overrides@ == base + layer_overrides(node, props@.take(j as int), mine@),
            decreases props@.len() - j,
        {
            let p = props[j];
            let ghost prev = overrides@;
            proof {
                assert(props@.take(j + 1).drop_last() =~= props@.take(j as int));
                assert(props@.take(j + 1).last() == p);
            }
            if holds_prop(mine, p) {
                overrides.push((node, p));
                proof {
                    assert(overrides@ =~= base + layer_overrides(node, props@.take(j + 1), mine@));
                }
            } else {
                proof {
                    assert(base + layer_overrides(node, props@.take(j + 1), mine@) =~= prev);
                }
            }
            j = j + 1;
        }
        proof {
            assert(props@.take(j as int) =~= props@);
        }
        k = k + 1;
    }
    overrides
}

/// The props of each differing layer.
pub open spec fn layer_props(differing: Seq<(u32, Vec<Prop>)>) -> Seq<Vec<Prop>> {
    differing.map_values(|d: (u32, Vec<Prop>)| d.1)
}

proof fn lemma_layer_tracks(node: u32, props: Seq<Prop>)
    ensures
        layer_tracks(node, props).len() > 0 <==> (props.contains(Prop::X) || props.contains(Prop::Y) || props.contains(
            Prop::Width,
        ) || props.contains(Prop::Height)),
{
}

/// A set's table has a track exactly when the set is animatable: it differs
/// on a rect channel somewhere. So a transition is written for a member only
/// where there is something for it to animate.
pub proof fn tracks_exactly_when_animatable(differing: Seq<(u32, Vec<Prop>)>)
    ensures
        set_tracks(differing).len() > 0 <==> rect_differs(layer_props(differing)),
    decreases differing.len(),
{
    let ps = layer_props(differing);
    if differing.len() == 0 {
        assert(!differs_on(ps, Prop::X) && !differs_on(ps, Prop::Y) && !differs_on(ps, Prop::Width) && !differs_on(
            ps,
            Prop::Height,
        ));
    } else {
        let init = differing.drop_last();
        let last = differing.last();
        tracks_exactly_when_animatable(init);
        lemma_layer_tracks(last.0, last.1@);
        let qs = layer_props(init);
        assert(qs =~= ps.drop_last());
        assert(ps.last() == last.1);
        assert forall|p: Prop| #[trigger] differs_on(ps, p) <==> (differs_on(qs, p) || last.1@.contains(p)) by {
            if differs_on(ps, p) {
                let (k, j) = choose|k: int, j: int|
                    0 <= k < ps.len() && 0 <= j < ps[k]@.len() && ps[k]@[j] == p;
                if k < ps.len() - 1 {
                    assert(qs[k] == ps[k]);
                    assert(differs_on(qs, p));
                } else {
                    assert(last.1@[j] == p);
                }
            }
            if differs_on(qs, p) {
                let (k, j) = choose|k: int, j: int|
                    0 <= k < qs.len() && 0 <= j < qs[k]@.len() && qs[k]@[j] == p;
                assert(ps[k] == qs[k]);
            }
            if last.1@.contains(p) {
                let j = choose|j: int| 0 <= j < last.1@.len() && last.1@[j] == p;
                assert(ps[ps.len() - 1]@[j] == p);
            }
        }
        assert(differs_on(ps, Prop::X) == (differs_on(qs, Prop::X) || last.1@.contains(Prop::X)));
        assert(differs_on(ps, Prop::Y) == (differs_on(qs, Prop::Y) || last.1@.contains(Prop::Y)));
        assert(differs_on(ps, Prop::Width) == (differs_on(qs, Prop::Width) || last.1@.contains(Prop::Width)));
        assert(differs_on(ps, Prop::Height) == (differs_on(qs, Prop::Height) || last.1@.contains(Prop::Height)));
    }
}

// ------------------------------------------------------------- what an override cannot carry

/// A node's single shown solid fill: its colour and its paint's opacity,
/// which folds into the alpha where an override is built. Nothing for no
/// shown fill, several, or one that is not a solid with a colour.
pub open spec fn solid_of(n: FigmaNode) -> Option<(Color, Option<u32>)> {
    if shown_count(n.fills@) == 1 {
        let p = n.fills@[last_shown(n.fills@)];
        if p.kind@ == "SOLID"@ && p.color is Some {
            Some((p.color->0, p.opacity))
        } else {
            None
        }
    } else {
        None
    }
}

/// A node's single shown solid fill, as `solid_of` says.
pub fn solid_fill(node: &FigmaNode) -> (solid: Option<(Color, Option<u32>)>)
    ensures
        solid == solid_of(*node),
{
    match single_visible_paint(&node.fills) {
        OnePaint::One(i) => {
            let paint = &node.fills[i];
            if str_eq(paint.kind.as_str(), "SOLID") {
                match paint.color {
                    Some(c) => Some((c, paint.opacity)),
                    None => None,
                }
            } else {
                None
            }
        },
        _ => None,
    }
}

/// Why a difference in `p` on node `n` cannot be carried by an override,
/// if it cannot. Only a fill has a reason: on a text node, whose colour
/// lowers into its style, an override would paint over the label; and a
/// fill that no single solid colour expresses is beyond what a fill
/// override carries. The other props are scalars an override always
/// expresses.
pub open spec fn unexpressible_why(n: FigmaNode, p: Prop) -> Option<Seq<char>> {
    if p == Prop::Fill && n.kind@ == "TEXT"@ {
        Some(
            "their text colour, which lowers into the node's style and not into a paint entry, so a variant fill override would paint over the label rather than recolour it"@,
        )
    } else if p == Prop::Fill && solid_of(n) is None {
        Some(
            "a fill no single solid colour expresses (a gradient, an image, stacked paints, or none at all), which `VariantFill` cannot carry"@,
        )
    } else {
        None
    }
}

/// Why a difference in `p` on `node` cannot be carried by an override, as
/// `unexpressible_why` says.
pub fn unexpressible(node: &FigmaNode, p: Prop) -> (why: Option<&'static str>)
    ensures
        match why {
            Some(w) => unexpressible_why(*node, p) == Some(w@),
            None => unexpressible_why(*node, p) is None,
        },
{
    if p == Prop::Fill && str_eq(node.kind.as_str(), "TEXT") {
        Some(
            "their text colour, which lowers into the node's style and not into a paint entry, so a variant fill override would paint over the label rather than recolour it",
        )
    } else if p == Prop::Fill && solid_fill(node).is_none() {
        Some(
            "a fill no single solid colour expresses (a gradient, an image, stacked paints, or none at all), which `VariantFill` cannot carry",
        )
    } else {
        None
    }
}

} // verus!
