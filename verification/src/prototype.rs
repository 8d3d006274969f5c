//! Figma's prototype interactions, read off a captured node.
//!
//! One question per interaction: is it a variant switch, and if so how does
//! it animate. What is not a variant switch is named and dropped, never
//! lowered approximately. The nested transition `duration` is in seconds.
use vstd::prelude::*;

use crate::text::{opt_chars, push_str, str_eq, string_of, strings_view};

verus! {

/// What starts an interaction: `ON_CLICK`, `AFTER_TIMEOUT`, `ON_KEY_DOWN`, ...
#[derive(Clone, Debug)]
pub struct Trigger {
    pub kind: String,
}

/// A transition's easing, read by its name only.
#[derive(Clone, Debug)]
pub struct TransitionEasing {
    pub kind: String,
}

/// An action's transition: its kind, easing, and duration in seconds (bits).
#[derive(Clone, Debug)]
pub struct Transition {
    pub kind: String,
    pub easing: Option<TransitionEasing>,
    pub duration: Option<u32>,
}

/// One thing an interaction does.
#[derive(Clone, Debug)]
pub struct Action {
    pub kind: String,
    pub destination_id: Option<String>,
    pub navigation: Option<String>,
    pub transition: Option<Transition>,
}

/// One reaction of a node: a trigger and what it does.
#[derive(Clone, Debug)]
pub struct Interaction {
    pub trigger: Option<Trigger>,
    pub actions: Vec<Action>,
}

/// The four fixed cubics a switch can animate with.
#[derive(Clone, Copy, Debug, PartialEq, Eq, Structural)]
pub enum Easing {
    Linear,
    EaseIn,
    EaseOut,
    EaseInOut,
}

/// One lowered variant switch: which member it travels to, and how.
#[derive(Clone, Debug)]
pub struct Switch {
    /// The Figma node id of the member the switch changes to.
    pub destination: String,
    /// Seconds (bits) and a curve; `None` lands in one frame.
    pub tween: Option<(u32, Easing)>,
    /// The transition this switch declared that has no spelling, named but
    /// not yet classified as a degrade or part of an omission.
    pub refused_motion: Option<String>,
}

/// What one node's interactions lower to.
#[derive(Clone, Debug)]
pub struct Interactions {
    /// The variant switches, in the order the payload declares them.
    pub switches: Vec<Switch>,
    /// Interactions with no lowering at all, named.
    pub unsupported: Vec<String>,
}

pub struct TransitionView {
    pub kind: Seq<char>,
    pub easing: Option<Seq<char>>,
    pub duration: Option<u32>,
}

pub struct ActionView {
    pub kind: Seq<char>,
    pub destination_id: Option<Seq<char>>,
    pub navigation: Option<Seq<char>>,
    pub transition: Option<TransitionView>,
}

pub struct InteractionView {
    pub trigger: Option<Seq<char>>,
    pub actions: Seq<ActionView>,
}

pub struct SwitchView {
    pub destination: Seq<char>,
    pub tween: Option<(u32, Easing)>,
    pub refused_motion: Option<Seq<char>>,
}

pub struct InteractionsView {
    pub switches: Seq<SwitchView>,
    pub unsupported: Seq<Seq<char>>,
}

impl View for Transition {
    type V = TransitionView;

    open spec fn view(&self) -> TransitionView {
        TransitionView {
            kind: self.kind@,
            easing: match self.easing {
                Some(e) => Some(e.kind@),
                None => None,
            },
            duration: self.duration,
        }
    }
}

impl View for Action {
    type V = ActionView;

    open spec fn view(&self) -> ActionView {
        ActionView {
            kind: self.kind@,
            destination_id: opt_chars(self.destination_id),
            navigation: opt_chars(self.navigation),
            transition: match self.transition {
                Some(t) => Some(t@),
                None => None,
            },
        }
    }
}

impl View for Interaction {
    type V = InteractionView;

    open spec fn view(&self) -> InteractionView {
        InteractionView {
            trigger: match self.trigger {
                Some(t) => Some(t.kind@),
                None => None,
            },
            actions: self.actions@.map_values(|a: Action| a@),
        }
    }
}

impl View for Switch {
    type V = SwitchView;

    open spec fn view(&self) -> SwitchView {
        SwitchView {
            destination: self.destination@,
            tween: self.tween,
            refused_motion: opt_chars(self.refused_motion),
        }
    }
}

impl View for Interactions {
    type V = InteractionsView;

    open spec fn view(&self) -> InteractionsView {
        InteractionsView {
            switches: self.switches@.map_values(|s: Switch| s@),
            unsupported: strings_view(self.unsupported@),
        }
    }
}

/// Whether a single-precision bit pattern is a number above zero.
pub open spec fn is_positive_bits(bits: u32) -> bool {
    0 < bits && bits <= 0x7f80_0000
}

/// The curve a Figma easing name lowers to, if it has a spelling.
pub open spec fn easing_named(name: Seq<char>) -> Option<Easing> {
    if name == "LINEAR"@ {
        Some(Easing::Linear)
    } else if name == "EASE_IN"@ {
        Some(Easing::EaseIn)
    } else if name == "EASE_OUT"@ {
        Some(Easing::EaseOut)
    } else if name == "EASE_IN_AND_OUT"@ {
        Some(Easing::EaseInOut)
    } else {
        None
    }
}

pub open spec fn or_absent(o: Option<Seq<char>>) -> Seq<char> {
    match o {
        Some(s) => s,
        None => "<absent>"@,
    }
}

/// The tween a transition lowers to, and the construct refused by name when
/// it lowers to none. A duration at or below zero (or absent) is no tween.
pub open spec fn transition_outcome(t: TransitionView) -> (Option<(u32, Easing)>, Option<Seq<char>>) {
    if t.kind != "SMART_ANIMATE"@ {
        (
            None,
            Some(
                "prototype transition "@ + t.kind
                    + " (only SMART_ANIMATE lowers, because only it interpolates per-prop)"@,
            ),
        )
    } else {
        let named = match t.easing {
            Some(n) => easing_named(n),
            None => None,
        };
        match named {
            None => (
                None,
                Some(
                    "prototype easing "@ + or_absent(t.easing)
                        + " (dashcue has four fixed cubics \u{2014} Linear, EaseIn, EaseOut, EaseInOut \u{2014} and no parameters for it in the payload)"@,
                ),
            ),
            Some(e) => {
                let d = match t.duration {
                    Some(b) => b,
                    None => 0u32,
                };
                (if is_positive_bits(d) { Some((d, e)) } else { None }, None)
            },
        }
    }
}

pub open spec fn is_change_to(navigation: Option<Seq<char>>) -> bool {
    navigation == Some("CHANGE_TO"@)
}

/// One action's verdict, appended to what was found so far. A switch is
/// built only where the trigger lowers and the action names a `CHANGE_TO`
/// destination; a refused curve rides on that switch, or is named on its own
/// where no switch is built.
pub open spec fn action_step(st: InteractionsView, a: ActionView, trigger_lowers: bool) -> InteractionsView {
    if a.kind != "NODE"@ {
        InteractionsView {
            switches: st.switches,
            unsupported: st.unsupported.push(
                "prototype action "@ + a.kind
                    + " (the document carries no navigation, variable or condition construct)"@,
            ),
        }
    } else {
        let u1 = if is_change_to(a.navigation) {
            if a.destination_id is Some {
                st.unsupported
            } else {
                st.unsupported.push("a CHANGE_TO action with no destinationId"@)
            }
        } else {
            st.unsupported.push(
                "prototype navigation "@ + or_absent(a.navigation)
                    + " (only CHANGE_TO lowers; the document has no frame-to-frame navigation)"@,
            )
        };
        let builds = trigger_lowers && is_change_to(a.navigation) && a.destination_id is Some;
        let outcome = match a.transition {
            Some(t) => transition_outcome(t),
            None => (None, None),
        };
        let u2 = match outcome.1 {
            Some(what) => if builds {
                u1
            } else {
                u1.push(what)
            },
            None => u1,
        };
        InteractionsView {
            switches: if builds {
                st.switches.push(
                    SwitchView {
                        destination: a.destination_id->0,
                        tween: outcome.0,
                        refused_motion: outcome.1,
                    },
                )
            } else {
                st.switches
            },
            unsupported: u2,
        }
    }
}

pub open spec fn actions_fold(st: InteractionsView, actions: Seq<ActionView>, trigger_lowers: bool) -> InteractionsView
    decreases actions.len(),
{
    if actions.len() == 0 {
        st
    } else {
        action_step(actions_fold(st, actions.drop_last(), trigger_lowers), actions.last(), trigger_lowers)
    }
}

/// Only `ON_CLICK` is assumed: the document carries no trigger construct.
pub open spec fn trigger_lowers(i: InteractionView) -> bool {
    i.trigger == Some("ON_CLICK"@)
}

pub open spec fn interaction_step(st: InteractionsView, i: InteractionView) -> InteractionsView {
    let st1 = if trigger_lowers(i) {
        st
    } else {
        InteractionsView {
            switches: st.switches,
            unsupported: st.unsupported.push(
                "prototype trigger "@ + or_absent(i.trigger)
                    + " (only ON_CLICK is assumed; the document carries no trigger construct, so the host drives the switch)"@,
            ),
        }
    };
    actions_fold(st1, i.actions, trigger_lowers(i))
}

pub open spec fn interactions_fold(st: InteractionsView, is: Seq<InteractionView>) -> InteractionsView
    decreases is.len(),
{
    if is.len() == 0 {
        st
    } else {
        interaction_step(interactions_fold(st, is.drop_last()), is.last())
    }
}

pub open spec fn nothing_found() -> InteractionsView {
    InteractionsView { switches: Seq::empty(), unsupported: Seq::empty() }
}

/// The tween a transition lowers to, and the construct refused by name when
/// it lowers to none.
pub fn read_transition(transition: &Transition) -> (r: (Option<(u32, Easing)>, Option<String>))
    ensures
        r.0 == transition_outcome(transition@).0,
        opt_chars(r.1) == transition_outcome(transition@).1,
{
    if !str_eq(transition.kind.as_str(), "SMART_ANIMATE") {
        let mut what = string_of("prototype transition ");
        push_str(&mut what, transition.kind.as_str());
        push_str(&mut what, " (only SMART_ANIMATE lowers, because only it interpolates per-prop)");
        return (None, Some(what));
    }
    let easing = match &transition.easing {
        Some(e) => {
            let k = e.kind.as_str();
            if str_eq(k, "LINEAR") {
                Some(Easing::Linear)
            } else if str_eq(k, "EASE_IN") {
                Some(Easing::EaseIn)
            } else if str_eq(k, "EASE_OUT") {
                Some(Easing::EaseOut)
            } else if str_eq(k, "EASE_IN_AND_OUT") {
                Some(Easing::EaseInOut)
            } else {
                None
            }
        },
        None => None,
    };
    match easing {
        None => {
            let mut what = string_of("prototype easing ");
            match &transition.easing {
                Some(e) => push_str(&mut what, e.kind.as_str()),
                None => push_str(&mut what, "<absent>"),
            }
            push_str(
                &mut what,
                " (dashcue has four fixed cubics \u{2014} Linear, EaseIn, EaseOut, EaseInOut \u{2014} and no parameters for it in the payload)",
            );
            (None, Some(what))
        },
        Some(e) => {
            let d: u32 = match transition.duration {
                Some(b) => b,
                None => 0,
            };
            if 0 < d && d <= 0x7f80_0000 {
                (Some((d, e)), None)
            } else {
                (None, None)
            }
        },
    }
}

/// Pushes `what` onto the unsupported names.
fn name_unsupported(found: &mut Interactions, what: String)
    ensures
        final(found)@.unsupported == old(found)@.unsupported.push(what@),
        final(found)@.switches == old(found)@.switches,
{
    let ghost before = found.unsupported@;
    found.unsupported.push(what);
    proof {
        assert(strings_view(found.unsupported@) =~= strings_view(before).push(what@));
    }
}

/// One action's verdict, appended to `found`.
pub fn read_action(action: &Action, trigger_lowers: bool, found: &mut Interactions)
    ensures
        final(found)@ == action_step(old(found)@, action@, trigger_lowers),
{
    if !str_eq(action.kind.as_str(), "NODE") {
        let mut what = string_of("prototype action ");
        push_str(&mut what, action.kind.as_str());
        push_str(&mut what, " (the document carries no navigation, variable or condition construct)");
        name_unsupported(found, what);
        return;
    }
    let change_to = match &action.navigation {
        Some(n) => str_eq(n.as_str(), "CHANGE_TO"),
        None => false,
    };
    assert(change_to == is_change_to(action@.navigation));
    let destination: Option<String> = if change_to {
        match &action.destination_id {
            Some(d) => Some(d.clone()),
            None => {
                name_unsupported(found, string_of("a CHANGE_TO action with no destinationId"));
                None
            },
        }
    } else {
        let mut what = string_of("prototype navigation ");
        match &action.navigation {
            Some(n) => push_str(&mut what, n.as_str()),
            None => push_str(&mut what, "<absent>"),
        }
        push_str(&mut what, " (only CHANGE_TO lowers; the document has no frame-to-frame navigation)");
        name_unsupported(found, what);
        None
    };
    let builds = trigger_lowers && destination.is_some();
    let outcome: (Option<(u32, Easing)>, Option<String>) = match &action.transition {
        Some(t) => read_transition(t),
        None => (None, None),
    };
    let (tween, refused) = outcome;
    let refused_motion = match refused {
        Some(what) => {
            if builds {
                Some(what)
            } else {
                name_unsupported(found, what);
                None
            }
        },
        None => None,
    };
    if builds {
        match destination {
            Some(d) => {
                let ghost before = found.switches@;
                let s = Switch { destination: d, tween, refused_motion };
                found.switches.push(s);
                proof {
                    assert(found.switches@.map_values(|s: Switch| s@) =~= before.map_values(
                        |s: Switch| s@,
                    ).push(s@));
                }
            },
            None => {},
        }
    }
}

/// Reads one node's interactions, sorting them into candidate switches and
/// refusals. Every finding survives one pass: an interaction whose trigger
/// and whose navigation are both outside the vocabulary reports both.
pub fn read(interactions: &[Interaction]) -> (found: Interactions)
    ensures
        found@ == interactions_fold(nothing_found(), interactions@.map_values(|i: Interaction| i@)),
{
    let mut found = Interactions { switches: Vec::new(), unsupported: Vec::new() };
    let ghost is = interactions@.map_values(|i: Interaction| i@);
    proof {
        assert(found@.switches =~= Seq::<SwitchView>::empty());
        assert(found@.unsupported =~= Seq::<Seq<char>>::empty());
        assert(is.take(0) =~= Seq::<InteractionView>::empty());
    }
    let mut i: usize = 0;
    while i < interactions.len()
        invariant
            i <= interactions@.len(),
            is == interactions@.map_values(|i: Interaction| i@),
            found@ == interactions_fold(nothing_found(), is.take(i as int)),
        decreases interactions@.len() - i,
    {
        let interaction = &interactions[i];
        let ghost iv = interaction@;
        let lowers = match &interaction.trigger {
            Some(t) => str_eq(t.kind.as_str(), "ON_CLICK"),
            None => false,
        };
        assert(lowers == trigger_lowers(iv));
        if !lowers {
            let mut what = string_of("prototype trigger ");
            match &interaction.trigger {
                Some(t) => push_str(&mut what, t.kind.as_str()),
                None => push_str(&mut what, "<absent>"),
            }
            push_str(
                &mut what,
                " (only ON_CLICK is assumed; the document carries no trigger construct, so the host drives the switch)",
            );
            name_unsupported(&mut found, what);
        }
        let ghost st1 = found@;
        let mut k: usize = 0;
        proof {
            assert(iv.actions.take(0) =~= Seq::<ActionView>::empty());
        }
        while k < interaction.actions.len()
            invariant
                k <= interaction.actions@.len(),
                iv == interaction@,
                found@ == actions_fold(st1, iv.actions.take(k as int), lowers),
            decreases interaction.actions@.len() - k,
        {
            read_action(&interaction.actions[k], lowers, &mut found);
            proof {
                assert(iv.actions.take(k + 1).drop_last() =~= iv.actions.take(k as int));
            }
            k = k + 1;
        }
        proof {
            assert(iv.actions.take(k as int) =~= iv.actions);
            assert(is.take(i + 1).drop_last() =~= is.take(i as int));
        }
        i = i + 1;
    }
    proof {
        assert(is.take(i as int) =~= is);
    }
    found
}

proof fn lemma_no_switch_without_trigger(st: InteractionsView, actions: Seq<ActionView>)
    ensures
        actions_fold(st, actions, false).switches == st.switches,
        actions_fold(st, actions, false).unsupported.len() >= st.unsupported.len(),
    decreases actions.len(),
{
    if actions.len() > 0 {
        lemma_no_switch_without_trigger(st, actions.drop_last());
    }
}

/// A refused trigger refuses the whole interaction, switch included, and is
/// named: the interaction adds no switch and at least one refusal.
pub proof fn refused_trigger_builds_no_switch(st: InteractionsView, i: InteractionView)
    requires
        !trigger_lowers(i),
    ensures
        interaction_step(st, i).switches == st.switches,
        interaction_step(st, i).unsupported.len() > st.unsupported.len(),
{
    let st1 = InteractionsView {
        switches: st.switches,
        unsupported: st.unsupported.push(
            "prototype trigger "@ + or_absent(i.trigger)
                + " (only ON_CLICK is assumed; the document carries no trigger construct, so the host drives the switch)"@,
        ),
    };
    lemma_no_switch_without_trigger(st1, i.actions);
}


// ---- what reading is over a list ------------------------------------------------

/// `x`'s findings after those of `p`.
pub open spec fn after(p: InteractionsView, x: InteractionsView) -> InteractionsView {
    InteractionsView { switches: p.switches + x.switches, unsupported: p.unsupported + x.unsupported }
}

proof fn lemma_action_step_after(p: InteractionsView, x: InteractionsView, a: ActionView, t: bool)
    ensures
        action_step(after(p, x), a, t) == after(p, action_step(x, a, t)),
{
    let l = action_step(after(p, x), a, t);
    let r = after(p, action_step(x, a, t));
    if a.kind != "NODE"@ {
        assert(l.unsupported =~= r.unsupported);
        assert(l.switches =~= r.switches);
    } else {
        assert(l.unsupported =~= r.unsupported);
        assert(l.switches =~= r.switches);
    }
}

proof fn lemma_actions_fold_after(p: InteractionsView, x: InteractionsView, actions: Seq<ActionView>, t: bool)
    ensures
        actions_fold(after(p, x), actions, t) == after(p, actions_fold(x, actions, t)),
    decreases actions.len(),
{
    if actions.len() > 0 {
        lemma_actions_fold_after(p, x, actions.drop_last(), t);
        lemma_action_step_after(p, actions_fold(x, actions.drop_last(), t), actions.last(), t);
    }
}

proof fn lemma_interaction_step_after(p: InteractionsView, x: InteractionsView, i: InteractionView)
    ensures
        interaction_step(after(p, x), i) == after(p, interaction_step(x, i)),
{
    let refusal = "prototype trigger "@ + or_absent(i.trigger)
        + " (only ON_CLICK is assumed; the document carries no trigger construct, so the host drives the switch)"@;
    let x1 = if trigger_lowers(i) {
        x
    } else {
        InteractionsView { switches: x.switches, unsupported: x.unsupported.push(refusal) }
    };
    let l1 = if trigger_lowers(i) {
        after(p, x)
    } else {
        InteractionsView { switches: after(p, x).switches, unsupported: after(p, x).unsupported.push(refusal) }
    };
    assert(l1.switches =~= after(p, x1).switches);
    assert(l1.unsupported =~= after(p, x1).unsupported);
    lemma_actions_fold_after(p, x1, i.actions, trigger_lowers(i));
}

proof fn lemma_interactions_fold_after(p: InteractionsView, x: InteractionsView, is: Seq<InteractionView>)
    ensures
        interactions_fold(after(p, x), is) == after(p, interactions_fold(x, is)),
    decreases is.len(),
{
    if is.len() > 0 {
        lemma_interactions_fold_after(p, x, is.drop_last());
        lemma_interaction_step_after(p, interactions_fold(x, is.drop_last()), is.last());
    }
}

proof fn lemma_fold_concat(st: InteractionsView, a: Seq<InteractionView>, b: Seq<InteractionView>)
    ensures
        interactions_fold(st, a + b) == interactions_fold(interactions_fold(st, a), b),
    decreases b.len(),
{
    if b.len() == 0 {
        assert(a + b =~= a);
    } else {
        lemma_fold_concat(st, a, b.drop_last());
        assert((a + b).drop_last() =~= a + b.drop_last());
        assert((a + b).last() == b.last());
    }
}

/// Reading is compositional over a node's interaction list: the switches
/// and refusals of `a` followed by `b` are `a`'s followed by `b`'s. No
/// interaction is skipped, and none changes what another yields.
pub proof fn reading_is_compositional(a: Seq<InteractionView>, b: Seq<InteractionView>)
    ensures
        interactions_fold(nothing_found(), a + b).switches == interactions_fold(nothing_found(), a).switches
            + interactions_fold(nothing_found(), b).switches,
        interactions_fold(nothing_found(), a + b).unsupported == interactions_fold(nothing_found(), a).unsupported
            + interactions_fold(nothing_found(), b).unsupported,
{
    let ra = interactions_fold(nothing_found(), a);
    lemma_fold_concat(nothing_found(), a, b);
    assert(after(ra, nothing_found()) =~= ra);
    lemma_interactions_fold_after(ra, nothing_found(), b);
}

/// An `ON_CLICK` reaction whose one action is a `NODE` `CHANGE_TO` with a
/// destination reads as exactly one switch to that destination, carrying
/// the tween its transition lowers to and, where its curve is refused, that
/// refusal.
pub proof fn a_click_change_to_is_one_switch(i: InteractionView)
    requires
        i.trigger == Some("ON_CLICK"@),
        i.actions.len() == 1,
        i.actions[0].kind == "NODE"@,
        i.actions[0].navigation == Some("CHANGE_TO"@),
        i.actions[0].destination_id is Some,
    ensures
        ({
            let outcome = match i.actions[0].transition {
                Some(t) => transition_outcome(t),
                None => (None, None),
            };
            &&& interactions_fold(nothing_found(), seq![i]).switches == seq![
                SwitchView {
                    destination: i.actions[0].destination_id->0,
                    tween: outcome.0,
                    refused_motion: outcome.1,
                },
            ]
            &&& interactions_fold(nothing_found(), seq![i]).unsupported.len() == 0
        }),
{
    let s = seq![i];
    assert(s.drop_last() =~= Seq::<InteractionView>::empty());
    assert(s.last() == i);
    assert(i.actions.drop_last() =~= Seq::<ActionView>::empty());
    assert(i.actions.last() == i.actions[0]);
    let st = interactions_fold(nothing_found(), s);
    assert(interactions_fold(nothing_found(), s.drop_last()) == nothing_found());
    assert(st == interaction_step(nothing_found(), i));
    assert(actions_fold(nothing_found(), i.actions.drop_last(), true) == nothing_found());
    assert(st == action_step(nothing_found(), i.actions[0], true));
    assert(st.unsupported =~= Seq::<Seq<char>>::empty());
    assert(st.switches =~= seq![
        SwitchView {
            destination: i.actions[0].destination_id->0,
            tween: match i.actions[0].transition {
                Some(t) => transition_outcome(t),
                None => (None, None),
            }.0,
            refused_motion: match i.actions[0].transition {
                Some(t) => transition_outcome(t),
                None => (None, None),
            }.1,
        },
    ]);
}

} // verus!
