//! Findings that echo onto every copy of an authored layer, and the collapse
//! that reports each of them once.
//!
//! A finding written here is never handed the node it was found on: the
//! collapse folds copies that agree in rule, message and authored layer, so a
//! message naming its node would differ on every copy and stop folding.
use vstd::prelude::*;

use crate::diagnostics::{Diagnostic, DiagnosticView, Location, LocationView, Severity};
use crate::prototype::{Interactions, InteractionsView, Switch, SwitchView};
use crate::seqs::{first_match, lemma_first_match, lemma_first_match_at, lemma_first_match_none};
use crate::text::{decimal, push_decimal, push_str, str_eq, string_of, strings_view};
use crate::EmitPolicy;

verus! {

/// An interaction with no lowering, or a switch that lowers nowhere.
pub const UNSUPPORTED_INTERACTION: &'static str = "figma.prototype.unsupported-interaction";

/// The motion declared for a variant switch does not lower. Always a
/// warning: the picture is never at stake.
pub const UNSUPPORTED_MOTION: &'static str = "figma.prototype.unsupported-motion";

/// Everything about a finding except where it sits, and the only shape the
/// echo collapse accepts.
#[derive(Debug)]
pub struct Echoable {
    rule: &'static str,
    severity: Severity,
    message: String,
}

/// A finding without its place, by value.
pub struct EchoableView {
    pub rule: Seq<char>,
    pub severity: Severity,
    pub message: Seq<char>,
}

impl View for Echoable {
    type V = EchoableView;

    closed spec fn view(&self) -> EchoableView {
        EchoableView { rule: self.rule@, severity: self.severity, message: self.message@ }
    }
}

pub open spec fn placed(f: EchoableView, at: LocationView) -> DiagnosticView {
    DiagnosticView { rule: f.rule, severity: f.severity, at, message: f.message }
}

impl Echoable {
    /// Places this finding at `at`, the only way to turn one into a
    /// diagnostic.
    pub fn at(self, at: Location) -> (d: Diagnostic)
        ensures
            d@ == placed(self@, at@),
    {
        Diagnostic { rule: self.rule, severity: self.severity, at, message: self.message }
    }

    /// Whether this finding is the same finding as `other`: the same rule
    /// and the same message. Where it sits is what differs between copies,
    /// and severity is deliberately not compared.
    pub fn renders_as(&self, other: &Diagnostic) -> (r: bool)
        ensures
            r == (self@.rule == other@.rule && self@.message == other@.message),
    {
        str_eq(self.rule, other.rule) && str_eq(self.message.as_str(), other.message.as_str())
    }
}

/// Which scope a contention was found at.
#[derive(Clone, Copy, Debug, PartialEq, Eq, Structural)]
pub enum Contention {
    /// Two layers of one instance.
    WithinAnInstance,
    /// Two layers reaching the set's own default table.
    AcrossTheSet,
}

pub open spec fn contention_text(scope: Contention, member: Seq<char>) -> Seq<char> {
    let whose = match scope {
        Contention::WithinAnInstance => "instance"@,
        Contention::AcrossTheSet => "component set"@,
    };
    "more than one layer of this "@ + whose + " declares a CHANGE_TO to \""@ + member
        + "\" with a different transition, and the document carries one transition per destination, so only one of them lowers"@
}

/// The one sentence saying two layers declared different transitions to
/// `member`, and the document carries one per destination.
pub fn contention_sentence(scope: Contention, member: &str) -> (s: String)
    ensures
        s@ == contention_text(scope, member@),
{
    let mut s = string_of("more than one layer of this ");
    match scope {
        Contention::WithinAnInstance => push_str(&mut s, "instance"),
        Contention::AcrossTheSet => push_str(&mut s, "component set"),
    }
    push_str(&mut s, " declares a CHANGE_TO to \"");
    push_str(&mut s, member);
    push_str(
        &mut s,
        "\" with a different transition, and the document carries one transition per destination, so only one of them lowers",
    );
    s
}

/// Two layers of one instance declaring different transitions to the member
/// at `member` among the set's `members`: a warning, echoed onto every
/// instance of that member.
pub fn contended_transition(members: &Vec<String>, member: usize) -> (f: Echoable)
    requires
        member < members@.len(),
    ensures
        f@ == (EchoableView {
            rule: UNSUPPORTED_MOTION@,
            severity: Severity::Warning,
            message: contention_text(Contention::WithinAnInstance, members@[member as int]@),
        }),
{
    Echoable {
        rule: UNSUPPORTED_MOTION,
        severity: Severity::Warning,
        message: contention_sentence(Contention::WithinAnInstance, members[member].as_str()),
    }
}

/// What an omission weighs under `policy`.
pub open spec fn omission_weight(policy: EmitPolicy) -> Severity {
    match policy {
        EmitPolicy::Strict => Severity::Error,
        EmitPolicy::Partial => Severity::Warning,
    }
}

/// What an omission weighs under `policy`: an error under `Strict`, a
/// warning under `Partial`.
pub fn omission_severity(policy: EmitPolicy) -> (s: Severity)
    ensures
        s == omission_weight(policy),
{
    match policy {
        EmitPolicy::Strict => Severity::Error,
        EmitPolicy::Partial => Severity::Warning,
    }
}

/// Whether a component set lowers a variant table.
#[derive(Clone, Debug)]
pub enum SetState {
    /// A plan was built (its index), so a switch into the set ships.
    Lowers(usize),
    /// No plan: the set names that loss itself, for this reason.
    NamedItsLoss(String),
    /// No plan and nothing named it: fewer than two members.
    Silent,
}

/// Where a switch's destination lands.
#[derive(Clone, Debug)]
pub enum Landing {
    /// A member of a set one of this node's hosts belongs to.
    InSet(SetState),
    /// The nearest host shows a component this file does not contain.
    LibraryAbsent,
    /// The node belongs to a set, and the destination is a member of none of
    /// its hosts' sets.
    NotAMember,
    /// No set and no missing library.
    NoSet,
}

/// How far a switch that lands in a set got.
#[derive(Clone, Copy, Debug, PartialEq, Eq, Structural)]
pub enum Reach {
    /// Its transition reached a variant table.
    Table,
    /// A host could have carried it and did not, and said why.
    Named,
    /// No host can carry it, and nothing else says so.
    Nowhere,
}

/// What became of one switch.
pub enum Verdict {
    /// It ships; only its curve was at risk.
    Ships,
    /// No table carries it, and something else has named why.
    Unreached,
    /// It lowers nowhere: an omission of this weight and sentence.
    Omitted(Severity, Seq<char>),
}

pub open spec fn names_destination(destination: Seq<char>, tail: Seq<char>) -> Seq<char> {
    "a CHANGE_TO names destination "@ + destination + tail
}

pub open spec fn switch_verdict(s: SwitchView, landing: Landing, reach: Reach, by: Severity) -> Verdict {
    match landing {
        Landing::InSet(state) => match state {
            SetState::Lowers(_) => if reach == Reach::Table {
                Verdict::Ships
            } else if reach == Reach::Nowhere {
                Verdict::Omitted(
                    by,
                    names_destination(
                        s.destination,
                        ", a member of a component set this layer sits inside \u{2014} but the layer belongs to a nested component of its own, which no switch into that set replaces, so the switch lowers nowhere"@,
                    ),
                )
            } else {
                Verdict::Unreached
            },
            SetState::NamedItsLoss(_) => Verdict::Unreached,
            SetState::Silent => Verdict::Omitted(
                by,
                names_destination(
                    s.destination,
                    ", whose component set has no second member to switch to, so the switch lowers nowhere"@,
                ),
            ),
        },
        Landing::NotAMember => Verdict::Omitted(
            by,
            names_destination(
                s.destination,
                ", which is not a member of the component set this layer belongs to, so the switch lowers nowhere"@,
            ),
        ),
        Landing::NoSet => Verdict::Omitted(
            by,
            names_destination(
                s.destination,
                ", and this layer belongs to no component set, so the switch lowers nowhere"@,
            ),
        ),
        Landing::LibraryAbsent => Verdict::Omitted(
            Severity::Warning,
            names_destination(
                s.destination,
                ", and this file does not contain the component whose instance this layer belongs to, so the switch lowers nowhere"@,
            ),
        ),
    }
}

/// The findings one switch earns.
pub open spec fn switch_findings(s: SwitchView, landing: Landing, reach: Reach, by: Severity) -> Seq<
    EchoableView,
> {
    match switch_verdict(s, landing, reach, by) {
        Verdict::Ships => match s.refused_motion {
            Some(what) => seq![
                EchoableView {
                    rule: UNSUPPORTED_MOTION@,
                    severity: Severity::Warning,
                    message: what + "; the switch lands in one frame"@,
                },
            ],
            None => seq![],
        },
        Verdict::Unreached => match s.refused_motion {
            Some(what) => seq![
                EchoableView {
                    rule: UNSUPPORTED_MOTION@,
                    severity: Severity::Warning,
                    message: what
                        + ", and no variant table carries the switch it would animate, so nothing is left for it to degrade"@,
                },
            ],
            None => seq![],
        },
        Verdict::Omitted(earned, message) => seq![
            EchoableView { rule: UNSUPPORTED_INTERACTION@, severity: earned, message },
        ] + match s.refused_motion {
            Some(what) => seq![
                EchoableView {
                    rule: UNSUPPORTED_INTERACTION@,
                    severity: earned,
                    message: what + ", and the switch it would animate lowers nowhere"@,
                },
            ],
            None => seq![],
        },
    }
}

/// The findings of the first `n` switches, in order.
pub open spec fn switches_findings(
    switches: Seq<SwitchView>,
    resolved: Seq<(Landing, Reach)>,
    by: Severity,
    n: nat,
) -> Seq<EchoableView>
    decreases n,
{
    if n == 0 {
        seq![]
    } else {
        let i = n - 1;
        switches_findings(switches, resolved, by, i as nat) + switch_findings(
            switches[i],
            resolved[i].0,
            resolved[i].1,
            by,
        )
    }
}

pub open spec fn vocabulary_gap(what: Seq<char>, by: Severity) -> EchoableView {
    EchoableView {
        rule: UNSUPPORTED_INTERACTION@,
        severity: by,
        message: what + " is not in the document vocabulary"@,
    }
}

/// Everything one node's read interactions earn: each refusal, then each
/// switch paired with where it landed, up to the shorter of the two lists.
pub open spec fn interaction_findings(
    read: InteractionsView,
    resolved: Seq<(Landing, Reach)>,
    policy: EmitPolicy,
) -> Seq<EchoableView> {
    let by = omission_weight(policy);
    let n = if read.switches.len() <= resolved.len() {
        read.switches.len()
    } else {
        resolved.len()
    };
    read.unsupported.map_values(|what: Seq<char>| vocabulary_gap(what, by)) + switches_findings(
        read.switches,
        resolved,
        by,
        n,
    )
}

pub open spec fn echoables_view(v: Seq<Echoable>) -> Seq<EchoableView> {
    v.map_values(|e: Echoable| e@)
}

/// Pushes `f` onto `out`.
fn push_echo(out: &mut Vec<Echoable>, f: Echoable)
    ensures
        echoables_view(final(out)@) == echoables_view(old(out)@).push(f@),
{
    let ghost before = out@;
    out.push(f);
    proof {
        assert(echoables_view(out@) =~= echoables_view(before).push(f@));
    }
}

/// `what` followed by `tail`.
fn followed(what: &String, tail: &str) -> (s: String)
    ensures
        s@ == what@ + tail@,
{
    let mut s = what.clone();
    push_str(&mut s, tail);
    s
}

/// The findings one switch earns, appended to `out`.
fn push_switch_findings(
    out: &mut Vec<Echoable>,
    switch: &Switch,
    landing: &Landing,
    reach: Reach,
    by: Severity,
)
    ensures
        echoables_view(final(out)@) == echoables_view(old(out)@) + switch_findings(
            switch@,
            *landing,
            reach,
            by,
        ),
{
    let ghost s = switch@;
    let destination = &switch.destination;
    let refused_motion = &switch.refused_motion;
    let ghost before = echoables_view(out@);
    let omitted: Option<(Severity, &str)> = match landing {
        Landing::InSet(state) => match state {
            SetState::Lowers(_) => match reach {
                Reach::Table => None,
                Reach::Nowhere => Some(
                    (
                        by,
                        ", a member of a component set this layer sits inside \u{2014} but the layer belongs to a nested component of its own, which no switch into that set replaces, so the switch lowers nowhere",
                    ),
                ),
                Reach::Named => {
                    match refused_motion {
                        Some(what) => push_echo(
                            out,
                            Echoable {
                                rule: UNSUPPORTED_MOTION,
                                severity: Severity::Warning,
                                message: followed(
                                    what,
                                    ", and no variant table carries the switch it would animate, so nothing is left for it to degrade",
                                ),
                            },
                        ),
                        None => {},
                    }
                    proof {
                        assert(echoables_view(out@) =~= before + switch_findings(s, *landing, reach, by));
                    }
                    return;
                },
            },
            SetState::NamedItsLoss(_) => {
                match refused_motion {
                    Some(what) => push_echo(
                        out,
                        Echoable {
                            rule: UNSUPPORTED_MOTION,
                            severity: Severity::Warning,
                            message: followed(
                                what,
                                ", and no variant table carries the switch it would animate, so nothing is left for it to degrade",
                            ),
                        },
                    ),
                    None => {},
                }
                proof {
                    assert(echoables_view(out@) =~= before + switch_findings(s, *landing, reach, by));
                }
                return;
            },
            SetState::Silent => Some(
                (
                    by,
                    ", whose component set has no second member to switch to, so the switch lowers nowhere",
                ),
            ),
        },
        Landing::NotAMember => Some(
            (
                by,
                ", which is not a member of the component set this layer belongs to, so the switch lowers nowhere",
            ),
        ),
        Landing::NoSet => Some(
            (by, ", and this layer belongs to no component set, so the switch lowers nowhere"),
        ),
        Landing::LibraryAbsent => Some(
            (
                Severity::Warning,
                ", and this file does not contain the component whose instance this layer belongs to, so the switch lowers nowhere",
            ),
        ),
    };
    match omitted {
        None => {
            match refused_motion {
                Some(what) => push_echo(
                    out,
                    Echoable {
                        rule: UNSUPPORTED_MOTION,
                        severity: Severity::Warning,
                        message: followed(what, "; the switch lands in one frame"),
                    },
                ),
                None => {},
            }
        },
        Some((earned, tail)) => {
            let mut message = string_of("a CHANGE_TO names destination ");
            push_str(&mut message, destination.as_str());
            push_str(&mut message, tail);
            push_echo(out, Echoable { rule: UNSUPPORTED_INTERACTION, severity: earned, message });
            match refused_motion {
                Some(what) => push_echo(
                    out,
                    Echoable {
                        rule: UNSUPPORTED_INTERACTION,
                        severity: earned,
                        message: followed(what, ", and the switch it would animate lowers nowhere"),
                    },
                ),
                None => {},
            }
        },
    }
    proof {
        assert(echoables_view(out@) =~= before + switch_findings(s, *landing, reach, by));
    }
}

/// One node's read interactions, as findings the caller places.
/// `resolved` runs parallel to `read.switches`: for each switch, where it
/// lands and how far it got. It is handed no location.
pub fn interaction_diagnostics(
    read: &Interactions,
    resolved: &[(Landing, Reach)],
    policy: EmitPolicy,
) -> (out: Vec<Echoable>)
    ensures
        echoables_view(out@) == interaction_findings(read@, resolved@, policy),
{
    let by = omission_severity(policy);
    let mut out: Vec<Echoable> = Vec::new();
    let ghost gaps = read@.unsupported.map_values(|what: Seq<char>| vocabulary_gap(what, by));
    let mut i: usize = 0;
    while i < read.unsupported.len()
        invariant
            i <= read.unsupported@.len(),
            by == omission_weight(policy),
            gaps == read@.unsupported.map_values(|what: Seq<char>| vocabulary_gap(what, by)),
            echoables_view(out@) == gaps.take(i as int),
        decreases read.unsupported@.len() - i,
    {
        let mut message = read.unsupported[i].clone();
        push_str(&mut message, " is not in the document vocabulary");
        push_echo(&mut out, Echoable { rule: UNSUPPORTED_INTERACTION, severity: by, message });
        proof {
            assert(read@.unsupported[i as int] == read.unsupported@[i as int]@);
            assert(gaps.take(i + 1) =~= gaps.take(i as int).push(gaps[i as int]));
        }
        i = i + 1;
    }
    proof {
        assert(gaps.take(i as int) =~= gaps);
    }
    let n = if read.switches.len() <= resolved.len() {
        read.switches.len()
    } else {
        resolved.len()
    };
    let mut k: usize = 0;
    while k < n
        invariant
            k <= n,
            n <= read.switches@.len(),
            n <= resolved@.len(),
            echoables_view(out@) == gaps + switches_findings(read@.switches, resolved@, by, k as nat),
        decreases n - k,
    {
        let switch = &read.switches[k];
        let ghost sv = read@.switches[k as int];
        proof {
            assert(sv == switch@);
        }
        let (landing, reach) = &resolved[k];
        push_switch_findings(&mut out, switch, landing, *reach, by);
        proof {
            assert(gaps + switches_findings(read@.switches, resolved@, by, (k + 1) as nat) =~= gaps
                + switches_findings(read@.switches, resolved@, by, k as nat) + switch_findings(
                sv,
                resolved@[k as int].0,
                resolved@[k as int].1,
                by,
            ));
        }
        k = k + 1;
    }
    out
}

/// One distinct rendering reported for an authored layer and rule: where
/// its first copy landed in the findings, and how many copies there were.
#[derive(Debug)]
struct Echo {
    source: String,
    rule: &'static str,
    index: usize,
    copies: usize,
}

pub struct EchoView {
    pub source: Seq<char>,
    pub rule: Seq<char>,
    pub index: int,
    pub copies: int,
}

impl View for Echo {
    type V = EchoView;

    closed spec fn view(&self) -> EchoView {
        EchoView {
            source: self.source@,
            rule: self.rule@,
            index: self.index as int,
            copies: self.copies as int,
        }
    }
}

/// The findings so far, and the echo collapse's state over them.
pub struct Collapse {
    diagnostics: Vec<Diagnostic>,
    echoed: Vec<Echo>,
    reported: Ghost<nat>,
}

/// The collapse by value.
pub struct CollapseView {
    pub diagnostics: Seq<DiagnosticView>,
    pub echoed: Seq<EchoView>,
}

impl View for Collapse {
    type V = CollapseView;

    closed spec fn view(&self) -> CollapseView {
        CollapseView {
            diagnostics: self.diagnostics@.map_values(|d: Diagnostic| d@),
            echoed: self.echoed@.map_values(|e: Echo| e@),
        }
    }
}

/// Each echo points at a finding of its rule, and no two echoes share a
/// finding.
pub open spec fn echoes_placed(c: CollapseView) -> bool {
    &&& forall|k: int|
        0 <= k < c.echoed.len() ==> {
            let e = #[trigger] c.echoed[k];
            &&& 0 <= e.index < c.diagnostics.len()
            &&& c.diagnostics[e.index].rule == e.rule
            &&& 1 <= e.copies
        }
    &&& forall|a: int, b: int|
        0 <= a < b < c.echoed.len() ==> (#[trigger] c.echoed[a]).index != (#[trigger] c.echoed[b]).index
}

/// No two echoes agree in authored layer, rule and message: each such
/// finding is reported once.
pub open spec fn reported_once(c: CollapseView) -> bool {
    forall|a: int, b: int|
        0 <= a < b < c.echoed.len() ==> !({
            let ea = #[trigger] c.echoed[a];
            let eb = #[trigger] c.echoed[b];
            &&& ea.source == eb.source
            &&& ea.rule == eb.rule
            &&& c.diagnostics[ea.index].message == c.diagnostics[eb.index].message
        })
}

pub open spec fn collapse_wf(c: CollapseView) -> bool {
    echoes_placed(c) && reported_once(c)
}

/// The echo a finding for `source` folds into: same layer, same rule, same
/// message.
pub open spec fn folds_into(c: CollapseView, source: Seq<char>, f: EchoableView) -> spec_fn(EchoView) -> bool {
    |e: EchoView|
        e.source == source && e.rule == f.rule && c.diagnostics[e.index].rule == f.rule
            && c.diagnostics[e.index].message == f.message
}

/// Reporting `f` for `source` at `at`: one more copy of the echo it folds
/// into, or a new finding and a new echo of one copy.
pub open spec fn report_spec(c: CollapseView, source: Seq<char>, f: EchoableView, at: LocationView) -> CollapseView {
    match first_match(c.echoed, folds_into(c, source, f)) {
        Some(k) => CollapseView {
            diagnostics: c.diagnostics,
            echoed: c.echoed.update(
                k,
                EchoView {
                    source: c.echoed[k].source,
                    rule: c.echoed[k].rule,
                    index: c.echoed[k].index,
                    copies: c.echoed[k].copies + 1,
                },
            ),
        },
        None => CollapseView {
            diagnostics: c.diagnostics.push(placed(f, at)),
            echoed: c.echoed.push(
                EchoView { source, rule: f.rule, index: c.diagnostics.len() as int, copies: 1 },
            ),
        },
    }
}

/// What `finish` appends to a survivor of `copies` copies.
pub open spec fn copies_note(copies: int) -> Seq<char> {
    " (and "@ + decimal((copies - 1) as nat) + " further "@ + (if copies == 2 {
        "copy"@
    } else {
        "copies"@
    }) + " of the same reaction, not listed separately)"@
}

pub open spec fn at_index(i: int) -> spec_fn(EchoView) -> bool {
    |e: EchoView| e.index == i
}

/// Finding `d`, at `i`, as `finish` leaves it given the echoes `es`.
pub open spec fn finished(d: DiagnosticView, i: int, es: Seq<EchoView>) -> DiagnosticView {
    match first_match(es, at_index(i)) {
        Some(k) => if es[k].copies > 1 {
            DiagnosticView {
                rule: d.rule,
                severity: d.severity,
                at: d.at,
                message: d.message + copies_note(es[k].copies),
            }
        } else {
            d
        },
        None => d,
    }
}

pub open spec fn finish_spec(c: CollapseView) -> Seq<DiagnosticView> {
    Seq::new(c.diagnostics.len(), |i: int| finished(c.diagnostics[i], i, c.echoed))
}

impl Collapse {
    /// Whether the state is consistent, and no echo has counted more copies
    /// than there were reports.
    pub closed spec fn wf(&self) -> bool {
        &&& collapse_wf(self@)
        &&& forall|k: int| 0 <= k < self.echoed@.len() ==> (#[trigger] self.echoed@[k]).copies <= self.reported@
    }

    /// How many findings have been reported through the collapse.
    pub closed spec fn reported(&self) -> nat {
        self.reported@
    }

    pub fn new() -> (c: Self)
        ensures
            c.wf(),
            c@.diagnostics.len() == 0,
            c@.echoed.len() == 0,
            c@ == run_calls(Seq::empty()),
            c.reported() == 0,
    {
        let c = Collapse { diagnostics: Vec::new(), echoed: Vec::new(), reported: Ghost(0) };
        proof {
            assert(c@.echoed =~= Seq::<EchoView>::empty());
            assert(c@.diagnostics =~= Seq::<DiagnosticView>::empty());
            assert(run_calls(Seq::empty()) == CollapseView { diagnostics: Seq::empty(), echoed: Seq::empty() });
        }
        c
    }

    /// How many findings stand so far.
    pub fn len(&self) -> (n: usize)
        ensures
            n == self@.diagnostics.len(),
    {
        self.diagnostics.len()
    }

    /// A finding that never collapses: one whose multiplicity is the finding.
    pub fn push(&mut self, diagnostic: Diagnostic)
        requires
            old(self).wf(),
        ensures
            final(self).wf(),
            final(self)@.diagnostics == old(self)@.diagnostics.push(diagnostic@),
            final(self)@.echoed == old(self)@.echoed,
            final(self)@ == call_step(old(self)@, CollapseCall::Push(diagnostic@)),
            final(self).reported() == old(self).reported(),
    {
        let ghost before = self@;
        let ghost dv = diagnostic@;
        self.diagnostics.push(diagnostic);
        proof {
            assert(self@.diagnostics =~= before.diagnostics.push(dv));
            assert(self@.echoed =~= before.echoed);
            assert forall|k: int| 0 <= k < self@.echoed.len() implies {
                let e = #[trigger] self@.echoed[k];
                &&& 0 <= e.index < self@.diagnostics.len()
                &&& self@.diagnostics[e.index].rule == e.rule
                &&& 1 <= e.copies
            } by {
                assert(before.echoed[k] == self@.echoed[k]);
            }
            assert forall|a: int, b: int| 0 <= a < b < self@.echoed.len() implies !({
                let ea = #[trigger] self@.echoed[a];
                let eb = #[trigger] self@.echoed[b];
                &&& ea.source == eb.source
                &&& ea.rule == eb.rule
                &&& self@.diagnostics[ea.index].message == self@.diagnostics[eb.index].message
            }) by {
                assert(self@.diagnostics[before.echoed[a].index] == before.diagnostics[before.echoed[a].index]);
                assert(self@.diagnostics[before.echoed[b].index] == before.diagnostics[before.echoed[b].index]);
            }
        }
    }

    /// Several of those at once, in order.
    pub fn extend(&mut self, findings: Vec<Diagnostic>)
        requires
            old(self).wf(),
        ensures
            final(self).wf(),
            final(self)@.diagnostics == old(self)@.diagnostics + findings@.map_values(|d: Diagnostic| d@),
            final(self)@.echoed == old(self)@.echoed,
            final(self).reported() == old(self).reported(),
    {
        let ghost before = self@;
        let ghost added = findings@;
        let mut findings = findings;
        self.diagnostics.append(&mut findings);
        proof {
            assert(self@.diagnostics =~= before.diagnostics + added.map_values(|d: Diagnostic| d@));
            assert(self@.echoed =~= before.echoed);
            assert forall|k: int| 0 <= k < self@.echoed.len() implies {
                let e = #[trigger] self@.echoed[k];
                &&& 0 <= e.index < self@.diagnostics.len()
                &&& self@.diagnostics[e.index].rule == e.rule
                &&& 1 <= e.copies
            } by {
                assert(before.echoed[k] == self@.echoed[k]);
                assert(self@.diagnostics[before.echoed[k].index] == before.diagnostics[before.echoed[k].index]);
            }
            assert forall|a: int, b: int| 0 <= a < b < self@.echoed.len() implies !({
                let ea = #[trigger] self@.echoed[a];
                let eb = #[trigger] self@.echoed[b];
                &&& ea.source == eb.source
                &&& ea.rule == eb.rule
                &&& self@.diagnostics[ea.index].message == self@.diagnostics[eb.index].message
            }) by {
                assert(self@.diagnostics[before.echoed[a].index] == before.diagnostics[before.echoed[a].index]);
                assert(self@.diagnostics[before.echoed[b].index] == before.diagnostics[before.echoed[b].index]);
            }
        }
    }

    /// Reports `finding` for the authored layer `source` at `at`, or folds
    /// it into an identical one already reported for that layer.
    pub fn report(&mut self, source: &str, finding: Echoable, at: Location)
        requires
            old(self).wf(),
            old(self).reported() < usize::MAX,
        ensures
            final(self).wf(),
            collapse_wf(final(self)@),
            final(self)@ == report_spec(old(self)@, source@, finding@, at@),
            final(self)@ == call_step(old(self)@, CollapseCall::Report(source@, finding@, at@)),
            final(self).reported() == old(self).reported() + 1,
    {
        let ghost c = self@;
        let ghost p = folds_into(c, source@, finding@);
        let mut k: usize = 0;
        while k < self.echoed.len()
            invariant
                k <= self.echoed@.len(),
                self@ == c,
                c == old(self)@,
                self.reported() == old(self).reported(),
                self.wf(),
                self.reported() < usize::MAX,
                p == folds_into(c, source@, finding@),
                forall|j: int| 0 <= j < k ==> !p(#[trigger] c.echoed[j]),
            decreases self.echoed@.len() - k,
        {
            let index = self.echoed[k].index;
            proof {
                assert(c.echoed[k as int] == self.echoed@[k as int]@);
                assert(0 <= c.echoed[k as int].index < c.diagnostics.len());
                assert(c.diagnostics[index as int] == self.diagnostics@[index as int]@);
            }
            if str_eq(self.echoed[k].source.as_str(), source) && str_eq(self.echoed[k].rule, finding.rule)
                && finding.renders_as(&self.diagnostics[index]) {
                proof {
                    lemma_first_match_at(c.echoed, p, k as int);
                }
                let copies = self.echoed[k].copies;
                self.echoed[k].copies = copies + 1;
                self.reported = Ghost(self.reported@ + 1);
                proof {
                    let n = self@;
                    let want = report_spec(c, source@, finding@, at@);
                    assert(n.diagnostics =~= want.diagnostics);
                    assert(n.echoed =~= want.echoed);
                    assert forall|a: int, b: int| 0 <= a < b < n.echoed.len() implies !({
                        let ea = #[trigger] n.echoed[a];
                        let eb = #[trigger] n.echoed[b];
                        &&& ea.source == eb.source
                        &&& ea.rule == eb.rule
                        &&& n.diagnostics[ea.index].message == n.diagnostics[eb.index].message
                    }) by {
                        assert(c.echoed[a].source == n.echoed[a].source && c.echoed[a].rule == n.echoed[a].rule
                            && c.echoed[a].index == n.echoed[a].index);
                        assert(c.echoed[b].source == n.echoed[b].source && c.echoed[b].rule == n.echoed[b].rule
                            && c.echoed[b].index == n.echoed[b].index);
                    }
                    assert forall|a: int, b: int| 0 <= a < b < n.echoed.len() implies (#[trigger] n.echoed[a]).index
                        != (#[trigger] n.echoed[b]).index by {
                        assert(c.echoed[a].index == n.echoed[a].index);
                        assert(c.echoed[b].index == n.echoed[b].index);
                    }
                    assert forall|j: int| 0 <= j < n.echoed.len() implies {
                        let e = #[trigger] n.echoed[j];
                        &&& 0 <= e.index < n.diagnostics.len()
                        &&& n.diagnostics[e.index].rule == e.rule
                        &&& 1 <= e.copies
                    } by {
                        assert(c.echoed[j].index == n.echoed[j].index && c.echoed[j].rule == n.echoed[j].rule);
                    }
                    assert forall|j: int| 0 <= j < self.echoed@.len() implies (#[trigger] self.echoed@[j]).copies
                        <= self.reported@ by {
                        assert(self.echoed@[j]@ == n.echoed[j]);
                    }
                }
                return;
            }
            k = k + 1;
        }
        proof {
            lemma_first_match_none(c.echoed, p);
        }
        let index = self.diagnostics.len();
        let ghost fv = finding@;
        let ghost av = at@;
        let e = Echo { source: string_of(source), rule: finding.rule, index, copies: 1 };
        self.echoed.push(e);
        self.diagnostics.push(finding.at(at));
        self.reported = Ghost(self.reported@ + 1);
        proof {
            let n = self@;
            let want = report_spec(c, source@, fv, av);
            assert(n.diagnostics =~= want.diagnostics);
            assert(n.echoed =~= want.echoed);
            assert forall|a: int, b: int| 0 <= a < b < n.echoed.len() implies !({
                let ea = #[trigger] n.echoed[a];
                let eb = #[trigger] n.echoed[b];
                &&& ea.source == eb.source
                &&& ea.rule == eb.rule
                &&& n.diagnostics[ea.index].message == n.diagnostics[eb.index].message
            }) by {
                if b == c.echoed.len() {
                    assert(!p(c.echoed[a]));
                    assert(n.echoed[a] == c.echoed[a]);
                    assert(n.diagnostics[c.echoed[a].index] == c.diagnostics[c.echoed[a].index]);
                } else {
                    assert(n.echoed[a] == c.echoed[a] && n.echoed[b] == c.echoed[b]);
                    assert(n.diagnostics[c.echoed[a].index] == c.diagnostics[c.echoed[a].index]);
                    assert(n.diagnostics[c.echoed[b].index] == c.diagnostics[c.echoed[b].index]);
                }
            }
            assert forall|a: int, b: int| 0 <= a < b < n.echoed.len() implies (#[trigger] n.echoed[a]).index
                != (#[trigger] n.echoed[b]).index by {
                if b == c.echoed.len() {
                    assert(n.echoed[a] == c.echoed[a]);
                } else {
                    assert(n.echoed[a] == c.echoed[a] && n.echoed[b] == c.echoed[b]);
                }
            }
            assert forall|j: int| 0 <= j < n.echoed.len() implies {
                let e = #[trigger] n.echoed[j];
                &&& 0 <= e.index < n.diagnostics.len()
                &&& n.diagnostics[e.index].rule == e.rule
                &&& 1 <= e.copies
            } by {
                if j < c.echoed.len() {
                    assert(n.echoed[j] == c.echoed[j]);
                    assert(n.diagnostics[c.echoed[j].index] == c.diagnostics[c.echoed[j].index]);
                }
            }
            assert forall|j: int| 0 <= j < self.echoed@.len() implies (#[trigger] self.echoed@[j]).copies
                <= self.reported@ by {
                assert(self.echoed@[j]@ == n.echoed[j]);
            }
        }
    }

    /// The findings, each survivor of a collapse naming how many copies it
    /// stands for.
    pub fn finish(self) -> (out: Vec<Diagnostic>)
        requires
            self.wf(),
        ensures
            out@.map_values(|d: Diagnostic| d@) == finish_spec(self@),
    {
        let ghost c = self@;
        let Collapse { diagnostics, echoed, reported } = self;
        let mut ds = diagnostics;
        let mut k: usize = 0;
        while k < echoed.len()
            invariant
                k <= echoed@.len(),
                c.echoed == echoed@.map_values(|e: Echo| e@),
                echoes_placed(c),
                ds@.len() == c.diagnostics.len(),
                forall|i: int| 0 <= i < ds@.len() ==> (#[trigger] ds@[i])@ == finished(
                    c.diagnostics[i],
                    i,
                    c.echoed.take(k as int),
                ),
            decreases echoed@.len() - k,
        {
            let index = echoed[k].index;
            let copies = echoed[k].copies;
            let ghost before = ds@;
            let ghost pre = c.echoed.take(k as int);
            let ghost next = c.echoed.take(k + 1);
            proof {
                assert(c.echoed[k as int] == echoed@[k as int]@);
                assert(next.drop_last() =~= pre);
                assert forall|j: int| 0 <= j < pre.len() implies !at_index(index as int)(#[trigger] pre[j]) by {
                    assert(pre[j] == c.echoed[j]);
                }
                lemma_first_match_none(pre, at_index(index as int));
            }
            if copies > 1 {
                let mut note = string_of(" (and ");
                push_decimal(&mut note, (copies - 1) as u64);
                push_str(&mut note, " further ");
                if copies == 2 {
                    push_str(&mut note, "copy");
                } else {
                    push_str(&mut note, "copies");
                }
                push_str(&mut note, " of the same reaction, not listed separately)");
                proof {
                    assert(note@ == copies_note(copies as int));
                }
                push_str(&mut ds[index].message, note.as_str());
                proof {
                    assert(ds@[index as int].message@ == before[index as int].message@ + note@);
                    assert(ds@[index as int].rule == before[index as int].rule);
                    assert(ds@[index as int].severity == before[index as int].severity);
                    assert(ds@[index as int].at == before[index as int].at);
                    assert(forall|i: int| 0 <= i < ds@.len() && i != index ==> ds@[i] == before[i]);
                }
            }
            proof {
                let e = c.echoed[k as int];
                assert(next.last() == e);
                assert(first_match(next, at_index(index as int)) == Some(k as int));
                assert forall|i: int| 0 <= i < ds@.len() implies (#[trigger] ds@[i])@ == finished(
                    c.diagnostics[i],
                    i,
                    next,
                ) by {
                    if i == index {
                        assert(first_match(next, at_index(i)) == Some(k as int));
                        assert(first_match(pre, at_index(i)) is None);
                        assert(before[i]@ == c.diagnostics[i]);
                        assert(next[k as int] == e);
                        assert(e.copies == copies as int);
                        if copies > 1 {
                            assert(ds@[i]@.message == c.diagnostics[i].message + copies_note(e.copies));
                            assert(ds@[i]@ == finished(c.diagnostics[i], i, next));
                        } else {
                            assert(ds@[i]@ == finished(c.diagnostics[i], i, next));
                        }
                    } else {
                        assert(ds@[i] == before[i]);
                        assert(!at_index(i)(next.last()));
                        assert(first_match(next, at_index(i)) == first_match(pre, at_index(i)));
                        assert(before[i]@ == finished(c.diagnostics[i], i, pre));
                        lemma_first_match(pre, at_index(i));
                        match first_match(pre, at_index(i)) {
                            Some(j) => { assert(pre[j] == next[j]); },
                            None => {},
                        }
                    }
                }
            }
            k = k + 1;
        }
        proof {
            assert(c.echoed.take(k as int) =~= c.echoed);
            assert(ds@.map_values(|d: Diagnostic| d@) =~= finish_spec(c));
        }
        ds
    }
}

/// Findings agreeing in rule, message and authored layer are reported once:
/// reporting again, for the same layer, a finding the collapse already holds
/// adds no finding (whatever place and severity the copy has) and folds into
/// an echo of the first.
pub proof fn a_repeated_finding_folds(
    c: CollapseView,
    source: Seq<char>,
    f: EchoableView,
    g: EchoableView,
    at1: LocationView,
    at2: LocationView,
)
    requires
        collapse_wf(c),
        g.rule == f.rule,
        g.message == f.message,
    ensures
        ({
            let c1 = report_spec(c, source, f, at1);
            let c2 = report_spec(c1, source, g, at2);
            &&& c2.diagnostics == c1.diagnostics
            &&& c2.echoed.len() == c1.echoed.len()
            &&& first_match(c1.echoed, folds_into(c1, source, g)) is Some
        }),
{
    let c1 = report_spec(c, source, f, at1);
    let q = folds_into(c1, source, g);
    lemma_first_match(c.echoed, folds_into(c, source, f));
    let witness: int = match first_match(c.echoed, folds_into(c, source, f)) {
        Some(k) => {
            assert(c1.echoed[k].index == c.echoed[k].index);
            k
        },
        None => c.echoed.len() as int,
    };
    assert(q(c1.echoed[witness]));
    lemma_first_match(c1.echoed, q);
}

// ---- the collapse over a run of calls ---------------------------------------

/// One call on a collapse, by value: a `push` (each finding an `extend`
/// adds is one), or a `report` of a finding for a layer at a place.
pub enum CollapseCall {
    Push(DiagnosticView),
    Report(Seq<char>, EchoableView, LocationView),
}

/// A finding's identity in the collapse: its layer, rule and message.
pub type FindingKey = (Seq<char>, Seq<char>, Seq<char>);

pub open spec fn call_step(c: CollapseView, call: CollapseCall) -> CollapseView {
    match call {
        CollapseCall::Push(d) => CollapseView { diagnostics: c.diagnostics.push(d), echoed: c.echoed },
        CollapseCall::Report(s, f, at) => report_spec(c, s, f, at),
    }
}

/// The collapse after `calls`, from a new one.
pub open spec fn run_calls(calls: Seq<CollapseCall>) -> CollapseView
    decreases calls.len(),
{
    if calls.len() == 0 {
        CollapseView { diagnostics: Seq::empty(), echoed: Seq::empty() }
    } else {
        call_step(run_calls(calls.drop_last()), calls.last())
    }
}

/// Whether `call` reports a finding under `key`.
pub open spec fn reports(call: CollapseCall, key: FindingKey) -> bool {
    call matches CollapseCall::Report(s, f, _) && s == key.0 && f.rule == key.1 && f.message == key.2
}

/// How many of `calls` report a finding under `key`.
pub open spec fn report_count(calls: Seq<CollapseCall>, key: FindingKey) -> nat
    decreases calls.len(),
{
    if calls.len() == 0 {
        0
    } else {
        report_count(calls.drop_last(), key) + if reports(calls.last(), key) {
            1nat
        } else {
            0nat
        }
    }
}

/// The findings `calls` leave, in call order, before copies are noted:
/// every pushed finding, and the first report under each key, placed where
/// it was reported; each with the key it was reported under, if any.
pub open spec fn kept(calls: Seq<CollapseCall>) -> Seq<(DiagnosticView, Option<FindingKey>)>
    decreases calls.len(),
{
    if calls.len() == 0 {
        Seq::empty()
    } else {
        let before = kept(calls.drop_last());
        match calls.last() {
            CollapseCall::Push(d) => before.push((d, None)),
            CollapseCall::Report(s, f, at) => if report_count(
                calls.drop_last(),
                (s, f.rule, f.message),
            ) > 0 {
                before
            } else {
                before.push((placed(f, at), Some((s, f.rule, f.message))))
            },
        }
    }
}

/// A kept finding as `finish` leaves it: a report that stands for `k > 1`
/// copies names the `k - 1` it absorbed; nothing else changes.
pub open spec fn noted(d: DiagnosticView, key: Option<FindingKey>, calls: Seq<CollapseCall>) -> DiagnosticView {
    match key {
        Some(k) => if report_count(calls, k) > 1 {
            DiagnosticView {
                rule: d.rule,
                severity: d.severity,
                at: d.at,
                message: d.message + copies_note(report_count(calls, k) as int),
            }
        } else {
            d
        },
        None => d,
    }
}

pub open spec fn collapsed(calls: Seq<CollapseCall>) -> Seq<DiagnosticView> {
    let ks = kept(calls);
    Seq::new(ks.len(), |i: int| noted(ks[i].0, ks[i].1, calls))
}

pub open spec fn echo_key(c: CollapseView, e: EchoView) -> FindingKey {
    (e.source, e.rule, c.diagnostics[e.index].message)
}

/// How the collapse after `calls` stands to what they kept.
spec fn tracks(calls: Seq<CollapseCall>, c: CollapseView) -> bool {
    let ks = kept(calls);
    &&& c.diagnostics.len() == ks.len()
    &&& forall|i: int| 0 <= i < ks.len() ==> c.diagnostics[i] == (#[trigger] ks[i]).0
    &&& echoes_placed(c)
    &&& forall|k: int|
        0 <= k < c.echoed.len() ==> {
            let e = #[trigger] c.echoed[k];
            &&& ks[e.index].1 == Some(echo_key(c, e))
            &&& e.copies == report_count(calls, echo_key(c, e))
        }
    &&& forall|i: int|
        0 <= i < ks.len() && (#[trigger] ks[i]).1 is Some ==> exists|k: int|
            0 <= k < c.echoed.len() && (#[trigger] c.echoed[k]).index == i
    &&& forall|i: int, j: int|
        0 <= i < j < ks.len() && (#[trigger] ks[i]).1 is Some ==> (#[trigger] ks[j]).1 != ks[i].1
    &&& forall|key: FindingKey|
        #[trigger] report_count(calls, key) > 0 ==> exists|i: int|
            0 <= i < ks.len() && (#[trigger] ks[i]).1 == Some(key)
}

proof fn lemma_tracks(calls: Seq<CollapseCall>)
    ensures
        tracks(calls, run_calls(calls)),
    decreases calls.len(),
{
    if calls.len() == 0 {
        return;
    }
    let prev = calls.drop_last();
    lemma_tracks(prev);
    let c = run_calls(prev);
    let ks = kept(prev);
    let n = run_calls(calls);
    let nks = kept(calls);
    assert(forall|key: FindingKey| #[trigger] report_count(calls, key) == report_count(prev, key) + if reports(calls.last(), key) {
        1nat
    } else {
        0nat
    });
    match calls.last() {
        CollapseCall::Push(d) => {
            assert(n.diagnostics == c.diagnostics.push(d));
            assert(n.echoed == c.echoed);
            assert(nks == ks.push((d, None::<FindingKey>)));
            assert forall|k: int| 0 <= k < n.echoed.len() implies {
                let e = #[trigger] n.echoed[k];
                &&& nks[e.index].1 == Some(echo_key(n, e))
                &&& e.copies == report_count(calls, echo_key(n, e))
            } by {
                let e = c.echoed[k];
                assert(n.diagnostics[e.index] == c.diagnostics[e.index]);
                assert(nks[e.index] == ks[e.index]);
                assert(!reports(calls.last(), echo_key(c, e)));
            }
            assert forall|i: int| 0 <= i < nks.len() && (#[trigger] nks[i]).1 is Some implies exists|k: int|
                0 <= k < n.echoed.len() && (#[trigger] n.echoed[k]).index == i by {
                assert(nks[i] == ks[i]);
            }
            assert forall|i: int, j: int| 0 <= i < j < nks.len() && (#[trigger] nks[i]).1 is Some implies (
            #[trigger] nks[j]).1 != nks[i].1 by {
                assert(nks[i] == ks[i]);
                if j < ks.len() {
                    assert(nks[j] == ks[j]);
                }
            }
            assert forall|key: FindingKey| #[trigger] report_count(calls, key) > 0 implies exists|i: int|
                0 <= i < nks.len() && (#[trigger] nks[i]).1 == Some(key) by {
                assert(report_count(prev, key) > 0);
                let i = choose|i: int| 0 <= i < ks.len() && (#[trigger] ks[i]).1 == Some(key);
                assert(nks[i] == ks[i]);
            }
            assert forall|k: int| 0 <= k < n.echoed.len() implies {
                let e = #[trigger] n.echoed[k];
                &&& 0 <= e.index < n.diagnostics.len()
                &&& n.diagnostics[e.index].rule == e.rule
                &&& 1 <= e.copies
            } by {
                assert(n.diagnostics[c.echoed[k].index] == c.diagnostics[c.echoed[k].index]);
            }
        },
        CollapseCall::Report(src, f, at) => {
            let key: FindingKey = (src, f.rule, f.message);
            let p = folds_into(c, src, f);
            assert forall|k: int| 0 <= k < c.echoed.len() implies (p(#[trigger] c.echoed[k]) <==> echo_key(
                c,
                c.echoed[k],
            ) == key) by {}
            lemma_first_match(c.echoed, p);
            if report_count(prev, key) > 0 {
                let i = choose|i: int| 0 <= i < ks.len() && (#[trigger] ks[i]).1 == Some(key);
                let k0 = choose|k: int| 0 <= k < c.echoed.len() && (#[trigger] c.echoed[k]).index == i;
                assert(p(c.echoed[k0]));
                let kk = first_match(c.echoed, p)->0;
                assert(echo_key(c, c.echoed[kk]) == key);
                assert(nks == ks);
                assert(n.diagnostics == c.diagnostics);
                assert forall|j: int| 0 <= j < c.echoed.len() && j != kk implies echo_key(c, #[trigger] c.echoed[j])
                    != key by {
                    if echo_key(c, c.echoed[j]) == key {
                        let a = c.echoed[j].index;
                        let b = c.echoed[kk].index;
                        if a < b {
                            assert(ks[b].1 != ks[a].1);
                        } else if b < a {
                            assert(ks[a].1 != ks[b].1);
                        }
                    }
                }
                assert forall|k: int| 0 <= k < n.echoed.len() implies {
                    let e = #[trigger] n.echoed[k];
                    &&& nks[e.index].1 == Some(echo_key(n, e))
                    &&& e.copies == report_count(calls, echo_key(n, e))
                } by {
                    assert(n.echoed[k].index == c.echoed[k].index);
                    assert(n.echoed[k].source == c.echoed[k].source);
                    assert(n.echoed[k].rule == c.echoed[k].rule);
                    if k != kk {
                        assert(n.echoed[k] == c.echoed[k]);
                        assert(!reports(calls.last(), echo_key(c, c.echoed[k])));
                    }
                }
                assert forall|i2: int| 0 <= i2 < nks.len() && (#[trigger] nks[i2]).1 is Some implies exists|k: int|
                    0 <= k < n.echoed.len() && (#[trigger] n.echoed[k]).index == i2 by {
                    let k1 = choose|k: int| 0 <= k < c.echoed.len() && (#[trigger] c.echoed[k]).index == i2;
                    assert(n.echoed[k1].index == i2);
                }
                assert forall|key2: FindingKey| #[trigger] report_count(calls, key2) > 0 implies exists|i2: int|
                    0 <= i2 < nks.len() && (#[trigger] nks[i2]).1 == Some(key2) by {
                    if key2 != key {
                        assert(!reports(calls.last(), key2));
                        assert(report_count(prev, key2) > 0);
                    }
                }
                assert forall|k: int| 0 <= k < n.echoed.len() implies {
                    let e = #[trigger] n.echoed[k];
                    &&& 0 <= e.index < n.diagnostics.len()
                    &&& n.diagnostics[e.index].rule == e.rule
                    &&& 1 <= e.copies
                } by {
                    assert(n.echoed[k].index == c.echoed[k].index);
                    assert(n.echoed[k].rule == c.echoed[k].rule);
                }
                assert forall|a: int, b: int| 0 <= a < b < n.echoed.len() implies (#[trigger] n.echoed[a]).index
                    != (#[trigger] n.echoed[b]).index by {
                    assert(n.echoed[a].index == c.echoed[a].index);
                    assert(n.echoed[b].index == c.echoed[b].index);
                }
            } else {
                assert forall|k: int| 0 <= k < c.echoed.len() implies !p(#[trigger] c.echoed[k]) by {
                    if p(c.echoed[k]) {
                        assert(c.echoed[k].copies >= 1);
                    }
                }
                assert(first_match(c.echoed, p) is None) by {
                    if let Some(k) = first_match(c.echoed, p) {
                        assert(!p(c.echoed[k]));
                    }
                }
                let d = placed(f, at);
                let ne = EchoView { source: src, rule: f.rule, index: c.diagnostics.len() as int, copies: 1 };
                assert(n.diagnostics == c.diagnostics.push(d));
                assert(n.echoed == c.echoed.push(ne));
                assert(nks == ks.push((d, Some(key))));
                assert(report_count(calls, key) == 1);
                assert forall|k: int| 0 <= k < n.echoed.len() implies {
                    let e = #[trigger] n.echoed[k];
                    &&& nks[e.index].1 == Some(echo_key(n, e))
                    &&& e.copies == report_count(calls, echo_key(n, e))
                } by {
                    if k < c.echoed.len() {
                        let e = c.echoed[k];
                        assert(n.echoed[k] == e);
                        assert(n.diagnostics[e.index] == c.diagnostics[e.index]);
                        assert(nks[e.index] == ks[e.index]);
                        assert(echo_key(c, e) != key);
                        assert(!reports(calls.last(), echo_key(c, e)));
                    } else {
                        assert(n.echoed[k] == ne);
                        assert(n.diagnostics[ne.index] == d);
                        assert(nks[ne.index] == (d, Some(key)));
                    }
                }
                assert forall|i2: int| 0 <= i2 < nks.len() && (#[trigger] nks[i2]).1 is Some implies exists|k: int|
                    0 <= k < n.echoed.len() && (#[trigger] n.echoed[k]).index == i2 by {
                    if i2 < ks.len() {
                        assert(nks[i2] == ks[i2]);
                        let k1 = choose|k: int| 0 <= k < c.echoed.len() && (#[trigger] c.echoed[k]).index == i2;
                        assert(n.echoed[k1] == c.echoed[k1]);
                    } else {
                        assert(n.echoed[c.echoed.len() as int] == ne);
                    }
                }
                assert forall|a: int, b: int| 0 <= a < b < nks.len() && (#[trigger] nks[a]).1 is Some implies (
                #[trigger] nks[b]).1 != nks[a].1 by {
                    assert(nks[a] == ks[a]);
                    if b < ks.len() {
                        assert(nks[b] == ks[b]);
                    } else {
                        let ka = ks[a].1->0;
                        if ka == key {
                            let k1 = choose|k: int| 0 <= k < c.echoed.len() && (#[trigger] c.echoed[k]).index == a;
                            assert(echo_key(c, c.echoed[k1]) == key);
                            assert(c.echoed[k1].copies >= 1);
                        }
                    }
                }
                assert forall|key2: FindingKey| #[trigger] report_count(calls, key2) > 0 implies exists|i2: int|
                    0 <= i2 < nks.len() && (#[trigger] nks[i2]).1 == Some(key2) by {
                    if key2 == key {
                        assert(nks[ks.len() as int].1 == Some(key));
                    } else {
                        assert(!reports(calls.last(), key2));
                        assert(report_count(prev, key2) > 0);
                        let i3 = choose|i: int| 0 <= i < ks.len() && (#[trigger] ks[i]).1 == Some(key2);
                        assert(nks[i3] == ks[i3]);
                    }
                }
                assert forall|k: int| 0 <= k < n.echoed.len() implies {
                    let e = #[trigger] n.echoed[k];
                    &&& 0 <= e.index < n.diagnostics.len()
                    &&& n.diagnostics[e.index].rule == e.rule
                    &&& 1 <= e.copies
                } by {
                    if k < c.echoed.len() {
                        assert(n.echoed[k] == c.echoed[k]);
                        assert(n.diagnostics[c.echoed[k].index] == c.diagnostics[c.echoed[k].index]);
                    }
                }
                assert forall|a: int, b: int| 0 <= a < b < n.echoed.len() implies (#[trigger] n.echoed[a]).index
                    != (#[trigger] n.echoed[b]).index by {
                    assert(n.echoed[a] == c.echoed[a]);
                    if b < c.echoed.len() {
                        assert(n.echoed[b] == c.echoed[b]);
                    }
                }
            }
        },
    }
}

/// Over any run of calls from a new collapse (`Collapse::new`, then
/// `push`, `extend` and `report`, each of which takes the steps of
/// `run_calls` its contract names), `finish` hands back, in call order,
/// every finding pushed and, for each layer, rule and message, only the
/// first report, where it was reported; a report that stood for `k > 1`
/// copies says so at the end of its message, and nothing else changes.
/// Reports that differ in message stay separate findings.
pub proof fn collapse_finishes_to_first_reports(calls: Seq<CollapseCall>)
    ensures
        finish_spec(run_calls(calls)) == collapsed(calls),
{
    lemma_tracks(calls);
    let c = run_calls(calls);
    let ks = kept(calls);
    assert forall|i: int| 0 <= i < ks.len() implies #[trigger] finished(c.diagnostics[i], i, c.echoed) == noted(
        ks[i].0,
        ks[i].1,
        calls,
    ) by {
        lemma_first_match(c.echoed, at_index(i));
        match ks[i].1 {
            Some(key) => {
                let k0 = choose|k: int| 0 <= k < c.echoed.len() && (#[trigger] c.echoed[k]).index == i;
                assert(at_index(i)(c.echoed[k0]));
                let k = first_match(c.echoed, at_index(i))->0;
                assert(c.echoed[k].index == i);
                assert(ks[i].1 == Some(echo_key(c, c.echoed[k])));
            },
            None => {
                if let Some(k) = first_match(c.echoed, at_index(i)) {
                    assert(ks[c.echoed[k].index].1 is Some);
                }
            },
        }
    }
    assert(finish_spec(c) =~= collapsed(calls));
}

} // verus!
