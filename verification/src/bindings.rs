//! The importer's joined variable-binding rows, and what they lower to:
//! signal declarations and binding rows joining a signal to a node channel.
//!
//! Every unsupported site is a named finding, never a silent drop, and never
//! an error: the lowering already emitted the site's resolved literal, so the
//! picture is right; only the live binding is not carried. The one error is
//! a signal name declared twice with two initial values.
use vstd::prelude::*;

use crate::diagnostics::{Diagnostic, DiagnosticView, Location, LocationView, NodePath, Severity};
use crate::document::{
    Binding, BindingChannel, BindingTransform, Document, FillKind, Node, SignalDecl,
    SignalDeclView, OPAQUE,
};
use crate::seqs::{first_match, lemma_first_match_at, lemma_first_match_none};
use crate::text::{chars_match_at, chars_of, push_str, str_eq, string_of};

verus! {

/// The row names a Figma node the lowering emitted no document node for.
pub const UNLOWERED_NODE: &'static str = "figma.bindings.unlowered-node";

/// The row's property path has no binding channel yet, or its value type
/// does not fit the path.
pub const UNSUPPORTED_PROPERTY: &'static str = "figma.bindings.unsupported-property";

/// Two rows declare one signal name with two different initial values.
pub const SIGNAL_CONFLICT: &'static str = "figma.bindings.signal-conflict";

/// A joined row's resolved value. `FLOAT` and `COLOR` are the two variable
/// types with a channel vocabulary; each component is carried as the bit
/// pattern of its IEEE-754 single-precision value, exactly as it crossed the
/// wire.
#[derive(Clone, Copy, Debug, PartialEq, Eq, Structural)]
pub enum BoundValue {
    Float(u32),
    Color { r: u32, g: u32, b: u32, a: u32 },
}

/// One joined variable-binding row, as decoded from the compile request.
#[derive(Clone, Debug)]
pub struct BoundVariable {
    /// The Figma node id the sidecar recorded (`"1:8"`).
    pub node_id: String,
    /// The sidecar property path (`"itemSpacing"`, `"fills[0].color"`).
    pub property: String,
    /// The mode-qualified signal name the join produced.
    pub signal: String,
    /// The variable's value, resolved for the node's mode.
    pub value: BoundValue,
}

/// A binding row by the values of its fields.
pub struct BoundVariableView {
    pub node_id: Seq<char>,
    pub property: Seq<char>,
    pub signal: Seq<char>,
    pub value: BoundValue,
}

impl View for BoundVariable {
    type V = BoundVariableView;

    open spec fn view(&self) -> BoundVariableView {
        BoundVariableView {
            node_id: self.node_id@,
            property: self.property@,
            signal: self.signal@,
            value: self.value,
        }
    }
}

/// The property paths with a channel mapping.
#[derive(Clone, Copy, Debug, PartialEq, Eq, Structural)]
pub enum PropertySite {
    /// `itemSpacing`: the auto-layout gap.
    ItemSpacing,
    /// `fills[i].color`: a paint's own solid color.
    FillColor,
    /// `opacity`: the node or group alpha.
    Opacity,
    Other,
}

pub open spec fn is_ascii_digit(c: char) -> bool {
    '0' <= c && c <= '9'
}

/// `fills[` then one or more ASCII digits then `].color`.
pub open spec fn is_fill_color_path(p: Seq<char>) -> bool {
    let pre = "fills["@;
    let suf = "].color"@;
    &&& p.len() > pre.len() + suf.len()
    &&& p.subrange(0, pre.len() as int) == pre
    &&& p.subrange(p.len() - suf.len(), p.len() as int) == suf
    &&& forall|i: int| pre.len() <= i < p.len() - suf.len() ==> is_ascii_digit(#[trigger] p[i])
}

/// Which channel family a property path names, by its shape.
pub open spec fn property_site(p: Seq<char>) -> PropertySite {
    if p == "itemSpacing"@ {
        PropertySite::ItemSpacing
    } else if p == "opacity"@ {
        PropertySite::Opacity
    } else if is_fill_color_path(p) {
        PropertySite::FillColor
    } else {
        PropertySite::Other
    }
}

/// Classifies a sidecar property path by its shape.
#[verifier::loop_isolation(false)]
pub fn classify_property(property: &str) -> (site: PropertySite)
    ensures
        site == property_site(property@),
{
    if str_eq(property, "itemSpacing") {
        return PropertySite::ItemSpacing;
    }
    if str_eq(property, "opacity") {
        return PropertySite::Opacity;
    }
    let v = chars_of(property);
    let pre = chars_of("fills[");
    let suf = chars_of("].color");
    if v.len() <= pre.len() || v.len() - pre.len() <= suf.len() {
        return PropertySite::Other;
    }
    if !chars_match_at(&v, 0, &pre) {
        return PropertySite::Other;
    }
    let end = v.len() - suf.len();
    if !chars_match_at(&v, end, &suf) {
        return PropertySite::Other;
    }
    let mut i = pre.len();
    while i < end
        invariant
            pre@.len() <= i <= end,
            end == v@.len() - suf@.len(),
            v@ == property@,
            forall|k: int| pre@.len() <= k < i ==> is_ascii_digit(#[trigger] v@[k]),
        decreases end - i,
    {
        let c = v[i];
        if c < '0' || c > '9' {
            assert(!is_ascii_digit(property@[i as int]));
            return PropertySite::Other;
        }
        i = i + 1;
    }
    PropertySite::FillColor
}

/// Where one lowered node landed, and what the binding rows need to know
/// about how it lowered.
#[derive(Clone, Debug)]
pub struct LoweredNode {
    /// The Figma node id it lowered from.
    pub node_id: String,
    /// The node's document index.
    pub index: u32,
    /// The node's diagnostic name path.
    pub path: String,
    /// The visible fill's paint opacity (bits; `1.0` when absent), which the
    /// lowering folds into the shipped literal's alpha.
    pub fill_opacity: u32,
}

pub struct LoweredNodeView {
    pub node_id: Seq<char>,
    pub index: u32,
    pub path: Seq<char>,
    pub fill_opacity: u32,
}

impl View for LoweredNode {
    type V = LoweredNodeView;

    open spec fn view(&self) -> LoweredNodeView {
        LoweredNodeView {
            node_id: self.node_id@,
            index: self.index,
            path: self.path@,
            fill_opacity: self.fill_opacity,
        }
    }
}

/// A signal named twice with two initial values, before the caller adds
/// where it happened.
#[derive(Clone, Debug)]
pub struct SignalConflict {
    pub name: String,
    /// The initial value (bits) the first declaration gave.
    pub declared: u32,
    /// The initial value (bits) the later row asked for.
    pub initial: u32,
}

/// What a row earned: a finished finding, or a signal conflict at a node.
/// A conflict's sentence quotes both values as decimals, so it is rendered
/// where floating point is at hand; its rule is `SIGNAL_CONFLICT` and it is
/// an error.
#[derive(Clone, Debug)]
pub enum Finding {
    Note(Diagnostic),
    Conflict(NodePath, SignalConflict),
}

pub enum FindingView {
    Note(DiagnosticView),
    Conflict { node: u32, path: Seq<char>, name: Seq<char>, declared: u32, initial: u32 },
}

impl View for Finding {
    type V = FindingView;

    open spec fn view(&self) -> FindingView {
        match self {
            Finding::Note(d) => FindingView::Note(d@),
            Finding::Conflict(at, c) => FindingView::Conflict {
                node: at.index,
                path: at.path@,
                name: c.name@,
                declared: c.declared,
                initial: c.initial,
            },
        }
    }
}

/// The sentence of a signal conflict, given its two initial values as the
/// decimals they print as.
pub open spec fn conflict_text(name: Seq<char>, declared: Seq<char>, initial: Seq<char>) -> Seq<char> {
    "signal \""@ + name + "\" is declared with initial "@ + declared + " and bound again with "@ + initial
        + "; one mode-qualified name resolves to one value, so the joined rows are inconsistent"@
}

/// A signal conflict as the finding it is: an error under
/// `SIGNAL_CONFLICT` at its node, quoting both initial values, which the
/// caller passes written in decimal.
pub fn conflict_diagnostic(at: NodePath, conflict: SignalConflict, declared: &str, initial: &str) -> (d:
    Diagnostic)
    ensures
        d@ == (DiagnosticView {
            rule: SIGNAL_CONFLICT@,
            severity: Severity::Error,
            at: LocationView::Node(at.index, at.path@),
            message: conflict_text(conflict.name@, declared@, initial@),
        }),
{
    let mut m = string_of("signal \"");
    push_str(&mut m, conflict.name.as_str());
    push_str(&mut m, "\" is declared with initial ");
    push_str(&mut m, declared);
    push_str(&mut m, " and bound again with ");
    push_str(&mut m, initial);
    push_str(&mut m, "; one mode-qualified name resolves to one value, so the joined rows are inconsistent");
    Diagnostic { rule: SIGNAL_CONFLICT, severity: Severity::Error, at: Location::Node(at), message: m }
}

pub open spec fn signals_view(s: Seq<SignalDecl>) -> Seq<SignalDeclView> {
    s.map_values(|d: SignalDecl| d@)
}

pub open spec fn findings_view(s: Seq<Finding>) -> Seq<FindingView> {
    s.map_values(|f: Finding| f@)
}

pub open spec fn rows_view(s: Seq<BoundVariable>) -> Seq<BoundVariableView> {
    s.map_values(|r: BoundVariable| r@)
}

pub open spec fn lowered_view(s: Seq<LoweredNode>) -> Seq<LoweredNodeView> {
    s.map_values(|l: LoweredNode| l@)
}

/// The tables the rows append to, and the findings they earn.
pub struct BindState {
    pub signals: Seq<SignalDeclView>,
    pub bindings: Seq<Binding>,
    pub findings: Seq<FindingView>,
}

pub open spec fn signal_named(name: Seq<char>) -> spec_fn(SignalDeclView) -> bool {
    |d: SignalDeclView| d.name == name
}

pub open spec fn lowered_from(id: Seq<char>) -> spec_fn(LoweredNodeView) -> bool {
    |l: LoweredNodeView| l.node_id == id
}

/// The index of the signal called `name` among those declared from `start`
/// on (those this application interned), if any.
pub open spec fn interned_at(signals: Seq<SignalDeclView>, start: int, name: Seq<char>) -> Option<
    int,
> {
    match first_match(signals.subrange(start, signals.len() as int), signal_named(name)) {
        Some(k) => Some(start + k),
        None => None,
    }
}

/// Binds `name` to `channel` on `node`: a name seen before reuses its
/// signal when the initial value repeats bit for bit and is a conflict when
/// it does not; a new name is declared at the end of the signal table.
pub open spec fn bind(
    st: BindState,
    start: int,
    name: Seq<char>,
    initial: u32,
    node: u32,
    path: Seq<char>,
    channel: BindingChannel,
    transform: BindingTransform,
) -> BindState {
    match interned_at(st.signals, start, name) {
        Some(k) => if st.signals[k].initial == initial {
            BindState {
                signals: st.signals,
                bindings: st.bindings.push(
                    Binding { signal: k as u32, node, channel, transform },
                ),
                findings: st.findings,
            }
        } else {
            BindState {
                signals: st.signals,
                bindings: st.bindings,
                findings: st.findings.push(
                    FindingView::Conflict {
                        node,
                        path,
                        name,
                        declared: st.signals[k].initial,
                        initial,
                    },
                ),
            }
        },
        None => BindState {
            signals: st.signals.push(SignalDeclView { name, initial }),
            bindings: st.bindings.push(
                Binding { signal: st.signals.len() as u32, node, channel, transform },
            ),
            findings: st.findings,
        },
    }
}

pub open spec fn note(st: BindState, f: FindingView) -> BindState {
    BindState { signals: st.signals, bindings: st.bindings, findings: st.findings.push(f) }
}

pub open spec fn unlowered_finding(row: BoundVariableView) -> FindingView {
    FindingView::Note(
        DiagnosticView {
            rule: UNLOWERED_NODE@,
            severity: Severity::Warning,
            at: LocationView::Node(0, "<figma:"@ + row.node_id + ">"@),
            message: "binding of \""@ + row.signal + "\" targets Figma node "@ + row.node_id
                + ", which lowered to no document node (a definition, or a node outside the export); the binding is not carried"@,
        },
    )
}

pub open spec fn unsupported_finding(l: LoweredNodeView, signal: Seq<char>, what: Seq<char>) -> FindingView {
    FindingView::Note(
        DiagnosticView {
            rule: UNSUPPORTED_PROPERTY@,
            severity: Severity::Warning,
            at: LocationView::Node(l.index, l.path),
            message: what + "; the resolved literal ships in the document, but the live binding of \""@
                + signal + "\" is not carried"@,
        },
    )
}

pub open spec fn gap_unhosted(path: Seq<char>) -> Seq<char> {
    "itemSpacing is bound on "@ + path + ", but the node lowered without an auto-layout container"@
}

pub open spec fn fill_unpainted(path: Seq<char>) -> Seq<char> {
    "a fill color is bound on "@ + path
        + ", but the node lowered without a solid fill (a text node's fill lives in its text style)"@
}

pub open spec fn kind_name(value: BoundValue) -> Seq<char> {
    match value {
        BoundValue::Float(_) => "FLOAT"@,
        BoundValue::Color { .. } => "COLOR"@,
    }
}

/// Why a row whose value and site do not pair up has no binding.
pub open spec fn unpaired(value: BoundValue, site: PropertySite, property: Seq<char>) -> Seq<char> {
    match site {
        PropertySite::Other => property + " has no binding channel in the vocabulary yet"@,
        _ => "a "@ + kind_name(value) + " variable is bound to "@ + property
            + ", which takes the other value type"@,
    }
}

pub open spec fn has_container(n: Node) -> bool {
    n.container is Some
}

pub open spec fn has_solid_fill(n: Node) -> bool {
    match n.paint {
        Some(p) => p.fill matches Some(FillKind::Solid(_)),
        None => false,
    }
}

/// The alpha channel captures the paint opacity the literal folded in.
pub open spec fn alpha_transform(fill_opacity: u32) -> BindingTransform {
    if fill_opacity == OPAQUE {
        BindingTransform::Identity
    } else {
        BindingTransform::Scale(fill_opacity)
    }
}

/// What one row does to the tables.
pub open spec fn apply_row(
    nodes: Seq<Node>,
    index: Seq<LoweredNodeView>,
    start: int,
    st: BindState,
    row: BoundVariableView,
) -> BindState {
    match first_match(index, lowered_from(row.node_id)) {
        None => note(st, unlowered_finding(row)),
        Some(j) => {
            let l = index[j];
            let site = property_site(row.property);
            match row.value {
                BoundValue::Float(v) => match site {
                    PropertySite::ItemSpacing => if has_container(nodes[l.index as int]) {
                        bind(st, start, row.signal, v, l.index, l.path, BindingChannel::Gap, BindingTransform::Identity)
                    } else {
                        note(st, unsupported_finding(l, row.signal, gap_unhosted(l.path)))
                    },
                    PropertySite::Opacity => bind(
                        st,
                        start,
                        row.signal,
                        v,
                        l.index,
                        l.path,
                        BindingChannel::Opacity,
                        BindingTransform::Identity,
                    ),
                    _ => note(st, unsupported_finding(l, row.signal, unpaired(row.value, site, row.property))),
                },
                BoundValue::Color { r, g, b, a } => match site {
                    PropertySite::FillColor => if has_solid_fill(nodes[l.index as int]) {
                        let s1 = bind(st, start, row.signal + ".r"@, r, l.index, l.path, BindingChannel::FillR, BindingTransform::Identity);
                        let s2 = bind(s1, start, row.signal + ".g"@, g, l.index, l.path, BindingChannel::FillG, BindingTransform::Identity);
                        let s3 = bind(s2, start, row.signal + ".b"@, b, l.index, l.path, BindingChannel::FillB, BindingTransform::Identity);
                        bind(s3, start, row.signal + ".a"@, a, l.index, l.path, BindingChannel::FillA, alpha_transform(l.fill_opacity))
                    } else {
                        note(st, unsupported_finding(l, row.signal, fill_unpainted(l.path)))
                    },
                    _ => note(st, unsupported_finding(l, row.signal, unpaired(row.value, site, row.property))),
                },
            }
        },
    }
}

/// The rows applied in order.
pub open spec fn apply_rows(
    nodes: Seq<Node>,
    index: Seq<LoweredNodeView>,
    start: int,
    st: BindState,
    rows: Seq<BoundVariableView>,
) -> BindState
    decreases rows.len(),
{
    if rows.len() == 0 {
        st
    } else {
        apply_row(nodes, index, start, apply_rows(nodes, index, start, st, rows.drop_last()), rows.last())
    }
}

/// The first lowered node that came from Figma node `id`.
pub(crate) fn find_lowered(index_of_id: &Vec<LoweredNode>, id: &String) -> (r: Option<usize>)
    ensures
        match r {
            Some(j) => j < index_of_id@.len() && first_match(lowered_view(index_of_id@), lowered_from(id@))
                == Some(j as int),
            None => first_match(lowered_view(index_of_id@), lowered_from(id@)) is None,
        },
{
    let ghost s = lowered_view(index_of_id@);
    let mut j: usize = 0;
    while j < index_of_id.len()
        invariant
            j <= index_of_id@.len(),
            s == lowered_view(index_of_id@),
            forall|k: int| 0 <= k < j ==> !lowered_from(id@)(#[trigger] s[k]),
        decreases index_of_id@.len() - j,
    {
        if index_of_id[j].node_id == *id {
            proof {
                lemma_first_match_at(s, lowered_from(id@), j as int);
            }
            return Some(j);
        }
        j = j + 1;
    }
    proof {
        lemma_first_match_none(s, lowered_from(id@));
    }
    None
}

/// Interns one signal declaration by name, in first-use order among the
/// signals declared from `start` on. A repeated name must repeat its initial
/// value bit for bit: one mode-qualified name is one value, and a mismatch
/// is an inconsistent row set.
pub fn intern_signal(doc: &mut Document, start: usize, name: String, initial: u32) -> (r: Result<
    u32,
    SignalConflict,
>)
    requires
        start <= old(doc).signals@.len() < u32::MAX,
    ensures
        ({
            let sv = signals_view(old(doc).signals@);
            match interned_at(sv, start as int, name@) {
                Some(k) => {
                    &&& signals_view(final(doc).signals@) == sv
                    &&& if sv[k].initial == initial {
                        r matches Ok(i) && i == k
                    } else {
                        r matches Err(c) && c.name@ == name@ && c.declared == sv[k].initial
                            && c.initial == initial
                    }
                },
                None => {
                    &&& signals_view(final(doc).signals@) == sv.push(
                        SignalDeclView { name: name@, initial },
                    )
                    &&& r matches Ok(i) && i == sv.len()
                },
            }
        }),
        final(doc).nodes@ == old(doc).nodes@,
        final(doc).assets@ == old(doc).assets@,
        final(doc).bindings@ == old(doc).bindings@,
        final(doc).vector_atlases@ == old(doc).vector_atlases@,
        final(doc).vector_shapes@ == old(doc).vector_shapes@,
        final(doc).variant_sets@ == old(doc).variant_sets@,
{
    let ghost sv = signals_view(doc.signals@);
    let ghost tail = sv.subrange(start as int, sv.len() as int);
    let mut i = start;
    while i < doc.signals.len()
        invariant
            start <= i <= doc.signals@.len() < u32::MAX,
            doc.signals@ == old(doc).signals@,
            sv == signals_view(doc.signals@),
            tail == sv.subrange(start as int, sv.len() as int),
            forall|k: int| 0 <= k < i - start ==> !signal_named(name@)(#[trigger] tail[k]),
        decreases doc.signals@.len() - i,
    {
        if doc.signals[i].name == name {
            let declared = doc.signals[i].initial;
            proof {
                assert(tail[i - start] == sv[i as int]);
                lemma_first_match_at(tail, signal_named(name@), i - start);
            }
            if declared != initial {
                return Err(SignalConflict { name, declared, initial });
            }
            return Ok(i as u32);
        }
        proof {
            assert(tail[i - start] == sv[i as int]);
        }
        i = i + 1;
    }
    proof {
        lemma_first_match_none(tail, signal_named(name@));
    }
    let index = doc.signals.len() as u32;
    let ghost nv = name@;
    doc.signals.push(SignalDecl { name, initial });
    proof {
        assert(signals_view(doc.signals@) =~= sv.push(SignalDeclView { name: nv, initial }));
    }
    Ok(index)
}

/// The state the tables and findings are in.
pub open spec fn state_of(doc: Document, findings: Seq<Finding>) -> BindState {
    BindState {
        signals: signals_view(doc.signals@),
        bindings: doc.bindings@,
        findings: findings_view(findings),
    }
}

/// Whether the document pools other than signals and bindings are the same.
pub open spec fn same_pools(a: Document, b: Document) -> bool {
    &&& a.nodes@ == b.nodes@
    &&& a.assets@ == b.assets@
    &&& a.vector_atlases@ == b.vector_atlases@
    &&& a.vector_shapes@ == b.vector_shapes@
    &&& a.variant_sets@ == b.variant_sets@
}

/// One `bind` on the document and the findings.
fn bind_exec(
    doc: &mut Document,
    findings: &mut Vec<Finding>,
    start: usize,
    name: String,
    initial: u32,
    node: u32,
    path: &String,
    channel: BindingChannel,
    transform: BindingTransform,
)
    requires
        start <= old(doc).signals@.len() < u32::MAX,
    ensures
        state_of(*final(doc), final(findings)@) == bind(
            state_of(*old(doc), old(findings)@),
            start as int,
            name@,
            initial,
            node,
            path@,
            channel,
            transform,
        ),
        same_pools(*final(doc), *old(doc)),
        old(doc).signals@.len() <= final(doc).signals@.len() <= old(doc).signals@.len() + 1,
{
    let ghost nv = name@;
    let ghost sv = signals_view(doc.signals@);
    match intern_signal(doc, start, name, initial) {
        Ok(signal) => {
            doc.bindings.push(Binding { signal, node, channel, transform });
        },
        Err(conflict) => {
            let f = Finding::Conflict(NodePath::new(node, path.clone()), conflict);
            let ghost before = findings@;
            findings.push(f);
            proof {
                assert(findings_view(findings@) =~= findings_view(before).push(f@));
            }
        },
    }
    proof {
        assert(signals_view(doc.signals@).len() == doc.signals@.len());
        assert(sv.len() == old(doc).signals@.len());
    }
}

/// The unlowered-node finding for `row`.
fn unlowered_note(row: &BoundVariable) -> (f: Finding)
    ensures
        f@ == unlowered_finding(row@),
{
    let mut path = string_of("<figma:");
    push_str(&mut path, row.node_id.as_str());
    push_str(&mut path, ">");
    let mut message = string_of("binding of \"");
    push_str(&mut message, row.signal.as_str());
    push_str(&mut message, "\" targets Figma node ");
    push_str(&mut message, row.node_id.as_str());
    push_str(
        &mut message,
        ", which lowered to no document node (a definition, or a node outside the export); the binding is not carried",
    );
    Finding::Note(
        Diagnostic {
            rule: UNLOWERED_NODE,
            severity: Severity::Warning,
            at: Location::Node(NodePath::new(0, path)),
            message,
        },
    )
}

/// The unsupported-property finding for a row on `l`, saying `what`.
fn unsupported_note(l: &LoweredNode, signal: &String, what: String) -> (f: Finding)
    ensures
        f@ == unsupported_finding(l@, signal@, what@),
{
    let mut message = what;
    push_str(
        &mut message,
        "; the resolved literal ships in the document, but the live binding of \"",
    );
    push_str(&mut message, signal.as_str());
    push_str(&mut message, "\" is not carried");
    Finding::Note(
        Diagnostic {
            rule: UNSUPPORTED_PROPERTY,
            severity: Severity::Warning,
            at: Location::Node(NodePath::new(l.index, l.path.clone())),
            message,
        },
    )
}

/// Why a row with `value` at `site` on `property` has no binding.
fn unpaired_text(value: BoundValue, site: PropertySite, property: &String) -> (s: String)
    ensures
        s@ == unpaired(value, site, property@),
{
    match site {
        PropertySite::Other => {
            let mut s = property.clone();
            push_str(&mut s, " has no binding channel in the vocabulary yet");
            s
        },
        _ => {
            let mut s = string_of("a ");
            match value {
                BoundValue::Float(_) => push_str(&mut s, "FLOAT"),
                BoundValue::Color { .. } => push_str(&mut s, "COLOR"),
            }
            push_str(&mut s, " variable is bound to ");
            push_str(&mut s, property.as_str());
            push_str(&mut s, ", which takes the other value type");
            s
        },
    }
}

/// `signal` with `suffix` appended.
fn suffixed(signal: &String, suffix: &str) -> (s: String)
    ensures
        s@ == signal@ + suffix@,
{
    let mut s = signal.clone();
    push_str(&mut s, suffix);
    s
}

/// Pushes `f` onto `findings`.
fn push_finding(findings: &mut Vec<Finding>, f: Finding)
    ensures
        findings_view(final(findings)@) == findings_view(old(findings)@).push(f@),
{
    let ghost before = findings@;
    findings.push(f);
    proof {
        assert(findings_view(findings@) =~= findings_view(before).push(f@));
    }
}

/// Applies one row.
fn apply_one(
    doc: &mut Document,
    findings: &mut Vec<Finding>,
    start: usize,
    row: &BoundVariable,
    index_of_id: &Vec<LoweredNode>,
)
    requires
        start <= old(doc).signals@.len(),
        old(doc).signals@.len() + 4 <= u32::MAX,
        forall|j: int| 0 <= j < index_of_id@.len() ==> #[trigger] index_of_id@[j].index < old(doc).nodes@.len(),
    ensures
        state_of(*final(doc), final(findings)@) == apply_row(
            old(doc).nodes@,
            lowered_view(index_of_id@),
            start as int,
            state_of(*old(doc), old(findings)@),
            row@,
        ),
        same_pools(*final(doc), *old(doc)),
        old(doc).signals@.len() <= final(doc).signals@.len() <= old(doc).signals@.len() + 4,
{
    let found = find_lowered(index_of_id, &row.node_id);
    let j = match found {
        None => {
            push_finding(findings, unlowered_note(row));
            return;
        },
        Some(j) => j,
    };
    let l = &index_of_id[j];
    assert(lowered_view(index_of_id@)[j as int] == l@);
    let node = l.index as usize;
    let site = classify_property(row.property.as_str());
    match row.value {
        BoundValue::Float(v) => match site {
            PropertySite::ItemSpacing => {
                if doc.nodes[node].container.is_some() {
                    bind_exec(doc, findings, start, row.signal.clone(), v, l.index, &l.path, BindingChannel::Gap, BindingTransform::Identity);
                } else {
                    let mut what = string_of("itemSpacing is bound on ");
                    push_str(&mut what, l.path.as_str());
                    push_str(&mut what, ", but the node lowered without an auto-layout container");
                    push_finding(findings, unsupported_note(l, &row.signal, what));
                }
            },
            PropertySite::Opacity => {
                bind_exec(doc, findings, start, row.signal.clone(), v, l.index, &l.path, BindingChannel::Opacity, BindingTransform::Identity);
            },
            _ => {
                let what = unpaired_text(row.value, site, &row.property);
                push_finding(findings, unsupported_note(l, &row.signal, what));
            },
        },
        BoundValue::Color { r, g, b, a } => match site {
            PropertySite::FillColor => {
                let solid = match &doc.nodes[node].paint {
                    Some(p) => match p.fill {
                        Some(FillKind::Solid(_)) => true,
                        _ => false,
                    },
                    None => false,
                };
                if solid {
                    let alpha = if l.fill_opacity == OPAQUE {
                        BindingTransform::Identity
                    } else {
                        BindingTransform::Scale(l.fill_opacity)
                    };
                    bind_exec(doc, findings, start, suffixed(&row.signal, ".r"), r, l.index, &l.path, BindingChannel::FillR, BindingTransform::Identity);
                    bind_exec(doc, findings, start, suffixed(&row.signal, ".g"), g, l.index, &l.path, BindingChannel::FillG, BindingTransform::Identity);
                    bind_exec(doc, findings, start, suffixed(&row.signal, ".b"), b, l.index, &l.path, BindingChannel::FillB, BindingTransform::Identity);
                    bind_exec(doc, findings, start, suffixed(&row.signal, ".a"), a, l.index, &l.path, BindingChannel::FillA, alpha);
                } else {
                    let mut what = string_of("a fill color is bound on ");
                    push_str(&mut what, l.path.as_str());
                    push_str(
                        &mut what,
                        ", but the node lowered without a solid fill (a text node's fill lives in its text style)",
                    );
                    push_finding(findings, unsupported_note(l, &row.signal, what));
                }
            },
            _ => {
                let what = unpaired_text(row.value, site, &row.property);
                push_finding(findings, unsupported_note(l, &row.signal, what));
            },
        },
    }
}

/// Applies the joined rows to the lowered document, appending its signal
/// and binding tables, and returns the findings the rows earned. Rows apply
/// in the order given and signals intern in first-use order, so the same
/// input yields the same tables.
pub fn apply(doc: &mut Document, rows: &[BoundVariable], index_of_id: &Vec<LoweredNode>) -> (findings:
    Vec<Finding>)
    requires
        old(doc).signals@.len() + 4 * rows@.len() <= u32::MAX,
        forall|j: int| 0 <= j < index_of_id@.len() ==> #[trigger] index_of_id@[j].index < old(doc).nodes@.len(),
    ensures
        state_of(*final(doc), findings@) == apply_rows(
            old(doc).nodes@,
            lowered_view(index_of_id@),
            old(doc).signals@.len() as int,
            state_of(*old(doc), Seq::empty()),
            rows_view(rows@),
        ),
        same_pools(*final(doc), *old(doc)),
{
    let mut findings: Vec<Finding> = Vec::new();
    let start = doc.signals.len();
    let ghost nodes = doc.nodes@;
    let ghost index = lowered_view(index_of_id@);
    let ghost init = state_of(*doc, Seq::empty());
    proof {
        assert(findings_view(findings@) =~= Seq::<FindingView>::empty());
        assert(rows_view(rows@).take(0) =~= Seq::<BoundVariableView>::empty());
    }
    let mut i: usize = 0;
    while i < rows.len()
        invariant
            i <= rows@.len(),
            start == old(doc).signals@.len(),
            start <= doc.signals@.len() <= start + 4 * i,
            start + 4 * rows@.len() <= u32::MAX,
            nodes == old(doc).nodes@,
            index == lowered_view(index_of_id@),
            init == state_of(*old(doc), Seq::empty()),
            same_pools(*doc, *old(doc)),
            forall|j: int| 0 <= j < index_of_id@.len() ==> #[trigger] index_of_id@[j].index < nodes.len(),
            state_of(*doc, findings@) == apply_rows(nodes, index, start as int, init, rows_view(rows@).take(i as int)),
        decreases rows@.len() - i,
    {
        apply_one(doc, &mut findings, start, &rows[i], index_of_id);
        proof {
            assert(start + 4 * i + 4 == start + 4 * (i + 1));
            let rv = rows_view(rows@);
            assert(rv.take(i + 1).drop_last() =~= rv.take(i as int));
            assert(rv.take(i + 1).last() == rows@[i as int]@);
        }
        i = i + 1;
    }
    proof {
        assert(rows_view(rows@).take(i as int) =~= rows_view(rows@));
    }
    findings
}

/// Every binding names a declared signal.
pub open spec fn bindings_resolve(st: BindState) -> bool {
    forall|i: int| 0 <= i < st.bindings.len() ==> (#[trigger] st.bindings[i].signal as int) < st.signals.len()
}

/// The signals declared from `start` on carry distinct names.
pub open spec fn names_distinct_from(signals: Seq<SignalDeclView>, start: int) -> bool {
    forall|a: int, b: int|
        start <= a < b < signals.len() ==> (#[trigger] signals[a]).name != (#[trigger] signals[b]).name
}

/// Every finished finding is a warning: only a signal conflict is an error.
pub open spec fn notes_are_warnings(findings: Seq<FindingView>) -> bool {
    forall|i: int| 0 <= i < findings.len() ==> (#[trigger] findings[i] matches FindingView::Note(d)
        ==> d.severity == Severity::Warning)
}

/// What keeps holding across `bind` and `apply_row`.
pub open spec fn sound(st: BindState, start: int) -> bool {
    &&& 0 <= start <= st.signals.len()
    &&& bindings_resolve(st)
    &&& names_distinct_from(st.signals, start)
    &&& notes_are_warnings(st.findings)
}

proof fn lemma_bind(
    st: BindState,
    start: int,
    name: Seq<char>,
    initial: u32,
    node: u32,
    path: Seq<char>,
    channel: BindingChannel,
    transform: BindingTransform,
)
    requires
        sound(st, start),
        st.signals.len() < u32::MAX,
    ensures
        ({
            let s2 = bind(st, start, name, initial, node, path, channel, transform);
            &&& sound(s2, start)
            &&& s2.findings.len() + s2.bindings.len() == st.findings.len() + st.bindings.len() + 1
            &&& st.signals.len() <= s2.signals.len() <= st.signals.len() + 1
            &&& s2.signals.take(st.signals.len() as int) == st.signals
        }),
{
    let tail = st.signals.subrange(start, st.signals.len() as int);
    crate::seqs::lemma_first_match(tail, signal_named(name));
    let s2 = bind(st, start, name, initial, node, path, channel, transform);
    match first_match(tail, signal_named(name)) {
        Some(k) => {
            assert(s2.signals.take(st.signals.len() as int) =~= st.signals);
            if st.signals[start + k].initial != initial {
                assert forall|i: int| 0 <= i < s2.findings.len() implies (#[trigger] s2.findings[i] matches FindingView::Note(d)
                    ==> d.severity == Severity::Warning) by {
                    if i < st.findings.len() {
                        assert(s2.findings[i] == st.findings[i]);
                    }
                }
            } else {
                assert forall|i: int| 0 <= i < s2.bindings.len() implies (#[trigger] s2.bindings[i].signal as int)
                    < s2.signals.len() by {
                    if i < st.bindings.len() {
                        assert(s2.bindings[i] == st.bindings[i]);
                    }
                }
            }
        },
        None => {
            assert(s2.signals.take(st.signals.len() as int) =~= st.signals);
            assert forall|i: int| 0 <= i < s2.bindings.len() implies (#[trigger] s2.bindings[i].signal as int)
                < s2.signals.len() by {
                if i < st.bindings.len() {
                    assert(s2.bindings[i] == st.bindings[i]);
                }
            }
            assert forall|a: int, b: int| start <= a < b < s2.signals.len() implies (#[trigger] s2.signals[a]).name
                != (#[trigger] s2.signals[b]).name by {
                if b == st.signals.len() {
                    assert(tail[a - start] == st.signals[a]);
                    assert(!signal_named(name)(tail[a - start]));
                } else {
                    assert(s2.signals[a] == st.signals[a] && s2.signals[b] == st.signals[b]);
                }
            }
        },
    }
}

proof fn lemma_note(st: BindState, start: int, f: FindingView)
    requires
        sound(st, start),
        f matches FindingView::Note(d) && d.severity == Severity::Warning,
    ensures
        sound(note(st, f), start),
{
    let s2 = note(st, f);
    assert forall|i: int| 0 <= i < s2.findings.len() implies (#[trigger] s2.findings[i] matches FindingView::Note(d)
        ==> d.severity == Severity::Warning) by {
        if i < st.findings.len() {
            assert(s2.findings[i] == st.findings[i]);
        }
    }
}

proof fn lemma_apply_row(
    nodes: Seq<Node>,
    index: Seq<LoweredNodeView>,
    start: int,
    st: BindState,
    row: BoundVariableView,
)
    requires
        sound(st, start),
        st.signals.len() + 4 <= u32::MAX,
    ensures
        ({
            let s2 = apply_row(nodes, index, start, st, row);
            &&& sound(s2, start)
            &&& s2.findings.len() + s2.bindings.len() >= st.findings.len() + st.bindings.len() + 1
            &&& st.signals.len() <= s2.signals.len() <= st.signals.len() + 4
            &&& s2.signals.take(st.signals.len() as int) == st.signals
        }),
{
    let s2 = apply_row(nodes, index, start, st, row);
    match first_match(index, lowered_from(row.node_id)) {
        None => {
            lemma_note(st, start, unlowered_finding(row));
            assert(s2.signals.take(st.signals.len() as int) =~= st.signals);
        },
        Some(j) => {
            let l = index[j];
            let site = property_site(row.property);
            let sig = row.signal;
            let unpaired_note = unsupported_finding(l, sig, unpaired(row.value, site, row.property));
            match row.value {
                BoundValue::Float(v) => match site {
                    PropertySite::ItemSpacing => if has_container(nodes[l.index as int]) {
                        lemma_bind(st, start, sig, v, l.index, l.path, BindingChannel::Gap, BindingTransform::Identity);
                    } else {
                        lemma_note(st, start, unsupported_finding(l, sig, gap_unhosted(l.path)));
                        assert(s2.signals.take(st.signals.len() as int) =~= st.signals);
                    },
                    PropertySite::Opacity => {
                        lemma_bind(st, start, sig, v, l.index, l.path, BindingChannel::Opacity, BindingTransform::Identity);
                    },
                    _ => {
                        lemma_note(st, start, unpaired_note);
                        assert(s2.signals.take(st.signals.len() as int) =~= st.signals);
                    },
                },
                BoundValue::Color { r, g, b, a } => match site {
                    PropertySite::FillColor => if has_solid_fill(nodes[l.index as int]) {
                        let s1 = bind(st, start, sig + ".r"@, r, l.index, l.path, BindingChannel::FillR, BindingTransform::Identity);
                        lemma_bind(st, start, sig + ".r"@, r, l.index, l.path, BindingChannel::FillR, BindingTransform::Identity);
                        let t2 = bind(s1, start, sig + ".g"@, g, l.index, l.path, BindingChannel::FillG, BindingTransform::Identity);
                        lemma_bind(s1, start, sig + ".g"@, g, l.index, l.path, BindingChannel::FillG, BindingTransform::Identity);
                        let t3 = bind(t2, start, sig + ".b"@, b, l.index, l.path, BindingChannel::FillB, BindingTransform::Identity);
                        lemma_bind(t2, start, sig + ".b"@, b, l.index, l.path, BindingChannel::FillB, BindingTransform::Identity);
                        lemma_bind(t3, start, sig + ".a"@, a, l.index, l.path, BindingChannel::FillA, alpha_transform(l.fill_opacity));
                        assert(t2.signals.take(st.signals.len() as int) =~= st.signals) by {
                            assert(t2.signals.take(s1.signals.len() as int).take(st.signals.len() as int) =~= t2.signals.take(st.signals.len() as int));
                        }
                        assert(t3.signals.take(st.signals.len() as int) =~= st.signals) by {
                            assert(t3.signals.take(t2.signals.len() as int).take(st.signals.len() as int) =~= t3.signals.take(st.signals.len() as int));
                        }
                        assert(s2.signals.take(st.signals.len() as int) =~= st.signals) by {
                            assert(s2.signals.take(t3.signals.len() as int).take(st.signals.len() as int) =~= s2.signals.take(st.signals.len() as int));
                        }
                    } else {
                        lemma_note(st, start, unsupported_finding(l, sig, fill_unpainted(l.path)));
                        assert(s2.signals.take(st.signals.len() as int) =~= st.signals);
                    },
                    _ => {
                        lemma_note(st, start, unpaired_note);
                        assert(s2.signals.take(st.signals.len() as int) =~= st.signals);
                    },
                },
            }
        },
    }
}

/// Applying binding rows keeps the tables sound and drops nothing: each row
/// adds a binding or a finding; every binding names a declared signal; the
/// signals this application declares carry distinct names; the signals
/// declared before are left as they were; and every finding but a signal
/// conflict is a warning.
pub proof fn apply_rows_is_sound(
    nodes: Seq<Node>,
    index: Seq<LoweredNodeView>,
    start: int,
    st: BindState,
    rows: Seq<BoundVariableView>,
)
    requires
        sound(st, start),
        st.signals.len() + 4 * rows.len() <= u32::MAX,
    ensures
        ({
            let s2 = apply_rows(nodes, index, start, st, rows);
            &&& sound(s2, start)
            &&& s2.findings.len() + s2.bindings.len() >= st.findings.len() + st.bindings.len() + rows.len()
            &&& st.signals.len() <= s2.signals.len() <= st.signals.len() + 4 * rows.len()
            &&& s2.signals.take(st.signals.len() as int) == st.signals
        }),
    decreases rows.len(),
{
    if rows.len() > 0 {
        apply_rows_is_sound(nodes, index, start, st, rows.drop_last());
        let mid = apply_rows(nodes, index, start, st, rows.drop_last());
        lemma_apply_row(nodes, index, start, mid, rows.last());
        let s2 = apply_rows(nodes, index, start, st, rows);
        assert(s2.signals.take(st.signals.len() as int) =~= st.signals) by {
            assert(s2.signals.take(mid.signals.len() as int).take(st.signals.len() as int) =~= s2.signals.take(st.signals.len() as int));
        }
    } else {
        assert(st.signals.take(st.signals.len() as int) =~= st.signals);
    }
}

/// `after` extends `before`: both tables of `before` are prefixes of those
/// of `after`, and every binding `after` adds names one of its signals and
/// one of `node_count` nodes.
pub open spec fn appended_in_range(before: BindState, after: BindState, node_count: int) -> bool {
    &&& before.signals.len() <= after.signals.len()
    &&& after.signals.take(before.signals.len() as int) == before.signals
    &&& before.bindings.len() <= after.bindings.len()
    &&& after.bindings.take(before.bindings.len() as int) == before.bindings
    &&& forall|i: int|
        before.bindings.len() <= i < after.bindings.len() ==> (#[trigger] after.bindings[i]).signal
            < after.signals.len() && after.bindings[i].node < node_count
}

proof fn lemma_appended_trans(a: BindState, b: BindState, c: BindState, node_count: int)
    requires
        appended_in_range(a, b, node_count),
        appended_in_range(b, c, node_count),
    ensures
        appended_in_range(a, c, node_count),
{
    assert(c.signals.take(a.signals.len() as int) =~= c.signals.take(b.signals.len() as int).take(
        a.signals.len() as int,
    ));
    assert(c.bindings.take(a.bindings.len() as int) =~= c.bindings.take(b.bindings.len() as int).take(
        a.bindings.len() as int,
    ));
    assert forall|i: int| a.bindings.len() <= i < c.bindings.len() implies (
    #[trigger] c.bindings[i]).signal < c.signals.len() && c.bindings[i].node < node_count by {
        if i < b.bindings.len() {
            assert(c.bindings[i] == c.bindings.take(b.bindings.len() as int)[i]);
            assert(b.bindings[i].signal < b.signals.len());
        }
    }
}

proof fn lemma_appended_refl(a: BindState, node_count: int)
    ensures
        appended_in_range(a, a, node_count),
{
    assert(a.signals.take(a.signals.len() as int) =~= a.signals);
    assert(a.bindings.take(a.bindings.len() as int) =~= a.bindings);
}

proof fn lemma_bind_appends(
    st: BindState,
    start: int,
    name: Seq<char>,
    initial: u32,
    node: u32,
    path: Seq<char>,
    channel: BindingChannel,
    transform: BindingTransform,
    node_count: int,
)
    requires
        0 <= start <= st.signals.len(),
        node < node_count,
    ensures
        appended_in_range(st, bind(st, start, name, initial, node, path, channel, transform), node_count),
{
    let tail = st.signals.subrange(start, st.signals.len() as int);
    crate::seqs::lemma_first_match(tail, signal_named(name));
    let s2 = bind(st, start, name, initial, node, path, channel, transform);
    assert(s2.signals.take(st.signals.len() as int) =~= st.signals);
    assert(s2.bindings.take(st.bindings.len() as int) =~= st.bindings);
}

proof fn lemma_note_appends(st: BindState, f: FindingView, node_count: int)
    ensures
        appended_in_range(st, note(st, f), node_count),
{
    lemma_appended_refl(st, node_count);
}

proof fn lemma_apply_row_appends(
    nodes: Seq<Node>,
    index: Seq<LoweredNodeView>,
    start: int,
    st: BindState,
    row: BoundVariableView,
)
    requires
        0 <= start <= st.signals.len(),
        forall|j: int| 0 <= j < index.len() ==> (#[trigger] index[j]).index < nodes.len(),
    ensures
        appended_in_range(st, apply_row(nodes, index, start, st, row), nodes.len() as int),
{
    let n = nodes.len() as int;
    crate::seqs::lemma_first_match(index, lowered_from(row.node_id));
    match first_match(index, lowered_from(row.node_id)) {
        None => lemma_note_appends(st, unlowered_finding(row), n),
        Some(j) => {
            let l = index[j];
            assert(l.index < nodes.len());
            let site = property_site(row.property);
            let sig = row.signal;
            match row.value {
                BoundValue::Float(v) => match site {
                    PropertySite::ItemSpacing => if has_container(nodes[l.index as int]) {
                        lemma_bind_appends(st, start, sig, v, l.index, l.path, BindingChannel::Gap, BindingTransform::Identity, n);
                    } else {
                        lemma_note_appends(st, unsupported_finding(l, sig, gap_unhosted(l.path)), n);
                    },
                    PropertySite::Opacity => {
                        lemma_bind_appends(st, start, sig, v, l.index, l.path, BindingChannel::Opacity, BindingTransform::Identity, n);
                    },
                    _ => lemma_note_appends(st, unsupported_finding(l, sig, unpaired(row.value, site, row.property)), n),
                },
                BoundValue::Color { r, g, b, a } => match site {
                    PropertySite::FillColor => if has_solid_fill(nodes[l.index as int]) {
                        let s1 = bind(st, start, sig + ".r"@, r, l.index, l.path, BindingChannel::FillR, BindingTransform::Identity);
                        lemma_bind_appends(st, start, sig + ".r"@, r, l.index, l.path, BindingChannel::FillR, BindingTransform::Identity, n);
                        let t2 = bind(s1, start, sig + ".g"@, g, l.index, l.path, BindingChannel::FillG, BindingTransform::Identity);
                        lemma_bind_appends(s1, start, sig + ".g"@, g, l.index, l.path, BindingChannel::FillG, BindingTransform::Identity, n);
                        let t3 = bind(t2, start, sig + ".b"@, b, l.index, l.path, BindingChannel::FillB, BindingTransform::Identity);
                        lemma_bind_appends(t2, start, sig + ".b"@, b, l.index, l.path, BindingChannel::FillB, BindingTransform::Identity, n);
                        let t4 = bind(t3, start, sig + ".a"@, a, l.index, l.path, BindingChannel::FillA, alpha_transform(l.fill_opacity));
                        lemma_bind_appends(t3, start, sig + ".a"@, a, l.index, l.path, BindingChannel::FillA, alpha_transform(l.fill_opacity), n);
                        lemma_appended_trans(st, s1, t2, n);
                        lemma_appended_trans(st, t2, t3, n);
                        lemma_appended_trans(st, t3, t4, n);
                    } else {
                        lemma_note_appends(st, unsupported_finding(l, sig, fill_unpainted(l.path)), n);
                    },
                    _ => lemma_note_appends(st, unsupported_finding(l, sig, unpaired(row.value, site, row.property)), n),
                },
            }
        },
    }
}

/// Applying binding rows only appends: the signal and binding tables it
/// starts from stay as prefixes, and every binding it adds names a signal
/// of the resulting table and a node of the document that a lowered node
/// points at.
pub proof fn apply_rows_only_appends(
    nodes: Seq<Node>,
    index: Seq<LoweredNodeView>,
    start: int,
    st: BindState,
    rows: Seq<BoundVariableView>,
)
    requires
        0 <= start <= st.signals.len(),
        forall|j: int| 0 <= j < index.len() ==> (#[trigger] index[j]).index < nodes.len(),
    ensures
        appended_in_range(st, apply_rows(nodes, index, start, st, rows), nodes.len() as int),
    decreases rows.len(),
{
    if rows.len() > 0 {
        apply_rows_only_appends(nodes, index, start, st, rows.drop_last());
        let mid = apply_rows(nodes, index, start, st, rows.drop_last());
        lemma_apply_row_appends(nodes, index, start, mid, rows.last());
        lemma_appended_trans(st, mid, apply_rows(nodes, index, start, st, rows), nodes.len() as int);
    } else {
        lemma_appended_refl(st, nodes.len() as int);
    }
}

} // verus!
