//! Where a prototype switch travels. Every node of the file is listed once,
//! with its diagnostic path, the definition its contents belong to and its
//! parent's position; a node's hosts are the instances and definitions it
//! sits in, nearest first. A `CHANGE_TO` into a component set lands at the
//! nearest host belonging to that set, unless a definition stands between,
//! and what the file says about a switch that lands nowhere is read off the
//! nearest host alone.
use vstd::prelude::*;

use crate::bindings::{find_lowered, lowered_from, lowered_view, LoweredNode, LoweredNodeView};
use crate::diagnostics::{Location, LocationView, NodePath, Severity};
use crate::echo::{
    echoables_view, interaction_diagnostics, interaction_findings, omission_weight, report_spec, switch_findings,
    switches_findings, Collapse, CollapseView, EchoableView, Landing, Reach, SetState,
};
use crate::prototype::{Interactions, InteractionsView, Switch, SwitchView};
use crate::seqs::first_match;
use crate::EmitPolicy;
use crate::figma::{
    canvas_children, derefs, disambiguated_segments, forest_size, lemma_forest_append, segment, subtree_size,
    top_level_nodes, FigmaNode,
};
use crate::text::{chars_of, opt_chars, push_str, str_eq, string_of, string_of_chars, strings_view};
use crate::walk::is_definition;

verus! {

/// One node of the file as the variant pass sees it.
#[derive(Debug)]
pub struct Walked<'a> {
    pub node: &'a FigmaNode,
    /// The diagnostic path the walk gives it.
    pub path: String,
    /// The nearest ancestor that is a component definition, if any.
    pub definition: Option<&'a FigmaNode>,
    /// The parent's position in the list.
    pub parent: Option<usize>,
}

/// Every parent precedes its child in the list.
pub open spec fn parents_precede(nodes: Seq<Walked>) -> bool {
    forall|i: int|
        0 <= i < nodes.len() ==> match #[trigger] nodes[i].parent {
            Some(p) => (p as int) < i,
            None => true,
        }
}

/// An `INSTANCE` or a definition: a node a switch can travel through.
pub open spec fn is_host(n: FigmaNode) -> bool {
    n.kind@ == "INSTANCE"@ || is_definition(n)
}

/// The hosts of the node at `at`, nearest first, itself included where it
/// is one.
pub open spec fn hosts(nodes: Seq<Walked>, at: usize) -> Seq<usize>
    decreases at,
{
    if at as int >= nodes.len() {
        seq![]
    } else {
        let up = match nodes[at as int].parent {
            Some(p) => if p < at {
                hosts(nodes, p)
            } else {
                seq![]
            },
            None => seq![],
        };
        if is_host(*nodes[at as int].node) {
            seq![at] + up
        } else {
            up
        }
    }
}

/// What is left to list of the hosts from `next` up.
pub open spec fn hosts_from(nodes: Seq<Walked>, next: Option<usize>) -> Seq<usize> {
    match next {
        Some(c) => hosts(nodes, c),
        None => seq![],
    }
}

fn is_host_exec(n: &FigmaNode) -> (r: bool)
    ensures
        r == is_host(*n),
{
    str_eq(n.kind.as_str(), "INSTANCE") || str_eq(n.kind.as_str(), "COMPONENT") || str_eq(
        n.kind.as_str(),
        "COMPONENT_SET",
    )
}

/// The hosts of the node at `at`, nearest first.
pub fn hosts_of(nodes: &Vec<Walked>, at: usize) -> (hs: Vec<usize>)
    requires
        parents_precede(nodes@),
        at < nodes@.len(),
    ensures
        hs@ == hosts(nodes@, at),
{
    let mut out: Vec<usize> = Vec::new();
    let mut next: Option<usize> = Some(at);
    while next.is_some()
        invariant
            parents_precede(nodes@),
            next matches Some(c) ==> c < nodes@.len(),
            out@ + hosts_from(nodes@, next) == hosts(nodes@, at),
        decreases match next {
            Some(c) => c + 1,
            None => 0,
        },
    {
        let current = next.unwrap();
        let ghost before = out@;
        let w = &nodes[current];
        proof {
            assert(w.parent == nodes@[current as int].parent);
        }
        next = w.parent;
        if is_host_exec(w.node) {
            out.push(current);
            proof {
                assert(hosts(nodes@, current) == seq![current] + hosts_from(nodes@, next));
                assert(before + hosts(nodes@, current) =~= out@ + hosts_from(nodes@, next));
            }
        } else {
            proof {
                assert(hosts(nodes@, current) == hosts_from(nodes@, next));
            }
        }
    }
    proof {
        assert(out@ + seq![] =~= out@);
    }
    out
}

/// The component a node stands for: a definition's own id, an instance's
/// `componentId`.
pub open spec fn member_id(n: FigmaNode) -> Option<Seq<char>> {
    if is_definition(n) {
        opt_chars(n.id)
    } else {
        opt_chars(n.component_id)
    }
}

/// Whether the node is one of a set's `members`: an instance showing one,
/// or the member itself.
pub open spec fn belongs_to(n: FigmaNode, members: Seq<Seq<char>>) -> bool {
    match member_id(n) {
        Some(id) => members.contains(id),
        None => false,
    }
}

fn member_id_exec(n: &FigmaNode) -> (r: Option<&String>)
    ensures
        match r {
            Some(s) => member_id(*n) == Some(s@),
            None => member_id(*n) is None,
        },
{
    if str_eq(n.kind.as_str(), "COMPONENT") || str_eq(n.kind.as_str(), "COMPONENT_SET") {
        n.id.as_ref()
    } else {
        n.component_id.as_ref()
    }
}

fn contains_string(items: &Vec<String>, s: &String) -> (r: bool)
    ensures
        r == strings_view(items@).contains(s@),
{
    let mut i: usize = 0;
    while i < items.len()
        invariant
            i <= items@.len(),
            forall|j: int| 0 <= j < i ==> strings_view(items@)[j] != s@,
        decreases items@.len() - i,
    {
        if str_eq(items[i].as_str(), s.as_str()) {
            assert(strings_view(items@)[i as int] == s@);
            return true;
        }
        i = i + 1;
    }
    false
}

fn belongs_exec(n: &FigmaNode, members: &Vec<String>) -> (r: bool)
    ensures
        r == belongs_to(*n, strings_view(members@)),
{
    match member_id_exec(n) {
        Some(id) => contains_string(members, id),
        None => false,
    }
}

/// Where a switch whose destination is in a set lands, along a host chain.
#[derive(Clone, Copy, Debug, PartialEq, Eq, Structural)]
pub enum Hosting {
    /// No host belongs to the set.
    Elsewhere,
    /// A host belongs to the set, but a definition stands between.
    LandsNowhere,
    /// The nearest host belonging to the set, at this position.
    LandsAt(usize),
}

/// The verdict along `hs`, nearest first: the first host belonging to the
/// set carries the switch unless a definition was crossed on the way.
pub open spec fn hosting_along(nodes: Seq<Walked>, hs: Seq<usize>, members: Seq<Seq<char>>) -> Hosting
    decreases hs.len(),
{
    if hs.len() == 0 {
        Hosting::Elsewhere
    } else {
        let n = *nodes[hs[0] as int].node;
        if belongs_to(n, members) {
            Hosting::LandsAt(hs[0])
        } else if is_definition(n) {
            match hosting_along(nodes, hs.skip(1), members) {
                Hosting::Elsewhere => Hosting::Elsewhere,
                _ => Hosting::LandsNowhere,
            }
        } else {
            hosting_along(nodes, hs.skip(1), members)
        }
    }
}

proof fn lemma_hosting_along(nodes: Seq<Walked>, hs: Seq<usize>, members: Seq<Seq<char>>)
    ensures
        hosting_along(nodes, hs, members) matches Hosting::LandsAt(h) ==> hs.contains(h) && belongs_to(
            *nodes[h as int].node,
            members,
        ),
        hosting_along(nodes, hs, members) is LandsNowhere ==> exists|i: int, j: int|
            0 <= i < j < hs.len() && is_definition(*nodes[hs[i] as int].node) && belongs_to(
                *nodes[hs[j] as int].node,
                members,
            ),
    decreases hs.len(),
{
    if hs.len() > 0 {
        let rest = hs.skip(1);
        lemma_hosting_along(nodes, rest, members);
        match hosting_along(nodes, rest, members) {
            Hosting::LandsAt(h) => {
                let k = choose|k: int| 0 <= k < rest.len() && rest[k] == h;
                assert(hs[k + 1] == h);
            },
            Hosting::LandsNowhere => {
                let (i, j) = choose|i: int, j: int|
                    0 <= i < j < rest.len() && is_definition(*nodes[rest[i] as int].node) && belongs_to(
                        *nodes[rest[j] as int].node,
                        members,
                    );
                assert(hs[i + 1] == rest[i] && hs[j + 1] == rest[j]);
            },
            Hosting::Elsewhere => {},
        }
        if belongs_to(*nodes[hs[0] as int].node, members) {
            assert(hs[0] == hs[0]);
        } else if is_definition(*nodes[hs[0] as int].node) {
            match hosting_along(nodes, rest, members) {
                Hosting::LandsAt(h) => {
                    let k = choose|k: int| 0 <= k < rest.len() && rest[k] == h;
                    assert(hs[k + 1] == h);
                    assert(0 < k + 1);
                },
                Hosting::LandsNowhere => {
                    let (i, j) = choose|i: int, j: int|
                        0 <= i < j < rest.len() && is_definition(*nodes[rest[i] as int].node) && belongs_to(
                            *nodes[rest[j] as int].node,
                            members,
                        );
                    assert(hs[j + 1] == rest[j]);
                },
                Hosting::Elsewhere => {},
            }
        }
    }
}

/// A switch lands only at one of its node's hosts that belongs to the
/// destination's set, and lands nowhere only where a definition stands
/// between the node and such a host.
pub proof fn a_switch_lands_on_a_member_host(nodes: Seq<Walked>, at: usize, members: Seq<Seq<char>>)
    ensures
        hosting_along(nodes, hosts(nodes, at), members) matches Hosting::LandsAt(h) ==> hosts(nodes, at).contains(h)
            && belongs_to(*nodes[h as int].node, members),
        hosting_along(nodes, hosts(nodes, at), members) is LandsNowhere ==> exists|i: int, j: int|
            0 <= i < j < hosts(nodes, at).len() && is_definition(*nodes[hosts(nodes, at)[i] as int].node)
                && belongs_to(*nodes[hosts(nodes, at)[j] as int].node, members),
{
    lemma_hosting_along(nodes, hosts(nodes, at), members);
}

/// The host a `CHANGE_TO` on the node at `at`, into the set with
/// `members`, travels through.
#[verifier::spinoff_prover]
pub fn hosting(nodes: &Vec<Walked>, at: usize, members: &Vec<String>) -> (h: Hosting)
    requires
        parents_precede(nodes@),
        at < nodes@.len(),
    ensures
        h == hosting_along(nodes@, hosts(nodes@, at), strings_view(members@)),
{
    let hs = hosts_of(nodes, at);
    proof {
        lemma_hosts_in_range(nodes@, at);
    }
    let mut crossed = false;
    let mut i: usize = 0;
    proof {
        assert(hs@.skip(0) =~= hs@);
    }
    while i < hs.len()
        invariant
            hs@ == hosts(nodes@, at),
            forall|k: int| 0 <= k < hs@.len() ==> (#[trigger] hs@[k] as int) < nodes@.len(),
            i <= hs@.len(),
            hosting_along(nodes@, hs@, strings_view(members@)) == if crossed {
                match hosting_along(nodes@, hs@.skip(i as int), strings_view(members@)) {
                    Hosting::Elsewhere => Hosting::Elsewhere,
                    _ => Hosting::LandsNowhere,
                }
            } else {
                hosting_along(nodes@, hs@.skip(i as int), strings_view(members@))
            },
        decreases hs@.len() - i,
    {
        let host = hs[i];
        let node = nodes[host].node;
        proof {
            assert(hs@.skip(i as int)[0] == host);
            assert(hs@.skip(i as int).skip(1) =~= hs@.skip(i + 1));
        }
        if belongs_exec(node, members) {
            return if crossed {
                Hosting::LandsNowhere
            } else {
                Hosting::LandsAt(host)
            };
        }
        if str_eq(node.kind.as_str(), "COMPONENT") || str_eq(node.kind.as_str(), "COMPONENT_SET") {
            crossed = true;
        }
        i = i + 1;
    }
    proof {
        assert(hs@.skip(i as int).len() == 0);
    }
    Hosting::Elsewhere
}

proof fn lemma_hosts_in_range(nodes: Seq<Walked>, at: usize)
    requires
        parents_precede(nodes),
    ensures
        forall|k: int| 0 <= k < hosts(nodes, at).len() ==> (#[trigger] hosts(nodes, at)[k] as int) < nodes.len(),
    decreases at,
{
    if (at as int) < nodes.len() {
        let up = match nodes[at as int].parent {
            Some(p) => if p < at {
                hosts(nodes, p)
            } else {
                seq![]
            },
            None => seq![],
        };
        match nodes[at as int].parent {
            Some(p) => {
                if p < at {
                    lemma_hosts_in_range(nodes, p);
                }
            },
            None => {},
        }
        assert forall|k: int| 0 <= k < up.len() implies (#[trigger] up[k] as int) < nodes.len() by {
            match nodes[at as int].parent {
                Some(p) => {
                    if p < at {
                        assert(up[k] == hosts(nodes, p)[k]);
                    }
                },
                None => {},
            }
        }
        if is_host(*nodes[at as int].node) {
            let hs = seq![at] + up;
            assert(hosts(nodes, at) == hs);
            assert forall|k: int| 0 <= k < hs.len() implies (#[trigger] hs[k] as int) < nodes.len() by {
                if k > 0 {
                    assert(hs[k] == up[k - 1]);
                }
            }
        }
    }
}

/// A component set the file carries, as resolution reads it: its members'
/// ids, and what it does with a switch that reaches it.
#[derive(Debug)]
pub struct SetEntry {
    pub members: Vec<String>,
    pub state: SetState,
}

/// The set a component id is a member of: the last set listing it.
pub open spec fn set_index(sets: Seq<SetEntry>, id: Seq<char>) -> Option<int>
    decreases sets.len(),
{
    if sets.len() == 0 {
        None
    } else if strings_view(sets.last().members@).contains(id) {
        Some(sets.len() - 1)
    } else {
        set_index(sets.drop_last(), id)
    }
}

proof fn lemma_set_index_in_range(sets: Seq<SetEntry>, id: Seq<char>)
    ensures
        set_index(sets, id) matches Some(i) ==> 0 <= i < sets.len(),
    decreases sets.len(),
{
    if sets.len() > 0 {
        lemma_set_index_in_range(sets.drop_last(), id);
    }
}

/// The set `id` is a member of, by position.
pub fn set_of(sets: &Vec<SetEntry>, id: &String) -> (r: Option<usize>)
    ensures
        match r {
            Some(i) => set_index(sets@, id@) == Some(i as int),
            None => set_index(sets@, id@) is None,
        },
        r matches Some(i) ==> i < sets@.len(),
{
    let mut k: usize = sets.len();
    proof {
        assert(sets@.take(k as int) =~= sets@);
    }
    while k > 0
        invariant
            k <= sets@.len(),
            set_index(sets@, id@) == set_index(sets@.take(k as int), id@),
        decreases k,
    {
        let found = contains_string(&sets[k - 1].members, id);
        proof {
            assert(sets@.take(k as int).drop_last() =~= sets@.take(k - 1));
            assert(sets@.take(k as int).last() == sets@[k - 1]);
        }
        if found {
            return Some(k - 1);
        }
        k = k - 1;
    }
    None
}

/// Why a `CHANGE_TO` that lands in no set lowers nowhere, read off the
/// node's nearest host alone: the host stands for a member of a set the
/// file carries (the destination is not one of that set's), it shows a
/// component the file does not contain (a missing library), or neither.
pub open spec fn unlanded_of(nodes: Seq<Walked>, at: usize, sets: Seq<SetEntry>, components: Seq<Seq<char>>) -> Landing {
    let hs = hosts(nodes, at);
    if hs.len() == 0 {
        Landing::NoSet
    } else {
        let h = *nodes[hs[0] as int].node;
        let shows = opt_chars(h.component_id);
        let component = match shows {
            Some(c) => Some(c),
            None => if is_definition(h) {
                member_id(h)
            } else {
                None
            },
        };
        if component matches Some(c) && set_index(sets, c) is Some {
            Landing::NotAMember
        } else {
            match shows {
                Some(c) => if components.contains(c) {
                    Landing::NoSet
                } else {
                    Landing::LibraryAbsent
                },
                None => Landing::NoSet,
            }
        }
    }
}

/// The landing of a switch on the node at `at` that lands in no set.
/// `components` lists every component the file contains.
pub fn unlanded(nodes: &Vec<Walked>, at: usize, sets: &Vec<SetEntry>, components: &Vec<String>) -> (l: Landing)
    requires
        parents_precede(nodes@),
        at < nodes@.len(),
    ensures
        l == unlanded_of(nodes@, at, sets@, strings_view(components@)),
{
    let hs = hosts_of(nodes, at);
    proof {
        lemma_hosts_in_range(nodes@, at);
    }
    if hs.len() == 0 {
        return Landing::NoSet;
    }
    let h = nodes[hs[0]].node;
    let component = match &h.component_id {
        Some(c) => Some(c),
        None => if str_eq(h.kind.as_str(), "COMPONENT") || str_eq(h.kind.as_str(), "COMPONENT_SET") {
            h.id.as_ref()
        } else {
            None
        },
    };
    let in_a_set = match component {
        Some(c) => set_of(sets, c).is_some(),
        None => false,
    };
    if in_a_set {
        return Landing::NotAMember;
    }
    match &h.component_id {
        Some(c) => if contains_string(components, c) {
            Landing::NoSet
        } else {
            Landing::LibraryAbsent
        },
        None => Landing::NoSet,
    }
}

fn copy_state(s: &SetState) -> (r: SetState)
    ensures
        r == *s,
{
    match s {
        SetState::Lowers(i) => SetState::Lowers(*i),
        SetState::NamedItsLoss(why) => SetState::NamedItsLoss(why.clone()),
        SetState::Silent => SetState::Silent,
    }
}

/// Where a `CHANGE_TO` to `destination` on the node at `at` lands and how
/// far it gets: into the destination's set when a host belongs to it, and
/// to a variant table when the set lowers one and the host it travels
/// through carries it (`carrying` lists those hosts).
pub open spec fn resolution(
    nodes: Seq<Walked>,
    at: usize,
    destination: Seq<char>,
    sets: Seq<SetEntry>,
    components: Seq<Seq<char>>,
    carrying: Seq<usize>,
) -> (Landing, Reach) {
    match set_index(sets, destination) {
        None => (unlanded_of(nodes, at, sets, components), Reach::Named),
        Some(index) => {
            let set = sets[index];
            let lowers = set.state is Lowers;
            match hosting_along(nodes, hosts(nodes, at), strings_view(set.members@)) {
                Hosting::Elsewhere => (unlanded_of(nodes, at, sets, components), Reach::Named),
                Hosting::LandsAt(host) => if lowers && carrying.contains(host) {
                    (Landing::InSet(set.state), Reach::Table)
                } else {
                    (Landing::InSet(set.state), Reach::Named)
                },
                Hosting::LandsNowhere => if lowers {
                    (Landing::InSet(set.state), Reach::Nowhere)
                } else {
                    (Landing::InSet(set.state), Reach::Named)
                },
            }
        },
    }
}

/// Where one `CHANGE_TO` lands and how far it gets.
pub fn resolve_switch(
    nodes: &Vec<Walked>,
    at: usize,
    destination: &String,
    sets: &Vec<SetEntry>,
    components: &Vec<String>,
    carrying: &Vec<usize>,
) -> (r: (Landing, Reach))
    requires
        parents_precede(nodes@),
        at < nodes@.len(),
    ensures
        r == resolution(nodes@, at, destination@, sets@, strings_view(components@), carrying@),
{
    let index = match set_of(sets, destination) {
        None => return (unlanded(nodes, at, sets, components), Reach::Named),
        Some(i) => i,
    };
    proof {
        lemma_set_index_in_range(sets@, destination@);
    }
    let set = &sets[index];
    let lowers = match set.state {
        SetState::Lowers(_) => true,
        _ => false,
    };
    match hosting(nodes, at, &set.members) {
        Hosting::Elsewhere => (unlanded(nodes, at, sets, components), Reach::Named),
        Hosting::LandsAt(host) => {
            let mut carried = false;
            let mut k: usize = 0;
            while k < carrying.len()
                invariant
                    k <= carrying@.len(),
                    carried == carrying@.take(k as int).contains(host),
                decreases carrying@.len() - k,
            {
                let ghost t = carrying@.take(k as int);
                let ghost t1 = carrying@.take(k + 1);
                proof {
                    assert(t1 =~= t.push(carrying@[k as int]));
                    if t.contains(host) {
                        let j = choose|j: int| 0 <= j < t.len() && t[j] == host;
                        assert(t1[j] == host);
                    }
                    if t1.contains(host) && carrying@[k as int] != host {
                        let j = choose|j: int| 0 <= j < t1.len() && t1[j] == host;
                        assert(t[j] == host);
                    }
                    if carrying@[k as int] == host {
                        assert(t1[k as int] == host);
                    }
                }
                if carrying[k] == host {
                    carried = true;
                }
                k = k + 1;
            }
            proof {
                assert(carrying@.take(k as int) =~= carrying@);
            }
            if lowers && carried {
                (Landing::InSet(copy_state(&set.state)), Reach::Table)
            } else {
                (Landing::InSet(copy_state(&set.state)), Reach::Named)
            }
        },
        Hosting::LandsNowhere => if lowers {
            (Landing::InSet(copy_state(&set.state)), Reach::Nowhere)
        } else {
            (Landing::InSet(copy_state(&set.state)), Reach::Named)
        },
    }
}


// ------------------------------------------------------------- the node list

/// A forest's nodes as references, as sibling segments are computed over.
pub open spec fn refs_of<'a>(ns: Seq<FigmaNode>) -> Seq<&'a FigmaNode> {
    ns.map_values(|n: FigmaNode| &n)
}

proof fn lemma_refs_of<'a>(ns: Seq<FigmaNode>, refs: Seq<&'a FigmaNode>)
    requires
        derefs(refs) == ns,
    ensures
        refs == refs_of(ns),
{
    assert(refs =~= refs_of(ns));
}

/// The path segment of the sibling at `k` among `ns`.
pub open spec fn sibling_segment(ns: Seq<FigmaNode>, k: int) -> Seq<char> {
    segment(refs_of(ns), k)
}

/// Every node of `ns` and below, each before its children, siblings in
/// order.
pub open spec fn preorder(ns: Seq<FigmaNode>) -> Seq<FigmaNode>
    decreases ns, 1nat,
{
    if ns.len() == 0 {
        seq![]
    } else {
        proof {
            assert(decreases_to!(ns => ns.drop_last()));
        }
        preorder(ns.drop_last()) + preorder_one(ns.last())
    }
}

pub open spec fn preorder_one(n: FigmaNode) -> Seq<FigmaNode>
    decreases n, 0nat,
{
    seq![n] + preorder(n.children@)
}

proof fn lemma_preorder_append(a: Seq<FigmaNode>, b: Seq<FigmaNode>)
    ensures
        preorder(a + b) == preorder(a) + preorder(b),
        forest_size(a + b) == forest_size(a) + forest_size(b),
    decreases b.len(),
{
    if b.len() == 0 {
        assert(a + b =~= a);
        assert(preorder(a) + Seq::<FigmaNode>::empty() =~= preorder(a));
    } else {
        assert((a + b).drop_last() =~= a + b.drop_last());
        lemma_preorder_append(a, b.drop_last());
        assert((a + b).last() == b.last());
        assert(preorder(a + b) =~= preorder(a) + preorder(b));
    }
    lemma_forest_append(a, b);
}

proof fn lemma_preorder_front(n: FigmaNode, rest: Seq<FigmaNode>)
    ensures
        preorder(seq![n] + rest) == seq![n] + preorder(n.children@) + preorder(rest),
        forest_size(seq![n] + rest) == 1 + forest_size(n.children@) + forest_size(rest),
{
    lemma_preorder_append(seq![n], rest);
    let one = seq![n];
    assert(one.drop_last() =~= Seq::<FigmaNode>::empty());
    assert(one.last() == n);
    assert(preorder(one) == preorder(one.drop_last()) + preorder_one(n));
    assert(preorder(Seq::<FigmaNode>::empty()) == Seq::<FigmaNode>::empty());
    assert(preorder(one) =~= preorder_one(n));
    assert(forest_size(one) == forest_size(one.drop_last()) + subtree_size(n));
    assert(forest_size(Seq::<FigmaNode>::empty()) == 0);
}

/// What a definition's contents belong to: itself when it is one,
/// otherwise the nearest definition above it.
pub open spec fn owner_of<'a>(w: Walked<'a>) -> Option<&'a FigmaNode> {
    if is_definition(*w.node) {
        Some(w.node)
    } else {
        w.definition
    }
}

/// An entry sits where the walk put it: a root carries `/` and its segment
/// among the roots and no definition; any other entry is a child of its
/// parent's node, with the parent's path, `/` and its segment among its
/// siblings, and the parent's owner as its definition.
pub open spec fn placed<'a>(out: Seq<Walked<'a>>, roots: Seq<FigmaNode>, e: Walked<'a>) -> bool {
    match e.parent {
        None => {
            &&& e.definition is None
            &&& exists|k: int|
                0 <= k < roots.len() && #[trigger] roots[k] == *e.node && e.path@ == "/"@ + sibling_segment(
                    roots,
                    k,
                )
        },
        Some(p) => {
            &&& (p as int) < out.len()
            &&& e.definition == owner_of(out[p as int])
            &&& exists|k: int|
                0 <= k < out[p as int].node.children@.len() && #[trigger] out[p as int].node.children@[k]
                    == *e.node && e.path@ == out[p as int].path@ + "/"@ + sibling_segment(
                    out[p as int].node.children@,
                    k,
                )
        },
    }
}

proof fn lemma_placed_stays<'a>(out: Seq<Walked<'a>>, x: Walked<'a>, roots: Seq<FigmaNode>, e: Walked<'a>)
    requires
        placed(out, roots, e),
    ensures
        placed(out.push(x), roots, e),
{
    match e.parent {
        None => {},
        Some(p) => {
            assert(out.push(x)[p as int] == out[p as int]);
            let k = choose|k: int|
                0 <= k < out[p as int].node.children@.len() && #[trigger] out[p as int].node.children@[k]
                    == *e.node && e.path@ == out[p as int].path@ + "/"@ + sibling_segment(
                    out[p as int].node.children@,
                    k,
                );
            assert(out.push(x)[p as int].node.children@[k] == *e.node);
        },
    }
}

/// The nodes still to visit, the top of `stack` first.
pub open spec fn pending<'a>(stack: Seq<Walked<'a>>) -> Seq<FigmaNode>
    decreases stack.len(),
{
    if stack.len() == 0 {
        seq![]
    } else {
        seq![*stack.last().node] + pending(stack.drop_last())
    }
}

pub open spec fn nodes_of<'a>(out: Seq<Walked<'a>>) -> Seq<FigmaNode> {
    out.map_values(|w: Walked<'a>| *w.node)
}


/// The references of `node`'s children, in order.
fn child_refs<'a>(node: &'a FigmaNode) -> (children: Vec<&'a FigmaNode>)
    ensures
        children@ == refs_of(node.children@),
{
    let mut children: Vec<&'a FigmaNode> = Vec::new();
    let mut c: usize = 0;
    while c < node.children.len()
        invariant
            c <= node.children@.len(),
            derefs(children@) == node.children@.take(c as int),
        decreases node.children@.len() - c,
    {
        let ghost prev = children@;
        children.push(&node.children[c]);
        proof {
            assert(derefs(children@) =~= derefs(prev).push(node.children@[c as int]));
            assert(node.children@.take(c + 1) =~= node.children@.take(c as int).push(node.children@[c as int]));
        }
        c = c + 1;
    }
    proof {
        assert(node.children@.take(c as int) =~= node.children@);
        lemma_refs_of(node.children@, children@);
    }
    children
}

/// Pushes an entry for each child of the node at `at` onto `stack`, last
/// child first, so the first child is visited next.
#[verifier::spinoff_prover]
fn push_entries<'a>(
    stack: &mut Vec<Walked<'a>>,
    out: &Vec<Walked<'a>>,
    at: usize,
    node: &'a FigmaNode,
    base: &String,
    owner: Option<&'a FigmaNode>,
    Ghost(rs): Ghost<Seq<FigmaNode>>,
)
    requires
        out@.len() == at + 1,
        out@[at as int].node == node,
        out@[at as int].path@ == base@,
        owner == owner_of(out@[at as int]),
        forall|i: int| 0 <= i < old(stack)@.len() ==> placed(out@, rs, #[trigger] old(stack)@[i]),
    ensures
        pending(final(stack)@) == node.children@ + pending(old(stack)@),
        forall|i: int| 0 <= i < final(stack)@.len() ==> placed(out@, rs, #[trigger] final(stack)@[i]),
{
    let ghost rest = pending(stack@);
    let children = child_refs(node);
    let segs = disambiguated_segments(children.as_slice());
    let mut j: usize = children.len();
    proof {
        assert(node.children@.skip(j as int) =~= Seq::<FigmaNode>::empty());
        assert(pending(stack@) =~= Seq::<FigmaNode>::empty() + rest);
    }
    while j > 0
        invariant
            j <= children@.len(),
            children@ == refs_of(node.children@),
            segs@.len() == children@.len(),
            forall|p: int| 0 <= p < children@.len() ==> (#[trigger] segs@[p])@ == segment(children@, p),
            out@.len() == at + 1,
            out@[at as int].node == node,
            out@[at as int].path@ == base@,
            owner == owner_of(out@[at as int]),
            pending(stack@) == node.children@.skip(j as int) + rest,
            forall|i: int| 0 <= i < stack@.len() ==> placed(out@, rs, #[trigger] stack@[i]),
        decreases j,
    {
        j = j - 1;
        let mut path = base.clone();
        push_str(&mut path, "/");
        push_str(&mut path, segs[j].as_str());
        let e = Walked { node: children[j], path, definition: owner, parent: Some(at) };
        proof {
            assert(*children@[j as int] == node.children@[j as int]);
            assert(out@[at as int].node.children@[j as int] == *e.node);
            assert(placed(out@, rs, e));
        }
        let ghost prev = stack@;
        stack.push(e);
        proof {
            assert(stack@.drop_last() =~= prev);
            assert(node.children@.skip(j as int) =~= seq![node.children@[j as int]] + node.children@.skip(j + 1));
            assert(pending(stack@) =~= node.children@.skip(j as int) + rest);
            assert forall|i: int| 0 <= i < stack@.len() implies placed(out@, rs, #[trigger] stack@[i]) by {
                if i < prev.len() {
                    assert(stack@[i] == prev[i]);
                }
            }
        }
    }
    proof {
        assert(node.children@.skip(0) =~= node.children@);
    }
}

/// Every node of the file under a canvas, in the walk's order, each with
/// the path the walk gives it, the definition its contents belong to and
/// its parent's position. Definitions are listed too.
#[verifier::spinoff_prover]
pub fn paths<'a>(document: &'a FigmaNode) -> (out: Vec<Walked<'a>>)
    ensures
        parents_precede(out@),
        forall|i: int| 0 <= i < out@.len() ==> placed(out@, canvas_children(document.children@), #[trigger] out@[i]),
        nodes_of(out@) == preorder(canvas_children(document.children@)),
{
    let ghost rs = canvas_children(document.children@);
    let roots: Vec<&'a FigmaNode> = match top_level_nodes(document) {
        Ok(r) => r,
        Err(_) => Vec::new(),
    };
    proof {
        if roots@.len() == 0 {
            assert(derefs(roots@) =~= Seq::<FigmaNode>::empty());
        }
        assert(derefs(roots@) == rs);
        lemma_refs_of(rs, roots@);
    }
    let segments = disambiguated_segments(roots.as_slice());
    let mut stack: Vec<Walked<'a>> = Vec::new();
    let mut k: usize = roots.len();
    proof {
        assert(rs.skip(k as int) =~= Seq::<FigmaNode>::empty());
    }
    while k > 0
        invariant
            k <= roots@.len(),
            derefs(roots@) == rs,
            roots@ == refs_of(rs),
            segments@.len() == roots@.len(),
            forall|p: int| 0 <= p < roots@.len() ==> (#[trigger] segments@[p])@ == segment(roots@, p),
            pending(stack@) == rs.skip(k as int),
            forall|i: int| 0 <= i < stack@.len() ==> placed(Seq::<Walked<'a>>::empty(), rs, #[trigger] stack@[i]),
        decreases k,
    {
        k = k - 1;
        let mut path = string_of("/");
        push_str(&mut path, segments[k].as_str());
        let e = Walked { node: roots[k], path, definition: None, parent: None };
        proof {
            assert(*roots@[k as int] == rs[k as int]);
            assert(placed(Seq::<Walked<'a>>::empty(), rs, e));
        }
        let ghost prev = stack@;
        stack.push(e);
        proof {
            assert(stack@.drop_last() =~= prev);
            assert(rs.skip(k as int) =~= seq![rs[k as int]] + rs.skip(k + 1));
            assert forall|i: int| 0 <= i < stack@.len() implies placed(Seq::<Walked<'a>>::empty(), rs, #[trigger] stack@[i]) by {
                if i < prev.len() {
                    assert(stack@[i] == prev[i]);
                }
            }
        }
    }
    proof {
        assert(rs.skip(0) =~= rs);
    }
    let mut out: Vec<Walked<'a>> = Vec::new();
    proof {
        assert(nodes_of(out@) =~= Seq::<FigmaNode>::empty());
        assert(Seq::<FigmaNode>::empty() + preorder(rs) =~= preorder(rs));
    }
    while stack.len() > 0
        invariant
            parents_precede(out@),
            forall|i: int| 0 <= i < out@.len() ==> placed(out@, rs, #[trigger] out@[i]),
            forall|i: int| 0 <= i < stack@.len() ==> placed(out@, rs, #[trigger] stack@[i]),
            nodes_of(out@) + preorder(pending(stack@)) == preorder(rs),
        decreases forest_size(pending(stack@)),
    {
        let ghost before = stack@;
        let walked = stack.pop().unwrap();
        proof {
            assert(stack@ =~= before.drop_last());
            assert(walked == before.last());
            assert(placed(out@, rs, walked)) by {
                assert(before[before.len() - 1] == walked);
            }
            lemma_preorder_front(*walked.node, pending(stack@));
        }
        let ghost rest = stack@;
        let node: &'a FigmaNode = walked.node;
        let owner: Option<&'a FigmaNode> = if str_eq(node.kind.as_str(), "COMPONENT") || str_eq(
            node.kind.as_str(),
            "COMPONENT_SET",
        ) {
            Some(node)
        } else {
            walked.definition
        };
        let base = walked.path.clone();
        let at = out.len();
        let ghost out0 = out@;
        out.push(walked);
        proof {
            assert(out@ == out0.push(walked));
            assert(out@[at as int] == walked);
            assert(owner == owner_of(walked));
            assert forall|i: int| 0 <= i < out@.len() implies placed(out@, rs, #[trigger] out@[i]) by {
                if i < at {
                    assert(out@[i] == out0[i]);
                    lemma_placed_stays(out0, walked, rs, out0[i]);
                } else {
                    lemma_placed_stays(out0, walked, rs, walked);
                }
            }
            assert forall|i: int| 0 <= i < stack@.len() implies placed(out@, rs, #[trigger] stack@[i]) by {
                assert(stack@[i] == before[i]);
                lemma_placed_stays(out0, walked, rs, stack@[i]);
            }
            assert forall|i: int| 0 <= i < out@.len() implies match #[trigger] out@[i].parent {
                Some(p) => (p as int) < i,
                None => true,
            } by {
                if i < at {
                    assert(out@[i] == out0[i]);
                }
            }
            assert(nodes_of(out@) =~= nodes_of(out0).push(*node));
        }
        push_entries(&mut stack, &out, at, node, &base, owner, Ghost(rs));
        proof {
            assert(node.children@.skip(0) =~= node.children@);
            lemma_preorder_append(node.children@, pending(rest));
            assert(nodes_of(out@) + preorder(pending(stack@)) =~= nodes_of(out0) + (seq![*node] + preorder(
                node.children@,
            ) + preorder(pending(rest))));
        }
    }
    proof {
        assert(nodes_of(out@) + Seq::<FigmaNode>::empty() =~= nodes_of(out@));
    }
    out
}

// ------------------------------------------------------------- what is named where

/// The definition an entry's contents belong to: itself when it is one,
/// otherwise the nearest definition above it.
pub fn owner<'a>(w: &Walked<'a>) -> (o: Option<&'a FigmaNode>)
    ensures
        o == owner_of(*w),
{
    if str_eq(w.node.kind.as_str(), "COMPONENT") || str_eq(w.node.kind.as_str(), "COMPONENT_SET") {
        Some(w.node)
    } else {
        w.definition
    }
}

/// Whether an entry can reach the screen, given the members a switch can
/// put there: outside every definition it paints directly; inside one,
/// only when that definition is switchable.
pub open spec fn reaches(w: Walked, switchable: Seq<Seq<char>>) -> bool {
    match owner_of(w) {
        None => true,
        Some(d) => match opt_chars(d.id) {
            Some(id) => switchable.contains(id),
            None => false,
        },
    }
}

pub fn reaches_screen(w: &Walked, switchable: &Vec<String>) -> (r: bool)
    ensures
        r == reaches(*w, strings_view(switchable@)),
{
    match owner(w) {
        None => true,
        Some(d) => match &d.id {
            Some(id) => contains_string(switchable, id),
            None => false,
        },
    }
}

/// Whether an entry's interactions are named at it: it reaches the screen,
/// and it is not a member some instance shows, whose reactions are named
/// on the copy that instance carries.
pub open spec fn named_here(w: Walked, switchable: Seq<Seq<char>>, shown: Seq<Seq<char>>) -> bool {
    reaches(w, switchable) && match owner_of(w) {
        None => true,
        Some(d) => match opt_chars(d.id) {
            Some(id) => !shown.contains(id),
            None => false,
        },
    }
}

pub fn names_here(w: &Walked, switchable: &Vec<String>, shown: &Vec<String>) -> (r: bool)
    ensures
        r == named_here(*w, strings_view(switchable@), strings_view(shown@)),
{
    reaches_screen(w, switchable) && match owner(w) {
        None => true,
        Some(d) => match &d.id {
            Some(id) => !contains_string(shown, id),
            None => false,
        },
    }
}

/// What follows the last `;` of `s`, or all of `s` when it has none.
pub open spec fn after_last_semicolon(s: Seq<char>) -> Seq<char>
    decreases s.len(),
{
    if s.len() == 0 {
        s
    } else if s.last() == ';' {
        seq![]
    } else {
        after_last_semicolon(s.drop_last()).push(s.last())
    }
}

/// The layer a reaction was authored on, as the key its echoes collapse
/// under: the last `;`-separated part of the node's id (an instance's copy
/// of a master's layer carries the master's id last), or the node's path
/// when it has no id.
pub fn authored_source(node: &FigmaNode, path: &String) -> (source: String)
    ensures
        source@ == match node.id {
            Some(id) => after_last_semicolon(id@),
            None => path@,
        },
{
    match &node.id {
        None => path.clone(),
        Some(id) => {
            let cs = chars_of(id.as_str());
            let mut start: usize = cs.len();
            proof {
                assert(cs@.take(start as int) =~= cs@);
                assert(cs@.skip(start as int) =~= Seq::<char>::empty());
                assert(after_last_semicolon(cs@) + Seq::<char>::empty() =~= after_last_semicolon(cs@));
            }
            while start > 0 && cs[start - 1] != ';'
                invariant
                    start <= cs@.len(),
                    cs@ == id@,
                    after_last_semicolon(cs@) == after_last_semicolon(cs@.take(start as int)) + cs@.skip(
                        start as int,
                    ),
                decreases start,
            {
                proof {
                    let t = cs@.take(start as int);
                    assert(t.drop_last() =~= cs@.take(start - 1));
                    assert(t.last() == cs@[start - 1]);
                    assert(cs@.skip(start - 1) =~= seq![cs@[start - 1]] + cs@.skip(start as int));
                    assert(after_last_semicolon(t) == after_last_semicolon(cs@.take(start - 1)).push(cs@[start - 1]));
                    assert(after_last_semicolon(cs@.take(start - 1)).push(cs@[start - 1]) + cs@.skip(start as int)
                        =~= after_last_semicolon(cs@.take(start - 1)) + cs@.skip(start - 1));
                }
                start = start - 1;
            }
            proof {
                let t = cs@.take(start as int);
                if start > 0 {
                    assert(t.last() == cs@[start - 1]);
                    assert(after_last_semicolon(t) == Seq::<char>::empty());
                } else {
                    assert(t =~= Seq::<char>::empty());
                }
                assert(after_last_semicolon(cs@.take(cs@.len() as int)) == after_last_semicolon(cs@)) by {
                    assert(cs@.take(cs@.len() as int) =~= cs@);
                }
                assert(Seq::<char>::empty() + cs@.skip(start as int) =~= cs@.subrange(start as int, cs@.len() as int));
            }
            string_of_chars(&cs, start, cs.len())
        },
    }
}

/// A component set's members, in declaration order: its `COMPONENT`
/// children.
pub open spec fn members(children: Seq<FigmaNode>) -> Seq<FigmaNode>
    decreases children.len(),
{
    if children.len() == 0 {
        seq![]
    } else {
        members(children.drop_last()) + if children.last().kind@ == "COMPONENT"@ {
            seq![children.last()]
        } else {
            seq![]
        }
    }
}

pub fn members_of<'a>(set: &'a FigmaNode) -> (ms: Vec<&'a FigmaNode>)
    ensures
        derefs(ms@) == members(set.children@),
{
    let mut ms: Vec<&'a FigmaNode> = Vec::new();
    let mut i: usize = 0;
    proof {
        assert(set.children@.take(0) =~= Seq::<FigmaNode>::empty());
        assert(derefs(ms@) =~= Seq::<FigmaNode>::empty());
    }
    while i < set.children.len()
        invariant
            i <= set.children@.len(),
            derefs(ms@) == members(set.children@.take(i as int)),
        decreases set.children@.len() - i,
    {
        let child = &set.children[i];
        proof {
            assert(set.children@.take(i + 1).drop_last() =~= set.children@.take(i as int));
            assert(set.children@.take(i + 1).last() == *child);
        }
        let ghost prev = ms@;
        if str_eq(child.kind.as_str(), "COMPONENT") {
            ms.push(child);
            proof {
                assert(derefs(ms@) =~= derefs(prev) + seq![*child]);
            }
        } else {
            proof {
                assert(derefs(prev) + Seq::<FigmaNode>::empty() =~= derefs(prev));
            }
        }
        i = i + 1;
    }
    proof {
        assert(set.children@.take(i as int) =~= set.children@);
    }
    ms
}

// ------------------------------------------------------------- what a switch can put on screen

/// An instance that paints: outside every definition, or inside one a
/// switch in `s` can put on screen.
pub open spec fn live(w: Walked, s: Set<Seq<char>>) -> bool {
    w.node.kind@ == "INSTANCE"@ && match w.definition {
        None => true,
        Some(d) => match opt_chars(d.id) {
            Some(id) => s.contains(id),
            None => false,
        },
    }
}

/// The component an entry shows.
pub open spec fn shows(w: Walked) -> Option<Seq<char>> {
    opt_chars(w.node.component_id)
}

/// Whether `c` is a member of a set that lowers a variant table.
pub open spec fn lowers_at(sets: Seq<SetEntry>, c: Seq<char>) -> bool {
    set_index(sets, c) matches Some(idx) && sets[idx].state is Lowers
}

/// Every member of the set `c` belongs to is in `s`.
pub open spec fn members_in(sets: Seq<SetEntry>, c: Seq<char>, s: Set<Seq<char>>) -> bool {
    forall|m: Seq<char>| strings_view(sets[set_index(sets, c)->0].members@).contains(m) ==> #[trigger] s.contains(m)
}

/// `h` (the components shown) and `s` (the members a switch can reach)
/// are closed: every painting instance's component is shown, and every
/// member of a lowering set something shows is switchable.
pub open spec fn closed(nodes: Seq<Walked>, sets: Seq<SetEntry>, h: Set<Seq<char>>, s: Set<Seq<char>>) -> bool {
    &&& forall|i: int|
        0 <= i < nodes.len() && live(#[trigger] nodes[i], s) && shows(nodes[i]) is Some ==> h.contains(
            shows(nodes[i])->0,
        )
    &&& forall|c: Seq<char>| #[trigger] h.contains(c) && lowers_at(sets, c) ==> members_in(sets, c, s)
}

/// How many entries of `seen` are unset.
pub open spec fn unseen(seen: Seq<bool>) -> nat
    decreases seen.len(),
{
    if seen.len() == 0 {
        0
    } else {
        unseen(seen.drop_last()) + if seen.last() {
            0nat
        } else {
            1nat
        }
    }
}

proof fn lemma_unseen_mark(seen: Seq<bool>, i: int)
    requires
        0 <= i < seen.len(),
        !seen[i],
    ensures
        unseen(seen.update(i, true)) + 1 == unseen(seen),
    decreases seen.len(),
{
    let u = seen.update(i, true);
    if i == seen.len() - 1 {
        assert(u.drop_last() =~= seen.drop_last());
    } else {
        assert(u.drop_last() =~= seen.drop_last().update(i, true));
        lemma_unseen_mark(seen.drop_last(), i);
    }
}

pub open spec fn def_id(w: Walked) -> Option<Seq<char>> {
    match w.definition {
        Some(d) => opt_chars(d.id),
        None => None,
    }
}

proof fn lemma_push_contains<A>(s: Seq<A>, y: A)
    ensures
        forall|x: A| #[trigger] s.push(y).contains(x) <==> (s.contains(x) || x == y),
        forall|x: A| #[trigger] s.push(y).to_set().contains(x) <==> (s.to_set().contains(x) || x == y),
{
    assert forall|x: A| #[trigger] s.push(y).contains(x) <==> (s.contains(x) || x == y) by {
        if s.contains(x) {
            let k = choose|k: int| 0 <= k < s.len() && s[k] == x;
            assert(s.push(y)[k] == x);
        }
        if x == y {
            assert(s.push(y)[s.len() as int] == x);
        }
        if s.push(y).contains(x) && x != y {
            let k = choose|k: int| 0 <= k < s.push(y).len() && s.push(y)[k] == x;
            assert(s[k] == x);
        }
    }
    assert forall|x: A| #[trigger] s.push(y).to_set().contains(x) <==> (s.to_set().contains(x) || x == y) by {
        assert(s.push(y).to_set().contains(x) == s.push(y).contains(x));
        assert(s.to_set().contains(x) == s.contains(x));
    }
}

/// Marks and queues every instance inside the definition `m`.
#[verifier::spinoff_prover]
fn enqueue_inside(nodes: &Vec<Walked>, m: &String, seen: &mut Vec<bool>, queue: &mut Vec<usize>)
    requires
        old(seen)@.len() == nodes@.len(),
        forall|q: int| 0 <= q < old(queue)@.len() ==> (#[trigger] old(queue)@[q] as int) < nodes@.len(),
    ensures
        final(seen)@.len() == nodes@.len(),
        forall|i: int|
            0 <= i < nodes@.len() ==> (#[trigger] final(seen)@[i] <==> (old(seen)@[i] || (nodes@[i].node.kind@
                == "INSTANCE"@ && def_id(nodes@[i]) == Some(m@)))),
        forall|i: int|
            0 <= i < nodes@.len() && final(seen)@[i] && !old(seen)@[i] ==> #[trigger] final(queue)@.contains(
                i as usize,
            ),
        forall|q: int|
            0 <= q < final(queue)@.len() ==> (#[trigger] final(queue)@[q] as int) < nodes@.len() && (q
                < old(queue)@.len() ==> final(queue)@[q] == old(queue)@[q]) && (q >= old(queue)@.len()
                ==> final(seen)@[final(queue)@[q] as int] && nodes@[final(queue)@[q] as int].node.kind@
                == "INSTANCE"@),
        final(queue)@.len() >= old(queue)@.len(),
        unseen(final(seen)@) + final(queue)@.len() == unseen(old(seen)@) + old(queue)@.len(),
{
    let mut j: usize = 0;
    while j < nodes.len()
        invariant
            j <= nodes@.len(),
            seen@.len() == nodes@.len(),
            forall|i: int|
                0 <= i < nodes@.len() ==> (#[trigger] seen@[i] <==> (old(seen)@[i] || (i < j
                    && nodes@[i].node.kind@ == "INSTANCE"@ && def_id(nodes@[i]) == Some(m@)))),
            forall|i: int| 0 <= i < nodes@.len() && seen@[i] && !old(seen)@[i] ==> #[trigger] queue@.contains(i as usize),
            forall|q: int|
                0 <= q < queue@.len() ==> (#[trigger] queue@[q] as int) < nodes@.len() && (q < old(queue)@.len()
                    ==> queue@[q] == old(queue)@[q]) && (q >= old(queue)@.len() ==> seen@[queue@[q] as int]
                    && nodes@[queue@[q] as int].node.kind@ == "INSTANCE"@),
            queue@.len() >= old(queue)@.len(),
            unseen(seen@) + queue@.len() == unseen(old(seen)@) + old(queue)@.len(),
        decreases nodes@.len() - j,
    {
        let w = &nodes[j];
        let inside = str_eq(w.node.kind.as_str(), "INSTANCE") && match w.definition {
            Some(d) => match &d.id {
                Some(id) => str_eq(id.as_str(), m.as_str()),
                None => false,
            },
            None => false,
        };
        proof {
            assert(inside == (nodes@[j as int].node.kind@ == "INSTANCE"@ && def_id(nodes@[j as int]) == Some(m@)));
        }
        if inside && !seen[j] {
            let ghost s0 = seen@;
            let ghost q0 = queue@;
            proof {
                lemma_unseen_mark(s0, j as int);
            }
            seen.set(j, true);
            queue.push(j);
            proof {
                assert(seen@ == s0.update(j as int, true));
                assert(queue@[q0.len() as int] == j);
                assert forall|i: int| 0 <= i < nodes@.len() && seen@[i] && !old(seen)@[i] implies #[trigger] queue@.contains(i as usize) by {
                    if i == j {
                        assert(queue@[q0.len() as int] == i as usize);
                    } else {
                        assert(q0.contains(i as usize));
                        let k = choose|k: int| 0 <= k < q0.len() && q0[k] == i as usize;
                        assert(queue@[k] == i as usize);
                    }
                }
            }
        }
        j = j + 1;
    }
}

/// The components some painting instance shows, and the members a switch
/// can put on screen: the least pair closed under both rules. An instance
/// inside a member paints exactly when a switch can reach that member,
/// and then shows its own set, whose members become reachable in turn.
#[verifier::spinoff_prover]
pub fn reachability(nodes: &Vec<Walked>, sets: &Vec<SetEntry>) -> (out: (Vec<String>, Vec<String>))
    ensures
        closed(nodes@, sets@, strings_view(out.0@).to_set(), strings_view(out.1@).to_set()),
        forall|h2: Set<Seq<char>>, s2: Set<Seq<char>>|
            closed(nodes@, sets@, h2, s2) ==> strings_view(out.0@).to_set().subset_of(h2) && strings_view(
                out.1@,
            ).to_set().subset_of(s2),
{
    let n = nodes.len();
    let mut seen: Vec<bool> = Vec::new();
    let mut queue: Vec<usize> = Vec::new();
    let mut shown: Vec<String> = Vec::new();
    let mut switchable: Vec<String> = Vec::new();
    let mut j: usize = 0;
    while j < n
        invariant
            n == nodes@.len(),
            j <= n,
            seen@.len() == j,
            forall|i: int| 0 <= i < j ==> (#[trigger] seen@[i] <==> live(nodes@[i], Set::<Seq<char>>::empty())),
            forall|i: int| 0 <= i < j && seen@[i] ==> #[trigger] queue@.contains(i as usize),
            forall|q: int| 0 <= q < queue@.len() ==> (#[trigger] queue@[q] as int) < j && seen@[queue@[q] as int],
            unseen(seen@) + queue@.len() == j,
        decreases n - j,
    {
        let w = &nodes[j];
        let direct = str_eq(w.node.kind.as_str(), "INSTANCE") && w.definition.is_none();
        let ghost s0 = seen@;
        let ghost q0 = queue@;
        seen.push(direct);
        proof {
            assert(seen@.drop_last() =~= s0);
        }
        if direct {
            queue.push(j);
            proof {
                assert(queue@[q0.len() as int] == j);
            }
        }
        proof {
            assert forall|i: int| 0 <= i < j + 1 && seen@[i] implies #[trigger] queue@.contains(i as usize) by {
                if i < j {
                    assert(s0[i] == seen@[i]);
                    assert(q0.contains(i as usize));
                    let k = choose|k: int| 0 <= k < q0.len() && q0[k] == i as usize;
                    assert(queue@[k] == i as usize);
                } else {
                    assert(queue@[q0.len() as int] == i as usize);
                }
            }
            assert forall|q: int| 0 <= q < queue@.len() implies (#[trigger] queue@[q] as int) < j + 1 && seen@[queue@[q] as int] by {
                if q < q0.len() {
                    assert(queue@[q] == q0[q]);
                }
            }
        }
        j = j + 1;
    }
    proof {
        assert forall|h2: Set<Seq<char>>, s2: Set<Seq<char>>| closed(nodes@, sets@, h2, s2) implies strings_view(shown@).to_set().subset_of(h2) && strings_view(switchable@).to_set().subset_of(s2) by {
            assert(strings_view(shown@) =~= Seq::<Seq<char>>::empty());
            assert(strings_view(switchable@) =~= Seq::<Seq<char>>::empty());
        }
        assert(strings_view(switchable@).to_set() =~= Set::<Seq<char>>::empty());
    }
    while queue.len() > 0
        invariant
            n == nodes@.len(),
            seen@.len() == n,
            forall|i: int|
                0 <= i < n ==> (#[trigger] seen@[i] <==> live(nodes@[i], strings_view(switchable@).to_set())),
            forall|q: int| 0 <= q < queue@.len() ==> (#[trigger] queue@[q] as int) < n && seen@[queue@[q] as int],
            forall|i: int|
                0 <= i < n && seen@[i] && !queue@.contains(i as usize) && shows(#[trigger] nodes@[i]) is Some
                    ==> strings_view(shown@).contains(shows(nodes@[i])->0),
            forall|c: Seq<char>|
                #[trigger] strings_view(shown@).contains(c) && lowers_at(sets@, c) ==> members_in(
                    sets@,
                    c,
                    strings_view(switchable@).to_set(),
                ),
            forall|h2: Set<Seq<char>>, s2: Set<Seq<char>>|
                closed(nodes@, sets@, h2, s2) ==> strings_view(shown@).to_set().subset_of(h2) && strings_view(
                    switchable@,
                ).to_set().subset_of(s2),
        decreases unseen(seen@) + queue@.len(),
    {
        let ghost q0 = queue@;
        let ghost measure = unseen(seen@) + queue@.len();
        let at = queue.pop().unwrap();
        proof {
            assert(queue@ =~= q0.drop_last());
            assert(at == q0[q0.len() - 1]);
            assert(seen@[at as int]);
            assert(live(nodes@[at as int], strings_view(switchable@).to_set()));
            assert forall|i: int|
                0 <= i < n && seen@[i] && !queue@.contains(i as usize) && i != at && shows(#[trigger] nodes@[i]) is Some
                    implies strings_view(shown@).contains(shows(nodes@[i])->0) by {
                if q0.contains(i as usize) {
                    let k = choose|k: int| 0 <= k < q0.len() && q0[k] == i as usize;
                    if k < q0.len() - 1 {
                        assert(queue@[k] == i as usize);
                    }
                }
            }
        }
        match &nodes[at].node.component_id {
            None => {},
            Some(c) => {
                if !contains_string(&shown, c) {
                    let ghost sh0 = shown@;
                    shown.push(c.clone());
                    proof {
                        assert(strings_view(shown@) =~= strings_view(sh0).push(c@));
                        lemma_push_contains(strings_view(sh0), c@);
                        assert(strings_view(shown@).contains(c@));
                        assert forall|i: int|
                            0 <= i < n && seen@[i] && !queue@.contains(i as usize) && shows(#[trigger] nodes@[i]) is Some
                                implies strings_view(shown@).contains(shows(nodes@[i])->0) by {
                            if i != at {
                                assert(strings_view(sh0).contains(shows(nodes@[i])->0));
                            }
                        }
                        assert forall|c2: Seq<char>|
                            #[trigger] strings_view(shown@).contains(c2) && lowers_at(sets@, c2) && c2 != c@ implies members_in(
                                sets@,
                                c2,
                                strings_view(switchable@).to_set(),
                            ) by {
                            assert(strings_view(sh0).contains(c2));
                        }
                        assert forall|h2: Set<Seq<char>>, s2: Set<Seq<char>>| closed(nodes@, sets@, h2, s2) implies strings_view(shown@).to_set().subset_of(h2) by {
                            assert(strings_view(switchable@).to_set().subset_of(s2));
                            assert(live(nodes@[at as int], s2));
                            assert(shows(nodes@[at as int]) == Some(c@));
                            assert(h2.contains(c@));
                            assert(strings_view(sh0).to_set().subset_of(h2));
                        }
                    }
                    match set_of(sets, c) {
                        None => {},
                        Some(idx) => {
                            proof {
                                lemma_set_index_in_range(sets@, c@);
                            }
                            let lowers = match sets[idx].state {
                                SetState::Lowers(_) => true,
                                _ => false,
                            };
                            if lowers {
                                let members = &sets[idx].members;
                                let mut k: usize = 0;
                                while k < members.len()
                                    invariant
                                        n == nodes@.len(),
                                        seen@.len() == n,
                                        idx < sets@.len(),
                                        set_index(sets@, c@) == Some(idx as int),
                                        sets@[idx as int].state is Lowers,
                                        *members == sets@[idx as int].members,
                                        k <= members@.len(),
                                        strings_view(shown@).contains(c@),
                                        forall|k2: int| 0 <= k2 < k ==> strings_view(switchable@).contains(#[trigger] members@[k2]@),
                                        forall|i: int|
                                            0 <= i < n ==> (#[trigger] seen@[i] <==> live(nodes@[i], strings_view(switchable@).to_set())),
                                        forall|q: int| 0 <= q < queue@.len() ==> (#[trigger] queue@[q] as int) < n && seen@[queue@[q] as int],
                                        forall|i: int|
                                            0 <= i < n && seen@[i] && !queue@.contains(i as usize) && shows(#[trigger] nodes@[i]) is Some
                                                ==> strings_view(shown@).contains(shows(nodes@[i])->0),
                                        forall|c2: Seq<char>|
                                            #[trigger] strings_view(shown@).contains(c2) && lowers_at(sets@, c2) && c2 != c@ ==> members_in(
                                                sets@,
                                                c2,
                                                strings_view(switchable@).to_set(),
                                            ),
                                        forall|h2: Set<Seq<char>>, s2: Set<Seq<char>>|
                                            closed(nodes@, sets@, h2, s2) ==> strings_view(shown@).to_set().subset_of(h2) && strings_view(
                                                switchable@,
                                            ).to_set().subset_of(s2),
                                        unseen(seen@) + queue@.len() < measure,
                                    decreases members@.len() - k,
                                {
                                    let m = &members[k];
                                    if !contains_string(&switchable, m) {
                                        let ghost sw0 = strings_view(switchable@);
                                        let ghost seen0 = seen@;
                                        let ghost queue0 = queue@;
                                        switchable.push(m.clone());
                                        proof {
                                            assert(strings_view(switchable@) =~= sw0.push(m@));
                                            lemma_push_contains(sw0, m@);
                                        }
                                        enqueue_inside(nodes, m, &mut seen, &mut queue);
                                        proof {
                                            let sw = strings_view(switchable@);
                                            assert forall|i: int| 0 <= i < n implies (#[trigger] seen@[i] <==> live(nodes@[i], sw.to_set())) by {
                                                assert(seen0[i] <==> live(nodes@[i], sw0.to_set()));
                                                match nodes@[i].definition {
                                                    Some(d) => match opt_chars(d.id) {
                                                        Some(id) => {
                                                            assert(sw.to_set().contains(id) <==> (sw0.to_set().contains(id) || id == m@));
                                                        },
                                                        None => {},
                                                    },
                                                    None => {},
                                                }
                                            }
                                            assert forall|q: int| 0 <= q < queue@.len() implies (#[trigger] queue@[q] as int) < n && seen@[queue@[q] as int] by {
                                                if q < queue0.len() {
                                                    assert(queue@[q] == queue0[q]);
                                                    assert(seen0[queue0[q] as int]);
                                                }
                                            }
                                            assert forall|i: int|
                                                0 <= i < n && seen@[i] && !queue@.contains(i as usize) && shows(#[trigger] nodes@[i]) is Some
                                                    implies strings_view(shown@).contains(shows(nodes@[i])->0) by {
                                                if seen0[i] && queue0.contains(i as usize) {
                                                    let k3 = choose|k3: int| 0 <= k3 < queue0.len() && queue0[k3] == i as usize;
                                                    assert(queue@[k3] == i as usize);
                                                }
                                            }
                                            assert forall|c2: Seq<char>|
                                                #[trigger] strings_view(shown@).contains(c2) && lowers_at(sets@, c2) && c2 != c@ implies members_in(
                                                    sets@,
                                                    c2,
                                                    sw.to_set(),
                                                ) by {
                                                assert(members_in(sets@, c2, sw0.to_set()));
                                                assert forall|m2: Seq<char>| strings_view(sets@[set_index(sets@, c2)->0].members@).contains(m2) implies #[trigger] sw.to_set().contains(m2) by {
                                                    assert(sw0.to_set().contains(m2));
                                                    let k4 = choose|k4: int| 0 <= k4 < sw0.len() && sw0[k4] == m2;
                                                    assert(sw[k4] == m2);
                                                }
                                            }
                                            assert forall|h2: Set<Seq<char>>, s2: Set<Seq<char>>| closed(nodes@, sets@, h2, s2) implies sw.to_set().subset_of(s2) by {
                                                assert(sw0.to_set().subset_of(s2));
                                                assert(h2.contains(c@)) by {
                                                    assert(strings_view(shown@).to_set().subset_of(h2));
                                                }
                                                assert(members_in(sets@, c@, s2));
                                                assert(strings_view(sets@[idx as int].members@)[k as int] == m@);
                                                assert(s2.contains(m@));
                                            }
                                            assert forall|k2: int| 0 <= k2 < k + 1 implies strings_view(switchable@).contains(#[trigger] members@[k2]@) by {
                                                if k2 < k {
                                                    let k5 = choose|k5: int| 0 <= k5 < sw0.len() && sw0[k5] == members@[k2]@;
                                                    assert(sw[k5] == members@[k2]@);
                                                } else {
                                                    assert(sw[sw0.len() as int] == m@);
                                                }
                                            }
                                        }
                                    } else {
                                        proof {
                                            assert(strings_view(switchable@).contains(members@[k as int]@));
                                        }
                                    }
                                    k = k + 1;
                                }
                                proof {
                                    assert(members_in(sets@, c@, strings_view(switchable@).to_set())) by {
                                        assert forall|m2: Seq<char>| strings_view(sets@[set_index(sets@, c@)->0].members@).contains(m2) implies #[trigger] strings_view(switchable@).to_set().contains(m2) by {
                                            let k6 = choose|k6: int| 0 <= k6 < members@.len() && strings_view(members@)[k6] == m2;
                                            assert(strings_view(switchable@).contains(members@[k6]@));
                                        }
                                    }
                                }
                            }
                        },
                    }
                }
            },
        }
    }
    (shown, switchable)
}

// ------------------------------------------------------------- naming one node's interactions

/// The document index a node lowered to, by its Figma id, or `0` for a
/// node that did not lower.
pub open spec fn index_in(index_of_id: Seq<LoweredNodeView>, n: FigmaNode) -> u32 {
    match opt_chars(n.id) {
        Some(id) => match first_match(index_of_id, lowered_from(id)) {
            Some(j) => index_of_id[j].index,
            None => 0,
        },
        None => 0,
    }
}

/// Where a finding about an entry is written: the index it lowered to and
/// the path the walk gave it.
pub open spec fn location_of(index_of_id: Seq<LoweredNodeView>, w: Walked) -> LocationView {
    LocationView::Node(index_in(index_of_id, *w.node), w.path@)
}

pub fn located(index_of_id: &Vec<LoweredNode>, w: &Walked) -> (l: Location)
    ensures
        l@ == location_of(lowered_view(index_of_id@), *w),
{
    let index = match &w.node.id {
        None => 0,
        Some(id) => match find_lowered(index_of_id, id) {
            Some(j) => index_of_id[j].index,
            None => 0,
        },
    };
    Location::Node(NodePath::new(index, w.path.clone()))
}

/// The authored layer an entry's reactions collapse under.
pub open spec fn source_of(w: Walked) -> Seq<char> {
    match w.node.id {
        Some(id) => after_last_semicolon(id@),
        None => w.path@,
    }
}

/// Where each switch of an entry lands and how far it gets.
pub open spec fn resolutions(
    nodes: Seq<Walked>,
    at: usize,
    switches: Seq<SwitchView>,
    sets: Seq<SetEntry>,
    components: Seq<Seq<char>>,
    carrying: Seq<usize>,
) -> Seq<(Landing, Reach)> {
    switches.map_values(|s: SwitchView| resolution(nodes, at, s.destination, sets, components, carrying))
}

/// Reporting each of `fs` in turn for `source` at `at`.
pub open spec fn report_all(c: CollapseView, source: Seq<char>, fs: Seq<EchoableView>, at: LocationView) -> CollapseView
    decreases fs.len(),
{
    if fs.len() == 0 {
        c
    } else {
        report_spec(report_all(c, source, fs.drop_last(), at), source, fs.last(), at)
    }
}

proof fn lemma_switch_findings_len(s: SwitchView, landing: Landing, reach: Reach, by: Severity)
    ensures
        switch_findings(s, landing, reach, by).len() <= 2,
{
}

proof fn lemma_switches_findings_len(switches: Seq<SwitchView>, resolved: Seq<(Landing, Reach)>, by: Severity, n: nat)
    ensures
        switches_findings(switches, resolved, by, n).len() <= 2 * n,
    decreases n,
{
    if n > 0 {
        lemma_switches_findings_len(switches, resolved, by, (n - 1) as nat);
        lemma_switch_findings_len(switches[n - 1], resolved[n - 1].0, resolved[n - 1].1, by);
    }
}

/// Names one entry's interactions into `collapse`: where the entry's
/// reactions are named at all and it has any, each finding its read
/// interactions earn, given where each switch lands, is reported for the
/// layer it was authored on, at the entry's location.
#[verifier::spinoff_prover]
pub fn name_node(
    nodes: &Vec<Walked>,
    at: usize,
    read: &Interactions,
    sets: &Vec<SetEntry>,
    components: &Vec<String>,
    carrying: &Vec<usize>,
    switchable: &Vec<String>,
    shown: &Vec<String>,
    index_of_id: &Vec<LoweredNode>,
    policy: EmitPolicy,
    collapse: &mut Collapse,
)
    requires
        parents_precede(nodes@),
        at < nodes@.len(),
        old(collapse).wf(),
        old(collapse).reported() + read@.unsupported.len() + 2 * read@.switches.len() < usize::MAX,
    ensures
        final(collapse).wf(),
        final(collapse)@ == if named_here(nodes@[at as int], strings_view(switchable@), strings_view(shown@))
            && (read@.switches.len() > 0 || read@.unsupported.len() > 0) {
            report_all(
                old(collapse)@,
                source_of(nodes@[at as int]),
                interaction_findings(
                    read@,
                    resolutions(nodes@, at, read@.switches, sets@, strings_view(components@), carrying@),
                    policy,
                ),
                location_of(lowered_view(index_of_id@), nodes@[at as int]),
            )
        } else {
            old(collapse)@
        },
        final(collapse).reported() <= old(collapse).reported() + read@.unsupported.len() + 2 * read@.switches.len(),
{
    let w = &nodes[at];
    if !names_here(w, switchable, shown) || (read.switches.len() == 0 && read.unsupported.len() == 0) {
        return;
    }
    let ghost want = resolutions(nodes@, at, read@.switches, sets@, strings_view(components@), carrying@);
    let mut resolved: Vec<(Landing, Reach)> = Vec::new();
    let mut k: usize = 0;
    while k < read.switches.len()
        invariant
            parents_precede(nodes@),
            at < nodes@.len(),
            k <= read.switches@.len(),
            want == resolutions(nodes@, at, read@.switches, sets@, strings_view(components@), carrying@),
            resolved@ == want.take(k as int),
        decreases read.switches@.len() - k,
    {
        let r = resolve_switch(nodes, at, &read.switches[k].destination, sets, components, carrying);
        proof {
            assert(read@.switches[k as int] == read.switches@[k as int]@);
        }
        resolved.push(r);
        proof {
            assert(resolved@ =~= want.take(k + 1));
        }
        k = k + 1;
    }
    proof {
        assert(want.take(k as int) =~= want);
    }
    let source = authored_source(w.node, &w.path);
    let findings = interaction_diagnostics(read, resolved.as_slice(), policy);
    let ghost fs = echoables_view(findings@);
    proof {
        lemma_switches_findings_len(read@.switches, want, omission_weight(policy), read@.switches.len());
        assert(fs.len() <= read@.unsupported.len() + 2 * read@.switches.len());
        assert(fs.take(0) =~= Seq::<EchoableView>::empty());
    }
    let ghost c0 = collapse@;
    let ghost r0 = collapse.reported();
    let mut rest = findings;
    proof {
        assert(fs.skip(0) =~= fs);
    }
    let mut i: usize = 0;
    while rest.len() > 0
        invariant
            i <= fs.len(),
            rest@.len() == fs.len() - i,
            echoables_view(rest@) == fs.skip(i as int),
            collapse.wf(),
            collapse@ == report_all(c0, source@, fs.take(i as int), location_of(lowered_view(index_of_id@), nodes@[at as int])),
            collapse.reported() == r0 + i,
            r0 + fs.len() < usize::MAX,
            fs.len() <= read@.unsupported.len() + 2 * read@.switches.len(),
            at < nodes@.len(),
        decreases rest@.len(),
    {
        let ghost r_before = rest@;
        let f = rest.remove(0);
        proof {
            assert(rest@ =~= r_before.subrange(1, r_before.len() as int));
            assert(echoables_view(r_before)[0] == f@);
            assert(fs.skip(i as int)[0] == f@);
            assert forall|j: int| 0 <= j < rest@.len() implies echoables_view(rest@)[j] == fs.skip(i + 1)[j] by {
                assert(echoables_view(rest@)[j] == echoables_view(r_before)[j + 1]);
                assert(fs.skip(i as int)[j + 1] == fs.skip(i + 1)[j]);
            }
            assert(echoables_view(rest@) =~= fs.skip(i + 1));
            assert(fs.take(i + 1).drop_last() =~= fs.take(i as int));
            assert(fs.take(i + 1).last() == f@);
        }
        let place = located(index_of_id, &nodes[at]);
        collapse.report(source.as_str(), f, place);
        i = i + 1;
    }
    proof {
        assert(fs.skip(i as int).len() == 0);
        assert(fs.take(i as int) =~= fs);
    }
}

/// Whether the entry at `p` is a member root whose set some instance
/// shipped a variant table for (`emitted` lists those sets), so it carries
/// the set's default transitions.
pub open spec fn carries_defaults(nodes: Seq<Walked>, sets: Seq<SetEntry>, emitted: Seq<usize>, p: int) -> bool {
    &&& 0 <= p < nodes.len()
    &&& is_definition(*nodes[p].node)
    &&& match opt_chars(nodes[p].node.id) {
        Some(id) => match set_index(sets, id) {
            Some(ix) => exists|k: int| 0 <= k < emitted.len() && emitted[k] as int == ix,
            None => false,
        },
        None => false,
    }
}

/// The hosts that carry a transition table: the instances whose table
/// shipped (`shipped`), and every member root of a set some instance
/// shipped a table for.
#[verifier::spinoff_prover]
pub fn carrying_hosts(nodes: &Vec<Walked>, sets: &Vec<SetEntry>, emitted: &Vec<usize>, shipped: Vec<usize>) -> (out: Vec<
    usize,
>)
    ensures
        forall|h: usize| #[trigger] out@.contains(h) <==> (shipped@.contains(h) || carries_defaults(nodes@, sets@, emitted@, h as int)),
{
    let mut out = shipped;
    let ghost base = out@;
    let mut p: usize = 0;
    while p < nodes.len()
        invariant
            p <= nodes@.len(),
            forall|h: usize| #[trigger] out@.contains(h) <==> (base.contains(h) || ((h as int) < p && carries_defaults(nodes@, sets@, emitted@, h as int))),
        decreases nodes@.len() - p,
    {
        let node = nodes[p].node;
        let root = str_eq(node.kind.as_str(), "COMPONENT") || str_eq(node.kind.as_str(), "COMPONENT_SET");
        let mut carries = false;
        if root {
            match &node.id {
                Some(id) => match set_of(sets, id) {
                    Some(ix) => {
                        let mut k: usize = 0;
                        while k < emitted.len()
                            invariant
                                k <= emitted@.len(),
                                carries == exists|j: int| 0 <= j < k && emitted@[j] == ix,
                            decreases emitted@.len() - k,
                        {
                            if emitted[k] == ix {
                                carries = true;
                            }
                            k = k + 1;
                        }
                    },
                    None => {},
                },
                None => {},
            }
        }
        proof {
            assert(carries == carries_defaults(nodes@, sets@, emitted@, p as int));
        }
        let ghost before = out@;
        if carries {
            out.push(p);
        }
        proof {
            lemma_push_contains(before, p);
            assert forall|h: usize| #[trigger] out@.contains(h) <==> (base.contains(h) || ((h as int) < p + 1 && carries_defaults(nodes@, sets@, emitted@, h as int))) by {
                if carries {
                    assert(out@ == before.push(p));
                }
            }
        }
        p = p + 1;
    }
    out
}

// ------------------------------------------------------------- gathering the switches onto their tables

/// Every switch of the file, by its node's position and its index among
/// that node's switches, in order, for the first `upto` nodes.
pub open spec fn switch_positions(reads: Seq<InteractionsView>, upto: int) -> Seq<(usize, usize)>
    decreases upto,
{
    if upto <= 0 {
        seq![]
    } else {
        switch_positions(reads, upto - 1) + Seq::new(
            reads[upto - 1].switches.len(),
            |k: int| ((upto - 1) as usize, k as usize),
        )
    }
}

/// The set a switch's destination belongs to and the host it lands at, if
/// it lands at one.
pub open spec fn target(nodes: Seq<Walked>, reads: Seq<InteractionsView>, sets: Seq<SetEntry>, p: (usize, usize)) -> Option<
    (int, usize),
> {
    let sw = reads[p.0 as int].switches[p.1 as int];
    match set_index(sets, sw.destination) {
        None => None,
        Some(ix) => match hosting_along(nodes, hosts(nodes, p.0), strings_view(sets[ix].members@)) {
            Hosting::LandsAt(h) => Some((ix, h)),
            _ => None,
        },
    }
}

/// The switches of `ps` a member root of set `ix` carries as the set's
/// default table, in order.
pub open spec fn to_default(nodes: Seq<Walked>, reads: Seq<InteractionsView>, sets: Seq<SetEntry>, ps: Seq<(usize, usize)>, ix: int) -> Seq<
    (usize, usize),
>
    decreases ps.len(),
{
    if ps.len() == 0 {
        seq![]
    } else {
        to_default(nodes, reads, sets, ps.drop_last(), ix) + match target(nodes, reads, sets, ps.last()) {
            Some((i, h)) => if i == ix && is_definition(*nodes[h as int].node) {
                seq![ps.last()]
            } else {
                seq![]
            },
            None => seq![],
        }
    }
}

/// The switches of `ps` the instance at `h` carries in its own table, in
/// order.
pub open spec fn to_instance(nodes: Seq<Walked>, reads: Seq<InteractionsView>, sets: Seq<SetEntry>, ps: Seq<(usize, usize)>, h: usize) -> Seq<
    (usize, usize),
>
    decreases ps.len(),
{
    if ps.len() == 0 {
        seq![]
    } else {
        to_instance(nodes, reads, sets, ps.drop_last(), h) + match target(nodes, reads, sets, ps.last()) {
            Some((_, h2)) => if h2 == h && !is_definition(*nodes[h as int].node) {
                seq![ps.last()]
            } else {
                seq![]
            },
            None => seq![],
        }
    }
}

/// Whether the switch at `p` lands in set `ix` and declares a transition.
pub open spec fn animates_into(nodes: Seq<Walked>, reads: Seq<InteractionsView>, sets: Seq<SetEntry>, p: (usize, usize), ix: int) -> bool {
    match target(nodes, reads, sets, p) {
        Some((i, _)) => i == ix && reads[p.0 as int].switches[p.1 as int].tween is Some,
        None => false,
    }
}

/// Whether some switch of `ps` into set `ix` lands and declares a
/// transition.
pub open spec fn animates(nodes: Seq<Walked>, reads: Seq<InteractionsView>, sets: Seq<SetEntry>, ps: Seq<(usize, usize)>, ix: int) -> bool {
    exists|j: int| 0 <= j < ps.len() && #[trigger] animates_into(nodes, reads, sets, ps[j], ix)
}

/// The switches gathered onto the tables that carry their transitions:
/// each set's default table, each instance's own, and whether anything
/// that reaches a set declares a transition into it.
pub struct Gathered {
    pub set_default: Vec<Vec<(usize, usize)>>,
    pub instance_own: Vec<Vec<(usize, usize)>>,
    pub animates: Vec<bool>,
}

pub open spec fn reads_view(reads: Seq<Interactions>) -> Seq<InteractionsView> {
    reads.map_values(|r: Interactions| r@)
}

/// Every switch of the file (`reads` runs parallel to `nodes`), gathered
/// onto the host whose table carries it: a switch into a set travelling
/// through a member root joins that set's default table, one travelling
/// through an instance that instance's own. A switch landing nowhere joins
/// none.
#[verifier::spinoff_prover]
pub fn gather(nodes: &Vec<Walked>, reads: &Vec<Interactions>, sets: &Vec<SetEntry>) -> (g: Gathered)
    requires
        parents_precede(nodes@),
        reads@.len() == nodes@.len(),
    ensures
        g.set_default@.len() == sets@.len(),
        g.instance_own@.len() == nodes@.len(),
        g.animates@.len() == sets@.len(),
        forall|ix: int| 0 <= ix < sets@.len() ==> (#[trigger] g.set_default@[ix])@ == to_default(
                nodes@,
                reads_view(reads@),
                sets@,
                switch_positions(reads_view(reads@), nodes@.len() as int),
                ix,
            ),
        forall|ix: int| 0 <= ix < sets@.len() ==> #[trigger] g.animates@[ix] == animates(
                nodes@,
                reads_view(reads@),
                sets@,
                switch_positions(reads_view(reads@), nodes@.len() as int),
                ix,
            ),
        forall|h: usize|
            (h as int) < nodes@.len() ==> (#[trigger] g.instance_own@[h as int])@ == to_instance(
                nodes@,
                reads_view(reads@),
                sets@,
                switch_positions(reads_view(reads@), nodes@.len() as int),
                h,
            ),
{
    let ghost rv = reads_view(reads@);
    let mut set_default: Vec<Vec<(usize, usize)>> = Vec::new();
    let mut anim: Vec<bool> = Vec::new();
    let mut i: usize = 0;
    while i < sets.len()
        invariant
            i <= sets@.len(),
            set_default@.len() == i,
            anim@.len() == i,
            forall|ix: int| 0 <= ix < i ==> (#[trigger] set_default@[ix])@ == Seq::<(usize, usize)>::empty(),
            forall|ix: int| 0 <= ix < i ==> !(#[trigger] anim@[ix]),
        decreases sets@.len() - i,
    {
        set_default.push(Vec::new());
        anim.push(false);
        i = i + 1;
    }
    let mut instance_own: Vec<Vec<(usize, usize)>> = Vec::new();
    let mut i: usize = 0;
    while i < nodes.len()
        invariant
            i <= nodes@.len(),
            instance_own@.len() == i,
            forall|h: int| 0 <= h < i ==> (#[trigger] instance_own@[h])@ == Seq::<(usize, usize)>::empty(),
            set_default@.len() == sets@.len(),
            anim@.len() == sets@.len(),
            forall|ix: int| 0 <= ix < sets@.len() ==> (#[trigger] set_default@[ix])@ == Seq::<(usize, usize)>::empty(),
            forall|ix: int| 0 <= ix < sets@.len() ==> !(#[trigger] anim@[ix]),
        decreases nodes@.len() - i,
    {
        instance_own.push(Vec::new());
        i = i + 1;
    }
    let mut at: usize = 0;
    proof {
        assert(switch_positions(rv, 0) =~= Seq::<(usize, usize)>::empty());
        assert forall|ix: int| 0 <= ix < sets@.len() implies (#[trigger] set_default@[ix])@ == to_default(
            nodes@,
            rv,
            sets@,
            switch_positions(rv, 0),
            ix,
        ) by {
            assert(to_default(nodes@, rv, sets@, Seq::<(usize, usize)>::empty(), ix) =~= Seq::<(usize, usize)>::empty());
        }
        assert forall|ix: int| 0 <= ix < sets@.len() implies #[trigger] anim@[ix] == animates(nodes@, rv, sets@, switch_positions(rv, 0), ix) by {
            assert(!animates(nodes@, rv, sets@, Seq::<(usize, usize)>::empty(), ix));
        }
        assert forall|h: usize| (h as int) < nodes@.len() implies (#[trigger] instance_own@[h as int])@ == to_instance(
            nodes@,
            rv,
            sets@,
            switch_positions(rv, 0),
            h,
        ) by {
            assert(to_instance(nodes@, rv, sets@, Seq::<(usize, usize)>::empty(), h) =~= Seq::<(usize, usize)>::empty());
        }
    }
    while at < nodes.len()
        invariant
            parents_precede(nodes@),
            reads@.len() == nodes@.len(),
            rv == reads_view(reads@),
            at <= nodes@.len(),
            set_default@.len() == sets@.len(),
            anim@.len() == sets@.len(),
            instance_own@.len() == nodes@.len(),
            forall|ix: int| 0 <= ix < sets@.len() ==> (#[trigger] set_default@[ix])@ == to_default(
                    nodes@,
                    rv,
                    sets@,
                    switch_positions(rv, at as int),
                    ix,
                ),
        forall|ix: int| 0 <= ix < sets@.len() ==> #[trigger] anim@[ix] == animates(nodes@, rv, sets@, switch_positions(rv, at as int), ix),
            forall|h: usize|
                (h as int) < nodes@.len() ==> (#[trigger] instance_own@[h as int])@ == to_instance(
                    nodes@,
                    rv,
                    sets@,
                    switch_positions(rv, at as int),
                    h,
                ),
        decreases nodes@.len() - at,
    {
        let switches = &reads[at].switches;
        let ghost base = switch_positions(rv, at as int);
        let ghost here = Seq::new(rv[at as int].switches.len(), |k: int| (at, k as usize));
        proof {
            assert(rv[at as int] == reads@[at as int]@);
            assert(switch_positions(rv, at + 1) == base + here);
            assert(base + here.take(0) =~= base);
        }
        let mut k: usize = 0;
        while k < switches.len()
            invariant
                parents_precede(nodes@),
                at < nodes@.len(),
                reads@.len() == nodes@.len(),
                rv == reads_view(reads@),
                *switches == reads@[at as int].switches,
                rv[at as int].switches.len() == switches@.len(),
                here == Seq::new(rv[at as int].switches.len(), |k: int| (at, k as usize)),
                k <= switches@.len(),
                set_default@.len() == sets@.len(),
                anim@.len() == sets@.len(),
                instance_own@.len() == nodes@.len(),
                forall|ix: int| 0 <= ix < sets@.len() ==> (#[trigger] set_default@[ix])@ == to_default(
                        nodes@,
                        rv,
                        sets@,
                        base + here.take(k as int),
                        ix,
                    ),
        forall|ix: int| 0 <= ix < sets@.len() ==> #[trigger] anim@[ix] == animates(nodes@, rv, sets@, base + here.take(k as int), ix),
                forall|h: usize|
                    (h as int) < nodes@.len() ==> (#[trigger] instance_own@[h as int])@ == to_instance(
                        nodes@,
                        rv,
                        sets@,
                        base + here.take(k as int),
                        h,
                    ),
            decreases switches@.len() - k,
        {
            let ghost ps = base + here.take(k as int);
            let ghost ps1 = base + here.take(k + 1);
            let ghost p = (at, k);
            proof {
                assert(ps1 =~= ps.push(p));
                assert(ps1.drop_last() =~= ps);
                assert(here[k as int] == p);
                assert(rv[at as int] == reads@[at as int]@);
                assert(rv[at as int].switches[k as int] == switches@[k as int]@);
                lemma_gather_push(nodes@, rv, sets@, ps, p);
            }
            let sw = &switches[k];
            gather_one(nodes, sets, at, k, sw, &mut set_default, &mut instance_own, &mut anim, Ghost(rv), Ghost(ps));
            k = k + 1;
        }
        proof {
            assert(here.take(k as int) =~= here);
        }
        at = at + 1;
    }
    Gathered { set_default, instance_own, animates: anim }
}

/// Gathers the switch `sw`, the `k`th of the node at `at`, onto the table
/// of the host it lands at, given the tables gathered from `ps`.
#[verifier::rlimit(30)]
#[verifier::spinoff_prover]
fn gather_one(
    nodes: &Vec<Walked>,
    sets: &Vec<SetEntry>,
    at: usize,
    k: usize,
    sw: &Switch,
    set_default: &mut Vec<Vec<(usize, usize)>>,
    instance_own: &mut Vec<Vec<(usize, usize)>>,
    anim: &mut Vec<bool>,
    Ghost(rv): Ghost<Seq<InteractionsView>>,
    Ghost(ps): Ghost<Seq<(usize, usize)>>,
)
    requires
        parents_precede(nodes@),
        at < nodes@.len(),
        at < rv.len(),
        k < rv[at as int].switches.len(),
        rv[at as int].switches[k as int] == sw@,
        old(set_default)@.len() == sets@.len(),
        old(anim)@.len() == sets@.len(),
        old(instance_own)@.len() == nodes@.len(),
        forall|ix: int| 0 <= ix < sets@.len() ==> (#[trigger] old(set_default)@[ix])@ == to_default(nodes@, rv, sets@, ps, ix),
        forall|ix: int| 0 <= ix < sets@.len() ==> #[trigger] old(anim)@[ix] == animates(nodes@, rv, sets@, ps, ix),
        forall|h: usize|
            (h as int) < nodes@.len() ==> (#[trigger] old(instance_own)@[h as int])@ == to_instance(nodes@, rv, sets@, ps, h),
    ensures
        final(set_default)@.len() == sets@.len(),
        final(anim)@.len() == sets@.len(),
        final(instance_own)@.len() == nodes@.len(),
        forall|ix: int|
            0 <= ix < sets@.len() ==> (#[trigger] final(set_default)@[ix])@ == to_default(
                nodes@,
                rv,
                sets@,
                ps.push((at, k)),
                ix,
            ),
        forall|ix: int| 0 <= ix < sets@.len() ==> #[trigger] final(anim)@[ix] == animates(nodes@, rv, sets@, ps.push((at, k)), ix),
        forall|h: usize|
            (h as int) < nodes@.len() ==> (#[trigger] final(instance_own)@[h as int])@ == to_instance(
                nodes@,
                rv,
                sets@,
                ps.push((at, k)),
                h,
            ),
{
    let ghost p = (at, k);
    let ghost ps1 = ps.push(p);
    proof {
        lemma_gather_push(nodes@, rv, sets@, ps, p);
    }
    let landed = match set_of(sets, &sw.destination) {
        None => None,
        Some(ix) => {
            proof {
                lemma_set_index_in_range(sets@, sw.destination@);
            }
            match hosting(nodes, at, &sets[ix].members) {
                Hosting::LandsAt(h) => Some((ix, h)),
                _ => None,
            }
        },
    };
    proof {
        match landed {
            Some((ix, h)) => assert(target(nodes@, rv, sets@, p) == Some((ix as int, h))),
            None => assert(target(nodes@, rv, sets@, p) is None),
        }
        lemma_hosts_in_range(nodes@, at);
    }
    match landed {
        None => {
            proof {
                assert forall|ix: int| 0 <= ix < sets@.len() implies #[trigger] anim@[ix] == animates(nodes@, rv, sets@, ps1, ix) by {
                    lemma_animates_push(nodes@, rv, sets@, ps, p, ix);
                    assert(anim@[ix] == animates(nodes@, rv, sets@, ps, ix));
                }
                assert forall|ix: int| 0 <= ix < sets@.len() implies (#[trigger] set_default@[ix])@ == to_default(nodes@, rv, sets@, ps1, ix) by {
                    assert(to_default(nodes@, rv, sets@, ps1, ix) =~= to_default(nodes@, rv, sets@, ps, ix));
                }
                assert forall|h: usize| (h as int) < nodes@.len() implies (#[trigger] instance_own@[h as int])@ == to_instance(nodes@, rv, sets@, ps1, h) by {
                    assert(to_instance(nodes@, rv, sets@, ps1, h) =~= to_instance(nodes@, rv, sets@, ps, h));
                }
            }
        },
        Some((ix, h)) => {
            proof {
                a_switch_lands_on_a_member_host(nodes@, at, strings_view(sets@[ix as int].members@));
                let k2 = choose|k2: int| 0 <= k2 < hosts(nodes@, at).len() && hosts(nodes@, at)[k2] == h;
                assert((h as int) < nodes@.len());
                assert forall|ix2: int| 0 <= ix2 < sets@.len() implies animates(nodes@, rv, sets@, ps1, ix2) == (animates(nodes@, rv, sets@, ps, ix2) || (ix2 == ix && sw.tween is Some)) by {
                    lemma_animates_push(nodes@, rv, sets@, ps, p, ix2);
                }
            }
            let ghost an0 = anim@;
            if sw.tween.is_some() {
                anim.set(ix, true);
            }
            proof {
                assert forall|ix2: int| 0 <= ix2 < sets@.len() implies #[trigger] anim@[ix2] == animates(nodes@, rv, sets@, ps1, ix2) by {
                    assert(an0[ix2] == animates(nodes@, rv, sets@, ps, ix2));
                    if ix2 != ix {
                        assert(anim@[ix2] == an0[ix2]);
                    }
                }
            }
            let host_node = nodes[h].node;
            if str_eq(host_node.kind.as_str(), "COMPONENT") || str_eq(host_node.kind.as_str(), "COMPONENT_SET") {
                let ghost sd0 = set_default@;
                let mut list: Vec<(usize, usize)> = Vec::new();
                set_default.set_and_swap(ix, &mut list);
                let ghost before = list@;
                list.push((at, k));
                set_default.set_and_swap(ix, &mut list);
                proof {
                    assert(set_default@[ix as int]@ == before.push(p));
                    assert forall|ix2: int| 0 <= ix2 < sets@.len() implies (#[trigger] set_default@[ix2])@ == to_default(nodes@, rv, sets@, ps1, ix2) by {
                        if ix2 == ix {
                            assert(to_default(nodes@, rv, sets@, ps1, ix2) =~= to_default(nodes@, rv, sets@, ps, ix2).push(p));
                        } else {
                            assert(set_default@[ix2] == sd0[ix2]);
                            assert(to_default(nodes@, rv, sets@, ps1, ix2) =~= to_default(nodes@, rv, sets@, ps, ix2));
                        }
                    }
                    assert forall|h2: usize| (h2 as int) < nodes@.len() implies (#[trigger] instance_own@[h2 as int])@ == to_instance(nodes@, rv, sets@, ps1, h2) by {
                        assert(to_instance(nodes@, rv, sets@, ps1, h2) =~= to_instance(nodes@, rv, sets@, ps, h2));
                    }
                }
            } else {
                let ghost io0 = instance_own@;
                let mut list: Vec<(usize, usize)> = Vec::new();
                instance_own.set_and_swap(h, &mut list);
                let ghost before = list@;
                list.push((at, k));
                instance_own.set_and_swap(h, &mut list);
                proof {
                    assert(instance_own@[h as int]@ == before.push(p));
                    assert forall|h2: usize| (h2 as int) < nodes@.len() implies (#[trigger] instance_own@[h2 as int])@ == to_instance(nodes@, rv, sets@, ps1, h2) by {
                        if h2 == h {
                            assert(to_instance(nodes@, rv, sets@, ps1, h2) =~= to_instance(nodes@, rv, sets@, ps, h2).push(p));
                        } else {
                            assert(instance_own@[h2 as int] == io0[h2 as int]);
                            assert(to_instance(nodes@, rv, sets@, ps1, h2) =~= to_instance(nodes@, rv, sets@, ps, h2));
                        }
                    }
                    assert forall|ix2: int| 0 <= ix2 < sets@.len() implies (#[trigger] set_default@[ix2])@ == to_default(nodes@, rv, sets@, ps1, ix2) by {
                        assert(to_default(nodes@, rv, sets@, ps1, ix2) =~= to_default(nodes@, rv, sets@, ps, ix2));
                    }
                }
            }
        },
    }
}

proof fn lemma_gather_push(
    nodes: Seq<Walked>,
    reads: Seq<InteractionsView>,
    sets: Seq<SetEntry>,
    ps: Seq<(usize, usize)>,
    p: (usize, usize),
)
    ensures
        forall|ix: int|
            #[trigger] to_default(nodes, reads, sets, ps.push(p), ix) == to_default(nodes, reads, sets, ps, ix)
                + match target(nodes, reads, sets, p) {
                Some((i, h)) => if i == ix && is_definition(*nodes[h as int].node) {
                    seq![p]
                } else {
                    seq![]
                },
                None => seq![],
            },
        forall|h: usize|
            #[trigger] to_instance(nodes, reads, sets, ps.push(p), h) == to_instance(nodes, reads, sets, ps, h)
                + match target(nodes, reads, sets, p) {
                Some((_, h2)) => if h2 == h && !is_definition(*nodes[h as int].node) {
                    seq![p]
                } else {
                    seq![]
                },
                None => seq![],
            },
{
    assert(ps.push(p).drop_last() =~= ps);
    assert(ps.push(p).last() == p);
}

proof fn lemma_animates_push(
    nodes: Seq<Walked>,
    reads: Seq<InteractionsView>,
    sets: Seq<SetEntry>,
    ps: Seq<(usize, usize)>,
    p: (usize, usize),
    ix: int,
)
    ensures
        animates(nodes, reads, sets, ps.push(p), ix) == (animates(nodes, reads, sets, ps, ix) || animates_into(
            nodes,
            reads,
            sets,
            p,
            ix,
        )),
{
    let ps1 = ps.push(p);
    if animates(nodes, reads, sets, ps, ix) {
        let j = choose|j: int| 0 <= j < ps.len() && #[trigger] animates_into(nodes, reads, sets, ps[j], ix);
        assert(ps1[j] == ps[j]);
    }
    if animates_into(nodes, reads, sets, p, ix) {
        assert(ps1[ps.len() as int] == p);
    }
    if animates(nodes, reads, sets, ps1, ix) {
        let j = choose|j: int| 0 <= j < ps1.len() && #[trigger] animates_into(nodes, reads, sets, ps1[j], ix);
        if j < ps.len() {
            assert(ps[j] == ps1[j]);
        }
    }
}

} // verus!
