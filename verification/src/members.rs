//! How a component set's members line up. Each member's layers are keyed by
//! their name path relative to the member root (`""` for the root, `"bar"`
//! for a child, `"panel/label"` for a grandchild), since names are what join
//! one member's layers to another's. Two layers sharing a path make a member
//! unusable, and members that do not carry the same paths make the set
//! unlowerable: no override adds or removes a layer. An instance joins the
//! member it shows the same way, path by path, onto the document nodes its
//! own layers lowered to.
use vstd::prelude::*;

use crate::bindings::{find_lowered, lowered_from, lowered_view, LoweredNode, LoweredNodeView};
use crate::figma::FigmaNode;
use crate::seqs::{first_match, lemma_first_match_at, lemma_first_match_none};
use crate::text::{lex_lt, push_str, str_eq, str_lt, string_of};

verus! {

/// The key of a child named `name` under the key `key`.
pub open spec fn child_key(key: Seq<char>, name: Seq<char>) -> Seq<char> {
    if key.len() == 0 {
        name
    } else {
        key + "/"@ + name
    }
}

/// A name path as a finding writes it: the root reads as `/`.
pub open spec fn shown_key(key: Seq<char>) -> Seq<char> {
    if key.len() == 0 {
        "/"@
    } else {
        key
    }
}

/// A name path as a finding writes it.
pub fn show(key: &str) -> (s: &str)
    ensures
        s@ == shown_key(key@),
{
    if key.is_empty() {
        "/"
    } else {
        key
    }
}

/// One keyed layer by value: its key, the layer, and the layer its box is
/// relative to.
pub struct KeyedView {
    pub key: Seq<char>,
    pub node: FigmaNode,
    pub parent: Option<FigmaNode>,
}

/// The layers of `n` under `key`, in the order a last-in-first-out walk
/// visits them: each layer before its children, the last child first.
pub open spec fn keyed(n: FigmaNode, parent: Option<FigmaNode>, key: Seq<char>) -> Seq<KeyedView>
    decreases n, 0nat,
{
    seq![KeyedView { key, node: n, parent }] + keyed_forest(n.children@, n, key)
}

/// The layers of the children `cs` of `parent`, keyed under `key`, the last
/// child's first.
pub open spec fn keyed_forest(cs: Seq<FigmaNode>, parent: FigmaNode, key: Seq<char>) -> Seq<KeyedView>
    decreases cs, 1nat,
{
    if cs.len() == 0 {
        seq![]
    } else {
        proof {
            assert(decreases_to!(cs => cs.drop_last()));
        }
        keyed(cs.last(), Some(parent), child_key(key, cs.last().name@)) + keyed_forest(cs.drop_last(), parent, key)
    }
}

/// The keys of `s`, in order.
pub open spec fn keys_of(s: Seq<KeyedView>) -> Seq<Seq<char>> {
    s.map_values(|e: KeyedView| e.key)
}

/// The first position of `keys` holding a key seen before it.
pub open spec fn first_repeat(keys: Seq<Seq<char>>) -> Option<int>
    decreases keys.len(),
{
    if keys.len() == 0 {
        None
    } else {
        match first_repeat(keys.drop_last()) {
            Some(i) => Some(i),
            None => if keys.drop_last().contains(keys.last()) {
                Some(keys.len() - 1)
            } else {
                None
            },
        }
    }
}

/// The refusal of a member whose layers share the name path `key`.
pub open spec fn shared_path_text(root: Seq<char>, key: Seq<char>) -> Seq<char> {
    "two nodes under \""@ + root + "\" share the name path \""@ + key
        + "\", so an override cannot name one of them"@
}

/// A member's keyed layers, or the refusal naming the first path two of its
/// layers share.
pub open spec fn tree_outcome(root: FigmaNode) -> Result<Seq<KeyedView>, Seq<char>> {
    let order = keyed(root, None, seq![]);
    match first_repeat(keys_of(order)) {
        None => Ok(order),
        Some(i) => Err(shared_path_text(root.name@, keys_of(order)[i])),
    }
}

/// One keyed layer: its key, the layer, and the layer its box is relative
/// to.
#[derive(Clone, Debug)]
pub struct TreeEntry<'a> {
    pub key: String,
    pub node: &'a FigmaNode,
    pub parent: Option<&'a FigmaNode>,
}

pub open spec fn entry_view<'a>(e: TreeEntry<'a>) -> KeyedView {
    KeyedView {
        key: e.key@,
        node: *e.node,
        parent: match e.parent {
            Some(p) => Some(*p),
            None => None,
        },
    }
}

pub open spec fn entries_view<'a>(es: Seq<TreeEntry<'a>>) -> Seq<KeyedView> {
    es.map_values(|e: TreeEntry<'a>| entry_view(e))
}

/// The layers still to visit, the top of `stack` first.
pub open spec fn pending_layers<'a>(stack: Seq<TreeEntry<'a>>) -> Seq<KeyedView>
    decreases stack.len(),
{
    if stack.len() == 0 {
        seq![]
    } else {
        keyed(*stack.last().node, entry_view(stack.last()).parent, stack.last().key@) + pending_layers(
            stack.drop_last(),
        )
    }
}

proof fn lemma_first_repeat_none(keys: Seq<Seq<char>>)
    requires
        first_repeat(keys) is None,
    ensures
        forall|i: int, j: int| 0 <= i < j < keys.len() ==> keys[i] != keys[j],
    decreases keys.len(),
{
    if keys.len() > 0 {
        let init = keys.drop_last();
        lemma_first_repeat_none(init);
        assert forall|i: int, j: int| 0 <= i < j < keys.len() implies keys[i] != keys[j] by {
            if j < keys.len() - 1 {
                assert(init[i] == keys[i] && init[j] == keys[j]);
            } else {
                assert(init[i] == keys[i]);
                if keys[i] == keys[j] {
                    assert(init.contains(keys.last()));
                }
            }
        }
    }
}

/// `first_repeat` of a prefix with no repeat, extended by one key.
proof fn lemma_first_repeat_extend(keys: Seq<Seq<char>>, rest: Seq<Seq<char>>)
    requires
        first_repeat(keys.drop_last()) is None,
        keys.len() > 0,
    ensures
        keys.drop_last().contains(keys.last()) ==> first_repeat(keys + rest) == Some(keys.len() - 1),
        !keys.drop_last().contains(keys.last()) ==> first_repeat(keys) is None,
    decreases rest.len(),
{
    if rest.len() > 0 {
        assert((keys + rest).drop_last() =~= keys + rest.drop_last());
        lemma_first_repeat_extend(keys, rest.drop_last());
    } else {
        assert(keys + rest =~= keys);
    }
}

/// Pushes an entry for each child of `node`, first child first, so that
/// the last child is visited next.
fn push_children<'a>(stack: &mut Vec<TreeEntry<'a>>, node: &'a FigmaNode, key: &String)
    ensures
        pending_layers(final(stack)@) == keyed_forest(node.children@, *node, key@) + pending_layers(old(stack)@),
{
    let ghost rest = pending_layers(stack@);
    let mut j: usize = 0;
    proof {
        assert(node.children@.take(0) =~= Seq::<FigmaNode>::empty());
        assert(pending_layers(stack@) =~= keyed_forest(node.children@.take(0), *node, key@) + rest);
    }
    while j < node.children.len()
        invariant
            j <= node.children@.len(),
            pending_layers(stack@) == keyed_forest(node.children@.take(j as int), *node, key@) + rest,
        decreases node.children@.len() - j,
    {
        let child = &node.children[j];
        let child_key = if key.as_str().is_empty() {
            string_of(child.name.as_str())
        } else {
            let mut k = string_of(key.as_str());
            push_str(&mut k, "/");
            push_str(&mut k, child.name.as_str());
            k
        };
        let ghost before = stack@;
        stack.push(TreeEntry { key: child_key, node: child, parent: Some(node) });
        proof {
            let cs = node.children@.take(j + 1);
            assert(cs.drop_last() =~= node.children@.take(j as int));
            assert(cs.last() == *child);
            assert(stack@.drop_last() =~= before);
            assert(pending_layers(stack@) =~= keyed_forest(cs, *node, key@) + rest);
        }
        j = j + 1;
    }
    proof {
        assert(node.children@.take(j as int) =~= node.children@);
    }
}

/// Whether some entry of `out` carries `key`.
fn key_taken<'a>(out: &Vec<TreeEntry<'a>>, key: &String) -> (r: bool)
    ensures
        r == keys_of(entries_view(out@)).contains(key@),
{
    let mut k: usize = 0;
    while k < out.len()
        invariant
            k <= out@.len(),
            forall|m: int| 0 <= m < k ==> keys_of(entries_view(out@))[m] != key@,
        decreases out@.len() - k,
    {
        if str_eq(out[k].key.as_str(), key.as_str()) {
            assert(keys_of(entries_view(out@))[k as int] == key@);
            return true;
        }
        k = k + 1;
    }
    false
}

/// A member's layers keyed by name path, each with the layer its box is
/// relative to, in the order a last-in-first-out walk reaches them; or, when
/// two layers share a path, the refusal naming the first path the walk
/// reaches twice.
pub fn tree_of<'a>(root: &'a FigmaNode) -> (r: Result<Vec<TreeEntry<'a>>, String>)
    ensures
        match tree_outcome(*root) {
            Ok(order) => r matches Ok(es) && entries_view(es@) == order,
            Err(m) => r matches Err(e) && e@ == m,
        },
{
    let ghost order = keyed(*root, None, seq![]);
    let mut stack: Vec<TreeEntry<'a>> = Vec::new();
    stack.push(TreeEntry { key: string_of(""), node: root, parent: None });
    let mut out: Vec<TreeEntry<'a>> = Vec::new();
    proof {
        reveal_strlit("");
        assert(stack@.last().key@ =~= Seq::<char>::empty());
        assert(stack@.drop_last() =~= Seq::<TreeEntry<'a>>::empty());
        assert(pending_layers(stack@.drop_last()) == Seq::<KeyedView>::empty());
        assert(entry_view(stack@.last()).parent == None::<FigmaNode>);
        assert(*stack@.last().node == *root);
        assert(stack@.last().key@ == Seq::<char>::empty());
        assert(pending_layers(stack@) == keyed(*root, None, Seq::<char>::empty()) + Seq::<KeyedView>::empty());
        assert(pending_layers(stack@) =~= order);
        assert(entries_view(out@) + pending_layers(stack@) =~= order);
    }
    while stack.len() > 0
        invariant
            entries_view(out@) + pending_layers(stack@) == order,
            first_repeat(keys_of(entries_view(out@))) is None,
            order == keyed(*root, None, seq![]),
        decreases pending_layers(stack@).len(),
    {
        let ghost before = stack@;
        let entry = stack.pop().unwrap();
        proof {
            assert(stack@ =~= before.drop_last());
            assert(entry == before.last());
        }
        let ghost rest = pending_layers(stack@);
        let ghost done = entries_view(out@);
        let ghost ev = entry_view(entry);
        proof {
            assert(pending_layers(before) == keyed(*entry.node, ev.parent, ev.key) + rest);
            assert(keyed(*entry.node, ev.parent, ev.key) == seq![ev] + keyed_forest(entry.node.children@, *entry.node, ev.key));
        }
        if key_taken(&out, &entry.key) {
            let ghost ks = keys_of(done.push(ev));
            proof {
                assert(ks.drop_last() =~= keys_of(done));
                assert(ks.last() == ev.key);
                let tail = keys_of(keyed_forest(entry.node.children@, *entry.node, ev.key) + rest);
                assert(keys_of(order) =~= ks + tail) by {
                    assert(order =~= done.push(ev) + (keyed_forest(entry.node.children@, *entry.node, ev.key) + rest));
                }
                lemma_first_repeat_extend(ks, tail);
                assert(keys_of(order)[done.len() as int] == ev.key);
            }
            let mut message = string_of("two nodes under \"");
            push_str(&mut message, root.name.as_str());
            push_str(&mut message, "\" share the name path \"");
            push_str(&mut message, entry.key.as_str());
            push_str(&mut message, "\", so an override cannot name one of them");
            return Err(message);
        }
        let node = entry.node;
        let key = string_of(entry.key.as_str());
        out.push(entry);
        proof {
            let ks = keys_of(entries_view(out@));
            assert(entries_view(out@) =~= done.push(ev));
            assert(ks.drop_last() =~= keys_of(done));
            lemma_first_repeat_extend(ks, seq![]);
        }
        push_children(&mut stack, node, &key);
        proof {
            assert(entries_view(out@) + pending_layers(stack@) =~= done.push(ev) + (keyed_forest(
                node.children@,
                *node,
                ev.key,
            ) + rest));
        }
    }
    proof {
        assert(entries_view(out@) =~= order);
    }
    Ok(out)
}

// ------------------------------------------------------------ a set's members

/// The keys of `a` that `b` does not hold, in order.
pub open spec fn missing_from(a: Seq<Seq<char>>, b: Seq<Seq<char>>) -> Seq<Seq<char>>
    decreases a.len(),
{
    if a.len() == 0 {
        seq![]
    } else if b.contains(a.last()) {
        missing_from(a.drop_last(), b)
    } else {
        missing_from(a.drop_last(), b).push(a.last())
    }
}

/// The lesser of `cur` and `k`, lexicographically; `k` when there is no
/// `cur`.
pub open spec fn lesser(cur: Option<Seq<char>>, k: Seq<char>) -> Option<Seq<char>> {
    match cur {
        None => Some(k),
        Some(m) => if lex_lt(k, m) {
            Some(k)
        } else {
            Some(m)
        },
    }
}

/// The least of `cur` and the keys of `ks`.
pub open spec fn least_from(cur: Option<Seq<char>>, ks: Seq<Seq<char>>) -> Option<Seq<char>>
    decreases ks.len(),
{
    if ks.len() == 0 {
        cur
    } else {
        lesser(least_from(cur, ks.drop_last()), ks.last())
    }
}

/// The least path, lexicographically, that one of two members carries and
/// the other does not.
pub open spec fn first_unshared(a: Seq<Seq<char>>, b: Seq<Seq<char>>) -> Option<Seq<char>> {
    least_from(least_from(None, missing_from(a, b)), missing_from(b, a))
}

/// The keys of a member that lowered to a tree.
pub open spec fn member_keys(n: FigmaNode) -> Seq<Seq<char>> {
    keys_of(keyed(n, None, seq![]))
}

/// The first of the first `n` members whose layers share a path, and its
/// refusal.
pub open spec fn failure_upto(ms: Seq<FigmaNode>, n: int) -> Option<(int, Seq<char>)>
    decreases n,
{
    if n <= 0 {
        None
    } else {
        match failure_upto(ms, n - 1) {
            Some(f) => Some(f),
            None => match tree_outcome(ms[n - 1]) {
                Err(m) => Some((n - 1, m)),
                Ok(_) => None,
            },
        }
    }
}

/// The first of the members after the first, among the first `n`, whose
/// paths differ from the first member's, and the least path in which they
/// differ.
pub open spec fn mismatch_upto(ms: Seq<FigmaNode>, n: int) -> Option<(int, Seq<char>)>
    decreases n,
{
    if n <= 1 {
        None
    } else {
        match mismatch_upto(ms, n - 1) {
            Some(f) => Some(f),
            None => match first_unshared(member_keys(ms[0]), member_keys(ms[n - 1])) {
                Some(k) => Some((n - 1, k)),
                None => None,
            },
        }
    }
}

/// The refusal of a set whose members `a` and `b` do not carry the same
/// layers.
pub open spec fn topology_text(a: Seq<char>, b: Seq<char>, key: Seq<char>) -> Seq<char> {
    "member \""@ + a + "\" and member \""@ + b + "\" differ in their child nodes (\""@ + shown_key(key)
        + "\" is in one and not the other), which no variant override can express"@
}

/// The least key that `a`'s entries carry and `b`'s do not, or the other
/// way round.
fn first_unshared_of<'a>(a: &Vec<TreeEntry<'a>>, b: &Vec<TreeEntry<'a>>) -> (r: Option<String>)
    ensures
        match r {
            Some(k) => first_unshared(keys_of(entries_view(a@)), keys_of(entries_view(b@))) == Some(k@),
            None => first_unshared(keys_of(entries_view(a@)), keys_of(entries_view(b@))) is None,
        },
{
    let ghost ka = keys_of(entries_view(a@));
    let ghost kb = keys_of(entries_view(b@));
    let mut best: Option<String> = None;
    let mut i: usize = 0;
    proof {
        assert(ka.take(0) =~= Seq::<Seq<char>>::empty());
    }
    while i < a.len()
        invariant
            i <= a@.len(),
            ka == keys_of(entries_view(a@)),
            kb == keys_of(entries_view(b@)),
            match best {
                Some(k) => least_from(None, missing_from(ka.take(i as int), kb)) == Some(k@),
                None => least_from(None, missing_from(ka.take(i as int), kb)) is None,
            },
        decreases a@.len() - i,
    {
        proof {
            assert(ka.take(i + 1).drop_last() =~= ka.take(i as int));
            assert(ka.take(i + 1).last() == ka[i as int]);
            assert(ka[i as int] == a@[i as int].key@);
        }
        let ghost mi = missing_from(ka.take(i as int), kb);
        proof {
            assert(mi.push(ka[i as int]).drop_last() =~= mi);
        }
        if !key_taken(b, &a[i].key) {
            let replace = match &best {
                None => true,
                Some(m) => str_lt(a[i].key.as_str(), m.as_str()),
            };
            if replace {
                best = Some(string_of(a[i].key.as_str()));
            }
            assert(missing_from(ka.take(i + 1), kb) == mi.push(ka[i as int]));
        } else {
            assert(missing_from(ka.take(i + 1), kb) == mi);
        }
        i = i + 1;
    }
    proof {
        assert(ka.take(i as int) =~= ka);
    }
    let ghost first = least_from(None, missing_from(ka, kb));
    let mut j: usize = 0;
    proof {
        assert(kb.take(0) =~= Seq::<Seq<char>>::empty());
    }
    while j < b.len()
        invariant
            j <= b@.len(),
            ka == keys_of(entries_view(a@)),
            kb == keys_of(entries_view(b@)),
            first == least_from(None, missing_from(ka, kb)),
            match best {
                Some(k) => least_from(first, missing_from(kb.take(j as int), ka)) == Some(k@),
                None => least_from(first, missing_from(kb.take(j as int), ka)) is None,
            },
        decreases b@.len() - j,
    {
        proof {
            assert(kb.take(j + 1).drop_last() =~= kb.take(j as int));
            assert(kb.take(j + 1).last() == kb[j as int]);
            assert(kb[j as int] == b@[j as int].key@);
        }
        let ghost mj = missing_from(kb.take(j as int), ka);
        proof {
            assert(mj.push(kb[j as int]).drop_last() =~= mj);
        }
        if !key_taken(a, &b[j].key) {
            let replace = match &best {
                None => true,
                Some(m) => str_lt(b[j].key.as_str(), m.as_str()),
            };
            if replace {
                best = Some(string_of(b[j].key.as_str()));
            }
            assert(missing_from(kb.take(j + 1), ka) == mj.push(kb[j as int]));
        } else {
            assert(missing_from(kb.take(j + 1), ka) == mj);
        }
        j = j + 1;
    }
    proof {
        assert(kb.take(j as int) =~= kb);
    }
    best
}

/// Each member's layers keyed by name path, or why the members cannot make
/// one variant table. A set of fewer than two members has no alternative
/// state and is passed over with nothing to say (`Err(None)`). Otherwise
/// the first member whose layers share a path is refused by name, and then
/// the first member, after the first, whose paths are not the first
/// member's, naming the least path that one of the two carries and the
/// other does not.
pub fn member_trees<'a>(members: &[&'a FigmaNode]) -> (r: Result<Vec<Vec<TreeEntry<'a>>>, Option<String>>)
    ensures
        ({
            let ms = members@.map_values(|m: &FigmaNode| *m);
            if ms.len() < 2 {
                r matches Err(None)
            } else {
                match failure_upto(ms, ms.len() as int) {
                    Some((_, m)) => r matches Err(Some(e)) && e@ == m,
                    None => match mismatch_upto(ms, ms.len() as int) {
                        Some((m, k)) => r matches Err(Some(e)) && e@ == topology_text(ms[0].name@, ms[m].name@, k),
                        None => r matches Ok(ts) && ts@.len() == ms.len() && forall|i: int|
                            0 <= i < ms.len() ==> tree_outcome(ms[i]) == Ok::<Seq<KeyedView>, Seq<char>>(
                                entries_view(#[trigger] ts@[i]@),
                            ),
                    },
                }
            }
        }),
{
    let ghost ms = members@.map_values(|m: &FigmaNode| *m);
    if members.len() < 2 {
        return Err(None);
    }
    let mut trees: Vec<Vec<TreeEntry<'a>>> = Vec::new();
    let mut i: usize = 0;
    while i < members.len()
        invariant
            i <= members@.len(),
            ms == members@.map_values(|m: &FigmaNode| *m),
            ms.len() >= 2,
            trees@.len() == i,
            failure_upto(ms, i as int) is None,
            forall|j: int| 0 <= j < i ==> tree_outcome(ms[j]) == Ok::<Seq<KeyedView>, Seq<char>>(
                entries_view(#[trigger] trees@[j]@),
            ),
        decreases members@.len() - i,
    {
        assert(ms[i as int] == *members@[i as int]);
        match tree_of(members[i]) {
            Ok(t) => {
                trees.push(t);
            },
            Err(m) => {
                proof {
                    lemma_failure_stays(ms, i as int + 1, ms.len() as int);
                }
                return Err(Some(m));
            },
        }
        i = i + 1;
    }
    let mut m: usize = 1;
    while m < trees.len()
        invariant
            1 <= m <= trees@.len(),
            trees@.len() == ms.len(),
            ms.len() >= 2,
            failure_upto(ms, ms.len() as int) is None,
            mismatch_upto(ms, m as int) is None,
            forall|j: int| 0 <= j < ms.len() ==> tree_outcome(ms[j]) == Ok::<Seq<KeyedView>, Seq<char>>(
                entries_view(#[trigger] trees@[j]@),
            ),
            ms == members@.map_values(|m: &FigmaNode| *m),
        decreases trees@.len() - m,
    {
        proof {
            assert(tree_outcome(ms[0]) == Ok::<Seq<KeyedView>, Seq<char>>(entries_view(trees@[0]@)));
            assert(tree_outcome(ms[m as int]) == Ok::<Seq<KeyedView>, Seq<char>>(entries_view(trees@[m as int]@)));
        }
        match first_unshared_of(&trees[0], &trees[m]) {
            Some(k) => {
                proof {
                    lemma_mismatch_stays(ms, m as int + 1, ms.len() as int);
                }
                let mut message = string_of("member \"");
                push_str(&mut message, members[0].name.as_str());
                push_str(&mut message, "\" and member \"");
                push_str(&mut message, members[m].name.as_str());
                push_str(&mut message, "\" differ in their child nodes (\"");
                push_str(&mut message, show(k.as_str()));
                push_str(&mut message, "\" is in one and not the other), which no variant override can express");
                return Err(Some(message));
            },
            None => {},
        }
        m = m + 1;
    }
    Ok(trees)
}

proof fn lemma_failure_stays(ms: Seq<FigmaNode>, n: int, upto: int)
    requires
        0 < n <= upto,
        failure_upto(ms, n) is Some,
    ensures
        failure_upto(ms, upto) == failure_upto(ms, n),
    decreases upto - n,
{
    if n < upto {
        lemma_failure_stays(ms, n, upto - 1);
    }
}

proof fn lemma_mismatch_stays(ms: Seq<FigmaNode>, n: int, upto: int)
    requires
        1 < n <= upto,
        mismatch_upto(ms, n) is Some,
    ensures
        mismatch_upto(ms, upto) == mismatch_upto(ms, n),
    decreases upto - n,
{
    if n < upto {
        lemma_mismatch_stays(ms, n, upto - 1);
    }
}

proof fn lemma_least_none(cur: Option<Seq<char>>, ks: Seq<Seq<char>>)
    ensures
        least_from(cur, ks) is None ==> cur is None && ks.len() == 0,
    decreases ks.len(),
{
}

proof fn lemma_missing_empty(a: Seq<Seq<char>>, b: Seq<Seq<char>>)
    requires
        missing_from(a, b).len() == 0,
    ensures
        forall|i: int| 0 <= i < a.len() ==> b.contains(#[trigger] a[i]),
    decreases a.len(),
{
    if a.len() > 0 {
        assert(b.contains(a.last()));
        lemma_missing_empty(a.drop_last(), b);
        assert forall|i: int| 0 <= i < a.len() implies b.contains(#[trigger] a[i]) by {
            if i < a.len() - 1 {
                assert(a.drop_last()[i] == a[i]);
            }
        }
    }
}

proof fn lemma_no_mismatch(ms: Seq<FigmaNode>, n: int, m: int)
    requires
        1 <= m < n,
        mismatch_upto(ms, n) is None,
    ensures
        first_unshared(member_keys(ms[0]), member_keys(ms[m])) is None,
    decreases n,
{
    if m < n - 1 {
        lemma_no_mismatch(ms, n - 1, m);
    }
}

proof fn lemma_no_failure(ms: Seq<FigmaNode>, n: int, m: int)
    requires
        0 <= m < n,
        failure_upto(ms, n) is None,
    ensures
        tree_outcome(ms[m]) is Ok,
    decreases n,
{
    if m < n - 1 {
        lemma_no_failure(ms, n - 1, m);
    }
}

/// A set that gets past the topology check lines its members up exactly:
/// within each member no two layers share a path, and every member carries
/// the same paths as the first.
pub proof fn a_lowerable_set_shares_its_paths(ms: Seq<FigmaNode>)
    requires
        ms.len() >= 2,
        failure_upto(ms, ms.len() as int) is None,
        mismatch_upto(ms, ms.len() as int) is None,
    ensures
        forall|m: int, i: int, j: int|
            0 <= m < ms.len() && 0 <= i < j < member_keys(ms[m]).len() ==> #[trigger] member_keys(ms[m])[i]
                != #[trigger] member_keys(ms[m])[j],
        forall|m: int, k: Seq<char>|
            0 <= m < ms.len() ==> (member_keys(ms[0]).contains(k) <==> #[trigger] member_keys(ms[m]).contains(k)),
{
    assert forall|m: int, i: int, j: int|
        0 <= m < ms.len() && 0 <= i < j < member_keys(ms[m]).len() implies #[trigger] member_keys(ms[m])[i]
            != #[trigger] member_keys(ms[m])[j] by {
        lemma_no_failure(ms, ms.len() as int, m);
        lemma_first_repeat_none(member_keys(ms[m]));
    }
    assert forall|m: int, k: Seq<char>| 0 <= m < ms.len() implies (member_keys(ms[0]).contains(k)
        <==> #[trigger] member_keys(ms[m]).contains(k)) by {
        if m > 0 {
            let a = member_keys(ms[0]);
            let b = member_keys(ms[m]);
            lemma_no_mismatch(ms, ms.len() as int, m);
            lemma_least_none(least_from(None, missing_from(a, b)), missing_from(b, a));
            lemma_least_none(None, missing_from(a, b));
            lemma_missing_empty(a, b);
            lemma_missing_empty(b, a);
            if a.contains(k) {
                let i = choose|i: int| 0 <= i < a.len() && a[i] == k;
                assert(b.contains(a[i]));
            }
            if b.contains(k) {
                let i = choose|i: int| 0 <= i < b.len() && b[i] == k;
                assert(a.contains(b[i]));
            }
        }
    }
}

// ------------------------------------------------------------ an instance

/// Whether a keyed layer carries `key`.
pub open spec fn keyed_as(key: Seq<char>) -> spec_fn(KeyedView) -> bool {
    |e: KeyedView| e.key == key
}

/// The refusal of an instance with no layer at a member's path.
pub open spec fn unmatched_text(key: Seq<char>, member: Seq<char>) -> Seq<char> {
    "the instance has no \""@ + shown_key(key) + "\" to match member \""@ + member + "\""@
}

/// The refusal of an instance whose layer at a path lowered to nothing.
pub open spec fn unlowered_text(key: Seq<char>) -> Seq<char> {
    "the instance's \""@ + shown_key(key) + "\" lowered to no document node"@
}

/// The document index an instance's layer at `key` lowered to, or why
/// there is none: the instance has no layer there, or that layer carries no
/// id a lowered node came from.
pub open spec fn join_of(
    key: Seq<char>,
    member: Seq<char>,
    baked: Seq<KeyedView>,
    lowered: Seq<LoweredNodeView>,
) -> Result<u32, Seq<char>> {
    match first_match(baked, keyed_as(key)) {
        None => Err(unmatched_text(key, member)),
        Some(i) => match baked[i].node.id {
            None => Err(unlowered_text(key)),
            Some(id) => match first_match(lowered, lowered_from(id@)) {
                None => Err(unlowered_text(key)),
                Some(j) => Ok(lowered[j].index),
            },
        },
    }
}

/// The keys of `keys` that do not join, in order.
pub open spec fn unjoined(
    keys: Seq<Seq<char>>,
    member: Seq<char>,
    baked: Seq<KeyedView>,
    lowered: Seq<LoweredNodeView>,
) -> Seq<Seq<char>>
    decreases keys.len(),
{
    if keys.len() == 0 {
        seq![]
    } else if join_of(keys.last(), member, baked, lowered) is Err {
        unjoined(keys.drop_last(), member, baked, lowered).push(keys.last())
    } else {
        unjoined(keys.drop_last(), member, baked, lowered)
    }
}

/// The document index the instance's layer at `key` lowered to, or why
/// there is none, as `join_of` says; an index is one `index_of_id` holds.
pub(crate) fn join_one<'a>(key: &String, member: &str, baked: &Vec<TreeEntry<'a>>, index_of_id: &Vec<LoweredNode>) -> (r: Result<
    u32,
    String,
>)
    ensures
        match join_of(key@, member@, entries_view(baked@), lowered_view(index_of_id@)) {
            Ok(i) => r == Ok::<u32, String>(i),
            Err(m) => r matches Err(e) && e@ == m,
        },
        r matches Ok(i) ==> exists|j: int| 0 <= j < index_of_id@.len() && (#[trigger] index_of_id@[j]).index == i,
{
    let ghost b = entries_view(baked@);
    let mut i: usize = 0;
    while i < baked.len()
        invariant
            i <= baked@.len(),
            b == entries_view(baked@),
            forall|k: int| 0 <= k < i ==> !keyed_as(key@)(#[trigger] b[k]),
        ensures
            i <= baked@.len(),
            b == entries_view(baked@),
            forall|k: int| 0 <= k < i ==> !keyed_as(key@)(#[trigger] b[k]),
            i < baked@.len() ==> baked@[i as int].key@ == key@,
        decreases baked@.len() - i,
    {
        if str_eq(baked[i].key.as_str(), key.as_str()) {
            break;
        }
        i = i + 1;
    }
    if i == baked.len() {
        proof {
            lemma_first_match_none(b, keyed_as(key@));
        }
        let mut m = string_of("the instance has no \"");
        push_str(&mut m, show(key.as_str()));
        push_str(&mut m, "\" to match member \"");
        push_str(&mut m, member);
        push_str(&mut m, "\"");
        return Err(m);
    }
    proof {
        assert(keyed_as(key@)(b[i as int]));
        lemma_first_match_at(b, keyed_as(key@), i as int);
    }
    let found = match &baked[i].node.id {
        Some(id) => find_lowered(index_of_id, id),
        None => None,
    };
    match found {
        Some(j) => Ok(index_of_id[j].index),
        None => {
            let mut m = string_of("the instance's \"");
            push_str(&mut m, show(key.as_str()));
            push_str(&mut m, "\" lowered to no document node");
            Err(m)
        },
    }
}

/// Joins an instance's baked layers to the active member's paths: each
/// path, in the member's order, with the document index the instance's
/// layer there lowered to. When some path does not join, the refusal is
/// the least such path's (in the order the member's paths sort).
pub fn join_instance<'a>(
    member: &Vec<TreeEntry<'a>>,
    member_name: &str,
    baked: &Vec<TreeEntry<'a>>,
    index_of_id: &Vec<LoweredNode>,
) -> (r: Result<Vec<(String, u32)>, String>)
    ensures
        ({
            let keys = keys_of(entries_view(member@));
            let b = entries_view(baked@);
            let l = lowered_view(index_of_id@);
            match least_from(None, unjoined(keys, member_name@, b, l)) {
                Some(k) => r matches Err(e) && join_of(k, member_name@, b, l) == Err::<u32, Seq<char>>(e@),
                None => r matches Ok(js) && js@.len() == keys.len() && forall|i: int|
                    0 <= i < keys.len() ==> (#[trigger] js@[i]).0@ == keys[i] && join_of(keys[i], member_name@, b, l)
                        == Ok::<u32, Seq<char>>(js@[i].1),
            }
        }),
{
    let ghost keys = keys_of(entries_view(member@));
    let ghost b = entries_view(baked@);
    let ghost l = lowered_view(index_of_id@);
    let mut joined: Vec<(String, u32)> = Vec::new();
    let mut worst: Option<(String, String)> = None;
    let mut i: usize = 0;
    proof {
        assert(keys.take(0) =~= Seq::<Seq<char>>::empty());
    }
    while i < member.len()
        invariant
            i <= member@.len(),
            keys == keys_of(entries_view(member@)),
            b == entries_view(baked@),
            l == lowered_view(index_of_id@),
            match worst {
                Some((k, e)) => least_from(None, unjoined(keys.take(i as int), member_name@, b, l)) == Some(k@)
                    && join_of(k@, member_name@, b, l) == Err::<u32, Seq<char>>(e@),
                None => least_from(None, unjoined(keys.take(i as int), member_name@, b, l)) is None,
            },
            worst is None ==> joined@.len() == i && forall|j: int|
                0 <= j < i ==> (#[trigger] joined@[j]).0@ == keys[j] && join_of(keys[j], member_name@, b, l)
                    == Ok::<u32, Seq<char>>(joined@[j].1),
        decreases member@.len() - i,
    {
        let ghost u = unjoined(keys.take(i as int), member_name@, b, l);
        proof {
            assert(keys.take(i + 1).drop_last() =~= keys.take(i as int));
            assert(keys.take(i + 1).last() == keys[i as int]);
            assert(keys[i as int] == member@[i as int].key@);
            assert(u.push(keys[i as int]).drop_last() =~= u);
        }
        let key = &member[i].key;
        match join_one(key, member_name, baked, index_of_id) {
            Ok(index) => {
                if worst.is_none() {
                    joined.push((string_of(key.as_str()), index));
                }
                assert(unjoined(keys.take(i + 1), member_name@, b, l) == u);
            },
            Err(e) => {
                let replace = match &worst {
                    None => true,
                    Some((k, _)) => str_lt(key.as_str(), k.as_str()),
                };
                if replace {
                    worst = Some((string_of(key.as_str()), e));
                }
                assert(unjoined(keys.take(i + 1), member_name@, b, l) == u.push(keys[i as int]));
            },
        }
        i = i + 1;
    }
    proof {
        assert(keys.take(i as int) =~= keys);
    }
    match worst {
        Some((_, e)) => Err(e),
        None => Ok(joined),
    }
}

} // verus!
