//! The pools a document's bytes share entries through: a node's paint, its
//! string and its text style each go into a pool of distinct entries, in the
//! order the nodes first use them, and the node keeps the entry's index.
//! The order is the nodes' own, never a hash map's, so one document always
//! pools the same way.
use vstd::prelude::*;

use crate::document::{Document, Node, Paint, TextAlign, TextAlignV, Color, TextStyle};
use crate::seqs::{first_match, lemma_first_match};
use crate::text::str_eq;

verus! {

/// Interning in first-use order over the keys `ks` (one per node, `None`
/// where the node has nothing to pool): the nodes whose key entered the
/// pool, in order, and for each node the pool index of its key.
pub open spec fn first_uses<K>(ks: Seq<Option<K>>) -> (Seq<int>, Seq<Option<int>>)
    decreases ks.len(),
{
    if ks.len() == 0 {
        (Seq::empty(), Seq::empty())
    } else {
        let (firsts, refs) = first_uses(ks.drop_last());
        match ks.last() {
            None => (firsts, refs.push(None)),
            Some(k) => match first_match(firsts, keyed_as(ks, k)) {
                Some(j) => (firsts, refs.push(Some(j))),
                None => (firsts.push(ks.len() - 1), refs.push(Some(firsts.len() as int))),
            },
        }
    }
}

/// Whether the node at an index has the key `k`.
pub open spec fn keyed_as<K>(ks: Seq<Option<K>>, k: K) -> spec_fn(int) -> bool {
    |f: int| 0 <= f < ks.len() && ks[f] == Some(k)
}

/// A text style's pooling key: every axis it carries.
pub type TextStyleKey = (Seq<char>, u32, u16, Color, Option<u32>, u32, TextAlign, TextAlignV, bool);

pub open spec fn style_key(s: TextStyle) -> TextStyleKey {
    (s.family@, s.size, s.weight, s.color, s.line_height_px, s.letter_spacing, s.text_align, s.text_align_v, s.ligatures_off)
}

pub open spec fn paint_keys(nodes: Seq<Node>) -> Seq<Option<Paint>> {
    nodes.map_values(|n: Node| n.paint)
}

pub open spec fn text_keys(nodes: Seq<Node>) -> Seq<Option<Seq<char>>> {
    nodes.map_values(
        |n: Node|
            match n.text {
                Some(t) => Some(t@),
                None => None,
            },
    )
}

pub open spec fn style_keys(nodes: Seq<Node>) -> Seq<Option<TextStyleKey>> {
    nodes.map_values(
        |n: Node|
            match n.text_style {
                Some(s) => Some(style_key(s)),
                None => None,
            },
    )
}

pub open spec fn ints(s: Seq<u32>) -> Seq<int> {
    s.map_values(|x: u32| x as int)
}

pub open spec fn opt_ints(s: Seq<Option<u32>>) -> Seq<Option<int>> {
    s.map_values(
        |x: Option<u32>|
            match x {
                Some(v) => Some(v as int),
                None => None,
            },
    )
}

/// The three pools of a document: for each, the nodes whose entry entered
/// it, in first-use order, and for each node the index of its entry.
pub struct Pools {
    pub paints: Vec<u32>,
    pub paint_of: Vec<Option<u32>>,
    pub strings: Vec<u32>,
    pub string_of: Vec<Option<u32>>,
    pub styles: Vec<u32>,
    pub style_of: Vec<Option<u32>>,
}

proof fn lemma_first_match_agree(s: Seq<int>, p: spec_fn(int) -> bool, q: spec_fn(int) -> bool)
    requires
        forall|i: int| 0 <= i < s.len() ==> p(#[trigger] s[i]) == q(s[i]),
    ensures
        first_match(s, p) == first_match(s, q),
    decreases s.len(),
{
    if s.len() > 0 {
        lemma_first_match_agree(s.drop_last(), p, q);
        assert(p(s[s.len() - 1]) == q(s[s.len() - 1]));
    }
}

/// One step of `first_uses` on the first `i + 1` keys, read against all of
/// them: the earlier nodes' keys are the same either way.
proof fn lemma_first_uses_step<K>(ks: Seq<Option<K>>, i: int)
    requires
        0 <= i < ks.len(),
        forall|j: int| 0 <= j < first_uses(ks.take(i)).0.len() ==> 0 <= #[trigger] first_uses(ks.take(i)).0[j] < i,
    ensures
        ({
            let (firsts, refs) = first_uses(ks.take(i));
            first_uses(ks.take(i + 1)) == match ks[i] {
                None => (firsts, refs.push(None)),
                Some(k) => match first_match(firsts, keyed_as(ks, k)) {
                    Some(j) => (firsts, refs.push(Some(j))),
                    None => (firsts.push(i), refs.push(Some(firsts.len() as int))),
                },
            }
        }),
{
    let t = ks.take(i + 1);
    assert(t.drop_last() =~= ks.take(i));
    assert(t.last() == ks[i]);
    if let Some(k) = ks[i] {
        let firsts = first_uses(ks.take(i)).0;
        assert forall|j: int| 0 <= j < firsts.len() implies keyed_as(t, k)(#[trigger] firsts[j]) == keyed_as(
            ks,
            k,
        )(firsts[j]) by {
            assert(t[firsts[j]] == ks[firsts[j]]);
        }
        lemma_first_match_agree(firsts, keyed_as(t, k), keyed_as(ks, k));
    }
}

proof fn lemma_firsts_bounded<K>(ks: Seq<Option<K>>)
    ensures
        forall|j: int| 0 <= j < first_uses(ks).0.len() ==> 0 <= #[trigger] first_uses(ks).0[j] < ks.len(),
        first_uses(ks).1.len() == ks.len(),
        first_uses(ks).0.len() <= ks.len(),
    decreases ks.len(),
{
    if ks.len() > 0 {
        lemma_firsts_bounded(ks.drop_last());
    }
}

fn same_paint(a: &Paint, b: &Paint) -> (r: bool)
    ensures
        r == (*a == *b),
{
    let fill = match (a.fill, b.fill) {
        (Some(x), Some(y)) => x == y,
        (None, None) => true,
        _ => false,
    };
    let shape = match (a.shape_field, b.shape_field) {
        (Some(x), Some(y)) => x == y,
        (None, None) => true,
        _ => false,
    };
    fill && a.clip == b.clip && shape
}

fn same_style(a: &TextStyle, b: &TextStyle) -> (r: bool)
    ensures
        r == (style_key(*a) == style_key(*b)),
{
    let line = match (a.line_height_px, b.line_height_px) {
        (Some(x), Some(y)) => x == y,
        (None, None) => true,
        _ => false,
    };
    str_eq(a.family.as_str(), b.family.as_str()) && a.size == b.size && a.weight == b.weight && a.color
        == b.color && line && a.letter_spacing == b.letter_spacing && a.text_align == b.text_align
        && a.text_align_v == b.text_align_v && a.ligatures_off == b.ligatures_off
}

/// The paint pool: distinct paints in first-use order.
fn intern_paints(nodes: &Vec<Node>) -> (out: (Vec<u32>, Vec<Option<u32>>))
    requires
        nodes@.len() <= u32::MAX,
    ensures
        (ints(out.0@), opt_ints(out.1@)) == first_uses(paint_keys(nodes@)),
{
    let ghost ks = paint_keys(nodes@);
    let mut firsts: Vec<u32> = Vec::new();
    let mut refs: Vec<Option<u32>> = Vec::new();
    let mut i: usize = 0;
    proof {
        assert(ks.take(0) =~= Seq::<Option<Paint>>::empty());
        assert(ints(firsts@) =~= Seq::<int>::empty());
        assert(opt_ints(refs@) =~= Seq::<Option<int>>::empty());
    }
    while i < nodes.len()
        invariant
            i <= nodes@.len() <= u32::MAX,
            ks == paint_keys(nodes@),
            (ints(firsts@), opt_ints(refs@)) == first_uses(ks.take(i as int)),
        decreases nodes@.len() - i,
    {
        proof {
            lemma_firsts_bounded(ks.take(i as int));
            lemma_first_uses_step(ks, i as int);
        }
        let ghost f0 = firsts@;
        let ghost r0 = refs@;
        match &nodes[i].paint {
            None => {
                refs.push(None);
            },
            Some(p) => {
                let ghost k = *p;
                assert(ks[i as int] == Some(k));
                let ghost pred = keyed_as(ks, k);
                let mut j: usize = 0;
                let mut found: Option<usize> = None;
                while found.is_none() && j < firsts.len()
                    invariant
                        j <= firsts@.len(),
                        firsts@ == f0,
                        i < nodes@.len(),
                        ks == paint_keys(nodes@),
                        forall|m: int| 0 <= m < f0.len() ==> 0 <= #[trigger] ints(f0)[m] < i,
                        pred == keyed_as(ks, k),
                        k == *p,
                        match found {
                            Some(jj) => jj < f0.len() && pred(ints(f0)[jj as int]) && forall|m: int|
                                0 <= m < jj ==> !pred(#[trigger] ints(f0)[m]),
                            None => forall|m: int| 0 <= m < j ==> !pred(#[trigger] ints(f0)[m]),
                        },
                    decreases f0.len() - j + if found is None {
                        1int
                    } else {
                        0int
                    },
                {
                    let f = firsts[j] as usize;
                    assert(ints(f0)[j as int] == f as int);
                    let hit = match &nodes[f].paint {
                        Some(q) => same_paint(q, p),
                        None => false,
                    };
                    if hit {
                        found = Some(j);
                    } else {
                        j = j + 1;
                    }
                }
                proof {
                    crate::seqs::lemma_first_match(ints(f0), pred);
                    match found {
                        Some(jj) => {
                            crate::seqs::lemma_first_match_at(ints(f0), pred, jj as int);
                        },
                        None => {
                            if let Some(m) = first_match(ints(f0), pred) {
                                assert(!pred(ints(f0)[m]));
                            }
                        },
                    }
                }
                match found {
                    Some(jj) => {
                        refs.push(Some(jj as u32));
                    },
                    None => {
                        refs.push(Some(firsts.len() as u32));
                        firsts.push(i as u32);
                    },
                }
            },
        }
        proof {
            assert(ints(firsts@) =~= first_uses(ks.take(i + 1)).0);
            assert(opt_ints(refs@) =~= first_uses(ks.take(i + 1)).1);
        }
        i = i + 1;
    }
    proof {
        assert(ks.take(i as int) =~= ks);
    }
    (firsts, refs)
}

/// The string pool: distinct texts in first-use order.
fn intern_strings(nodes: &Vec<Node>) -> (out: (Vec<u32>, Vec<Option<u32>>))
    requires
        nodes@.len() <= u32::MAX,
    ensures
        (ints(out.0@), opt_ints(out.1@)) == first_uses(text_keys(nodes@)),
{
    let ghost ks = text_keys(nodes@);
    let mut firsts: Vec<u32> = Vec::new();
    let mut refs: Vec<Option<u32>> = Vec::new();
    let mut i: usize = 0;
    proof {
        assert(ks.take(0) =~= Seq::<Option<Seq<char>>>::empty());
        assert(ints(firsts@) =~= Seq::<int>::empty());
        assert(opt_ints(refs@) =~= Seq::<Option<int>>::empty());
    }
    while i < nodes.len()
        invariant
            i <= nodes@.len() <= u32::MAX,
            ks == text_keys(nodes@),
            (ints(firsts@), opt_ints(refs@)) == first_uses(ks.take(i as int)),
        decreases nodes@.len() - i,
    {
        proof {
            lemma_firsts_bounded(ks.take(i as int));
            lemma_first_uses_step(ks, i as int);
        }
        let ghost f0 = firsts@;
        let ghost r0 = refs@;
        match &nodes[i].text {
            None => {
                refs.push(None);
            },
            Some(p) => {
                let ghost k = p@;
                assert(ks[i as int] == Some(k));
                let ghost pred = keyed_as(ks, k);
                let mut j: usize = 0;
                let mut found: Option<usize> = None;
                while found.is_none() && j < firsts.len()
                    invariant
                        j <= firsts@.len(),
                        firsts@ == f0,
                        i < nodes@.len(),
                        ks == text_keys(nodes@),
                        forall|m: int| 0 <= m < f0.len() ==> 0 <= #[trigger] ints(f0)[m] < i,
                        pred == keyed_as(ks, k),
                        k == p@,
                        match found {
                            Some(jj) => jj < f0.len() && pred(ints(f0)[jj as int]) && forall|m: int|
                                0 <= m < jj ==> !pred(#[trigger] ints(f0)[m]),
                            None => forall|m: int| 0 <= m < j ==> !pred(#[trigger] ints(f0)[m]),
                        },
                    decreases f0.len() - j + if found is None {
                        1int
                    } else {
                        0int
                    },
                {
                    let f = firsts[j] as usize;
                    assert(ints(f0)[j as int] == f as int);
                    let hit = match &nodes[f].text {
                        Some(q) => str_eq(q.as_str(), p.as_str()),
                        None => false,
                    };
                    if hit {
                        found = Some(j);
                    } else {
                        j = j + 1;
                    }
                }
                proof {
                    crate::seqs::lemma_first_match(ints(f0), pred);
                    match found {
                        Some(jj) => {
                            crate::seqs::lemma_first_match_at(ints(f0), pred, jj as int);
                        },
                        None => {
                            if let Some(m) = first_match(ints(f0), pred) {
                                assert(!pred(ints(f0)[m]));
                            }
                        },
                    }
                }
                match found {
                    Some(jj) => {
                        refs.push(Some(jj as u32));
                    },
                    None => {
                        refs.push(Some(firsts.len() as u32));
                        firsts.push(i as u32);
                    },
                }
            },
        }
        proof {
            assert(ints(firsts@) =~= first_uses(ks.take(i + 1)).0);
            assert(opt_ints(refs@) =~= first_uses(ks.take(i + 1)).1);
        }
        i = i + 1;
    }
    proof {
        assert(ks.take(i as int) =~= ks);
    }
    (firsts, refs)
}

/// The text-style pool: distinct styles in first-use order.
fn intern_styles(nodes: &Vec<Node>) -> (out: (Vec<u32>, Vec<Option<u32>>))
    requires
        nodes@.len() <= u32::MAX,
    ensures
        (ints(out.0@), opt_ints(out.1@)) == first_uses(style_keys(nodes@)),
{
    let ghost ks = style_keys(nodes@);
    let mut firsts: Vec<u32> = Vec::new();
    let mut refs: Vec<Option<u32>> = Vec::new();
    let mut i: usize = 0;
    proof {
        assert(ks.take(0) =~= Seq::<Option<TextStyleKey>>::empty());
        assert(ints(firsts@) =~= Seq::<int>::empty());
        assert(opt_ints(refs@) =~= Seq::<Option<int>>::empty());
    }
    while i < nodes.len()
        invariant
            i <= nodes@.len() <= u32::MAX,
            ks == style_keys(nodes@),
            (ints(firsts@), opt_ints(refs@)) == first_uses(ks.take(i as int)),
        decreases nodes@.len() - i,
    {
        proof {
            lemma_firsts_bounded(ks.take(i as int));
            lemma_first_uses_step(ks, i as int);
        }
        let ghost f0 = firsts@;
        let ghost r0 = refs@;
        match &nodes[i].text_style {
            None => {
                refs.push(None);
            },
            Some(p) => {
                let ghost k = style_key(*p);
                assert(ks[i as int] == Some(k));
                let ghost pred = keyed_as(ks, k);
                let mut j: usize = 0;
                let mut found: Option<usize> = None;
                while found.is_none() && j < firsts.len()
                    invariant
                        j <= firsts@.len(),
                        firsts@ == f0,
                        i < nodes@.len(),
                        ks == style_keys(nodes@),
                        forall|m: int| 0 <= m < f0.len() ==> 0 <= #[trigger] ints(f0)[m] < i,
                        pred == keyed_as(ks, k),
                        k == style_key(*p),
                        match found {
                            Some(jj) => jj < f0.len() && pred(ints(f0)[jj as int]) && forall|m: int|
                                0 <= m < jj ==> !pred(#[trigger] ints(f0)[m]),
                            None => forall|m: int| 0 <= m < j ==> !pred(#[trigger] ints(f0)[m]),
                        },
                    decreases f0.len() - j + if found is None {
                        1int
                    } else {
                        0int
                    },
                {
                    let f = firsts[j] as usize;
                    assert(ints(f0)[j as int] == f as int);
                    let hit = match &nodes[f].text_style {
                        Some(q) => same_style(q, p),
                        None => false,
                    };
                    if hit {
                        found = Some(j);
                    } else {
                        j = j + 1;
                    }
                }
                proof {
                    crate::seqs::lemma_first_match(ints(f0), pred);
                    match found {
                        Some(jj) => {
                            crate::seqs::lemma_first_match_at(ints(f0), pred, jj as int);
                        },
                        None => {
                            if let Some(m) = first_match(ints(f0), pred) {
                                assert(!pred(ints(f0)[m]));
                            }
                        },
                    }
                }
                match found {
                    Some(jj) => {
                        refs.push(Some(jj as u32));
                    },
                    None => {
                        refs.push(Some(firsts.len() as u32));
                        firsts.push(i as u32);
                    },
                }
            },
        }
        proof {
            assert(ints(firsts@) =~= first_uses(ks.take(i + 1)).0);
            assert(opt_ints(refs@) =~= first_uses(ks.take(i + 1)).1);
        }
        i = i + 1;
    }
    proof {
        assert(ks.take(i as int) =~= ks);
    }
    (firsts, refs)
}

/// The document's three pools, each in the order its nodes first use an
/// entry: a node with a paint, a string or a style refers to the first
/// entry equal to it, and a pool holds no entry twice.
pub fn pools(doc: &Document) -> (p: Pools)
    requires
        doc.nodes@.len() <= u32::MAX,
    ensures
        (ints(p.paints@), opt_ints(p.paint_of@)) == first_uses(paint_keys(doc.nodes@)),
        (ints(p.strings@), opt_ints(p.string_of@)) == first_uses(text_keys(doc.nodes@)),
        (ints(p.styles@), opt_ints(p.style_of@)) == first_uses(style_keys(doc.nodes@)),
{
    let (paints, paint_of) = intern_paints(&doc.nodes);
    let (strings, string_of) = intern_strings(&doc.nodes);
    let (styles, style_of) = intern_styles(&doc.nodes);
    Pools { paints, paint_of, strings, string_of, styles, style_of }
}

/// Interning in first-use order keeps every entry once and loses none:
/// each pooled node is the first with its key, the pool is in node order
/// and holds no key twice, and every node with a key refers to the entry
/// with that key, every node without one to none.
pub proof fn first_uses_interns<K>(ks: Seq<Option<K>>)
    ensures
        ({
            let (firsts, refs) = first_uses(ks);
            &&& refs.len() == ks.len()
            &&& forall|i: int| 0 <= i < ks.len() ==> match #[trigger] ks[i] {
                None => refs[i] is None,
                Some(k) => refs[i] matches Some(j) && 0 <= j < firsts.len() && ks[firsts[j]] == Some(k),
            }
            &&& forall|a: int, b: int| 0 <= a < b < firsts.len() ==> #[trigger] firsts[a] < #[trigger] firsts[b]
            &&& forall|j: int|
                0 <= j < firsts.len() ==> 0 <= #[trigger] firsts[j] < ks.len() && ks[firsts[j]] is Some && forall|
                    m: int,
                | 0 <= m < firsts[j] ==> #[trigger] ks[m] != ks[firsts[j]]
        }),
    decreases ks.len(),
{
    lemma_firsts_bounded(ks);
    if ks.len() > 0 {
        let init = ks.drop_last();
        first_uses_interns(init);
        lemma_firsts_bounded(init);
        let (firsts, refs) = first_uses(init);
        let (nf, nr) = first_uses(ks);
        let n = ks.len() - 1;
        assert forall|i: int| 0 <= i < n implies ks[i] == #[trigger] init[i] by {}
        match ks.last() {
            None => {
                assert forall|i: int| 0 <= i < ks.len() implies match #[trigger] ks[i] {
                    None => nr[i] is None,
                    Some(k) => nr[i] matches Some(j) && 0 <= j < nf.len() && ks[nf[j]] == Some(k),
                } by {
                    if i < n {
                        assert(init[i] == ks[i]);
                    }
                }
                assert forall|j: int| 0 <= j < nf.len() implies 0 <= #[trigger] nf[j] < ks.len() && ks[nf[j]] is Some
                    && forall|m: int| 0 <= m < nf[j] ==> #[trigger] ks[m] != ks[nf[j]] by {
                    assert(init[nf[j]] == ks[nf[j]]);
                    assert forall|m: int| 0 <= m < nf[j] implies #[trigger] ks[m] != ks[nf[j]] by {
                        assert(init[m] == ks[m]);
                    }
                }
            },
            Some(k) => {
                let pred = keyed_as(ks, k);
                lemma_first_match(firsts, pred);
                assert forall|j: int| 0 <= j < firsts.len() implies (#[trigger] firsts[j]) < n by {}
                match first_match(firsts, pred) {
                    Some(jj) => {
                        assert forall|i: int| 0 <= i < ks.len() implies match #[trigger] ks[i] {
                            None => nr[i] is None,
                            Some(k2) => nr[i] matches Some(j) && 0 <= j < nf.len() && ks[nf[j]] == Some(k2),
                        } by {
                            if i < n {
                                assert(init[i] == ks[i]);
                                if let Some(j) = refs[i] {
                                    if 0 <= j < firsts.len() {
                                        assert(init[firsts[j]] == ks[firsts[j]]);
                                    }
                                }
                            }
                        }
                        assert forall|j: int| 0 <= j < nf.len() implies 0 <= #[trigger] nf[j] < ks.len() && ks[nf[j]] is Some
                            && forall|m: int| 0 <= m < nf[j] ==> #[trigger] ks[m] != ks[nf[j]] by {
                            assert(init[nf[j]] == ks[nf[j]]);
                            assert forall|m: int| 0 <= m < nf[j] implies #[trigger] ks[m] != ks[nf[j]] by {
                                assert(init[m] == ks[m]);
                            }
                        }
                    },
                    None => {
                        assert(nf == firsts.push(n));
                        assert forall|i: int| 0 <= i < ks.len() implies match #[trigger] ks[i] {
                            None => nr[i] is None,
                            Some(k2) => nr[i] matches Some(j) && 0 <= j < nf.len() && ks[nf[j]] == Some(k2),
                        } by {
                            if i < n {
                                assert(init[i] == ks[i]);
                                if let Some(j) = refs[i] {
                                    if 0 <= j < firsts.len() {
                                        assert(init[firsts[j]] == ks[firsts[j]]);
                                        assert(nf[j] == firsts[j]);
                                    }
                                }
                            } else {
                                assert(nf[firsts.len() as int] == n);
                            }
                        }
                        assert forall|a: int, b: int| 0 <= a < b < nf.len() implies #[trigger] nf[a] < #[trigger] nf[b] by {
                            if b < firsts.len() {
                                assert(nf[a] == firsts[a] && nf[b] == firsts[b]);
                            } else {
                                assert(nf[a] == firsts[a]);
                            }
                        }
                        assert forall|j: int| 0 <= j < nf.len() implies 0 <= #[trigger] nf[j] < ks.len() && ks[nf[j]] is Some
                            && forall|m: int| 0 <= m < nf[j] ==> #[trigger] ks[m] != ks[nf[j]] by {
                            if j < firsts.len() {
                                assert(nf[j] == firsts[j]);
                                assert(init[firsts[j]] == ks[firsts[j]]);
                                assert forall|m: int| 0 <= m < nf[j] implies #[trigger] ks[m] != ks[nf[j]] by {
                                    assert(init[m] == ks[m]);
                                }
                            } else {
                                assert(nf[j] == n);
                                assert forall|m: int| 0 <= m < n implies #[trigger] ks[m] != ks[n] by {
                                    if ks[m] == ks[n] {
                                        assert(init[m] == ks[m]);
                                        let r = refs[m];
                                        assert(init[m] == Some(k));
                                        let j2 = r->0;
                                        assert(0 <= j2 < firsts.len() && init[firsts[j2]] == Some(k));
                                        assert(init[firsts[j2]] == ks[firsts[j2]]);
                                        assert(pred(firsts[j2]));
                                    }
                                }
                            }
                        }
                    },
                }
            },
        }
    }
}

} // verus!
