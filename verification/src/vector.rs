//! Vector paths as the field generator reads them: the winding rule, the
//! refusals it names, and the SVG path-data tokenizer (command letters and
//! number tokens, separated by whitespace and commas).
use vstd::prelude::*;
use vstd::string::StringSliceAdditionalSpecFns;

use crate::text::{push_str, string_of};

verus! {

/// The winding rule a Figma `fillGeometry` entry carries.
#[derive(Clone, Copy, Debug, PartialEq, Eq, Structural)]
pub enum WindingRule {
    NonZero,
    EvenOdd,
}

/// A vector path to bake: SVG path data plus its winding rule.
#[derive(Clone, Copy, Debug)]
pub struct VectorPath<'a> {
    pub path: &'a str,
    pub winding: WindingRule,
}

/// Everything the generator refuses by name.
#[derive(Clone, Debug)]
pub enum VectorFieldError {
    /// A path command outside the `M`/`L`/`C`/`Z` census vocabulary.
    UnsupportedCommand(char),
    /// Path data that does not parse.
    MalformedPath(String),
    /// Geometry with no fillable extent.
    DegenerateGeometry,
}

pub enum VectorFieldErrorView {
    UnsupportedCommand(char),
    MalformedPath(Seq<char>),
    DegenerateGeometry,
}

impl View for VectorFieldError {
    type V = VectorFieldErrorView;

    open spec fn view(&self) -> VectorFieldErrorView {
        match self {
            VectorFieldError::UnsupportedCommand(c) => VectorFieldErrorView::UnsupportedCommand(*c),
            VectorFieldError::MalformedPath(m) => VectorFieldErrorView::MalformedPath(m@),
            VectorFieldError::DegenerateGeometry => VectorFieldErrorView::DegenerateGeometry,
        }
    }
}

pub open spec fn is_ascii_alphanumeric(c: char) -> bool {
    ('0' <= c && c <= '9') || ('a' <= c && c <= 'z') || ('A' <= c && c <= 'Z')
}

/// How `{:?}` renders a character, a function of the character alone.
pub uninterp spec fn char_debug(c: char) -> Seq<char>;

/// `{:?}` of a character, by its `Debug` impl: the character quoted, with
/// an ASCII letter or digit written as itself.
#[verifier::external_body]
fn debug_char(c: char) -> (s: String)
    ensures
        s@ == char_debug(c),
        is_ascii_alphanumeric(c) ==> s@ == seq!['\'', c, '\''],
{
    format!("{:?}", c)
}

pub open spec fn vector_refusal(e: VectorFieldErrorView) -> Seq<char> {
    match e {
        VectorFieldErrorView::UnsupportedCommand(c) => "a vector path command "@ + char_debug(c)
            + " (census is M/L/C/Z)"@,
        VectorFieldErrorView::MalformedPath(detail) => "a malformed vector path ("@ + detail + ")"@,
        VectorFieldErrorView::DegenerateGeometry => "a degenerate vector (no fillable extent)"@,
    }
}

/// The named-refusal message for a bake error.
pub fn vector_field_blocker(error: &VectorFieldError) -> (s: String)
    ensures
        s@ == vector_refusal(error@),
        match error@ {
            VectorFieldErrorView::UnsupportedCommand(c) => is_ascii_alphanumeric(c) ==> s@ == "a vector path command "@
                + seq!['\'', c, '\''] + " (census is M/L/C/Z)"@,
            _ => true,
        },
{
    match error {
        VectorFieldError::UnsupportedCommand(c) => {
            let mut s = string_of("a vector path command ");
            let d = debug_char(*c);
            push_str(&mut s, d.as_str());
            push_str(&mut s, " (census is M/L/C/Z)");
            s
        },
        VectorFieldError::MalformedPath(detail) => {
            let mut s = string_of("a malformed vector path (");
            push_str(&mut s, detail.as_str());
            push_str(&mut s, ")");
            s
        },
        VectorFieldError::DegenerateGeometry => string_of("a degenerate vector (no fillable extent)"),
    }
}

pub open spec fn is_separator(b: u8) -> bool {
    b == 32u8 || b == 9u8 || b == 10u8 || b == 13u8 || b == 44u8
}

pub open spec fn is_ascii_digit_byte(b: u8) -> bool {
    48u8 <= b && b <= 57u8
}

pub open spec fn is_ascii_alphabetic_byte(b: u8) -> bool {
    (65u8 <= b && b <= 90u8) || (97u8 <= b && b <= 122u8)
}

/// Where separators starting at `pos` end.
pub open spec fn past_separators(bytes: Seq<u8>, pos: int) -> int
    decreases bytes.len() - pos,
{
    if 0 <= pos < bytes.len() && is_separator(bytes[pos]) {
        past_separators(bytes, pos + 1)
    } else {
        pos
    }
}

fn separator(b: u8) -> (r: bool)
    ensures
        r == is_separator(b),
{
    b == 32u8 || b == 9u8 || b == 10u8 || b == 13u8 || b == 44u8
}

/// Where a number token's digits, one dot before any exponent, and one
/// signed exponent end, from `pos`.
pub open spec fn number_end(bytes: Seq<u8>, pos: int, seen_dot: bool, seen_exp: bool) -> int
    decreases bytes.len() - pos,
{
    if pos < 0 || pos >= bytes.len() {
        pos
    } else {
        let b = bytes[pos];
        if is_ascii_digit_byte(b) {
            number_end(bytes, pos + 1, seen_dot, seen_exp)
        } else if b == 46u8 && !seen_dot && !seen_exp {
            number_end(bytes, pos + 1, true, seen_exp)
        } else if (b == 101u8 || b == 69u8) && !seen_exp {
            let q = if pos + 1 < bytes.len() && (bytes[pos + 1] == 45u8 || bytes[pos + 1] == 43u8) {
                pos + 2
            } else {
                pos + 1
            };
            number_end(bytes, q, seen_dot, true)
        } else {
            pos
        }
    }
}

/// Where the number token starting at `p` (after separators) ends: an
/// optional sign, then `number_end`.
pub open spec fn number_token_end(bytes: Seq<u8>, p: int) -> int {
    let q = if p < bytes.len() && (bytes[p] == 45u8 || bytes[p] == 43u8) {
        p + 1
    } else {
        p
    };
    number_end(bytes, q, false, false)
}

pub open spec fn ascii_chars(bytes: Seq<u8>) -> Seq<char> {
    bytes.map_values(|b: u8| b as char)
}

/// A minimal SVG-path-data tokenizer over the path's bytes.
pub struct Tokenizer<'a> {
    bytes: &'a [u8],
    pos: usize,
}

impl<'a> Tokenizer<'a> {
    /// The bytes being read.
    pub closed spec fn input(&self) -> Seq<u8> {
        self.bytes@
    }

    /// How many bytes have been consumed.
    pub closed spec fn position(&self) -> int {
        self.pos as int
    }

    pub closed spec fn wf(&self) -> bool {
        self.pos <= self.bytes@.len()
    }

    /// A tokenizer at the start of `data`.
    pub fn new(data: &'a str) -> (t: Self)
        ensures
            t.wf(),
            t.input() == data.spec_bytes(),
            t.position() == 0,
    {
        Tokenizer { bytes: data.as_bytes(), pos: 0 }
    }

    /// The cursor is never past the end of the input.
    pub proof fn in_bounds(&self)
        requires
            self.wf(),
        ensures
            0 <= self.position() <= self.input().len(),
    {
    }

    /// How many bytes have been consumed.
    pub fn cursor(&self) -> (p: usize)
        requires
            self.wf(),
        ensures
            p == self.position(),
    {
        self.pos
    }

    /// The bytes being read.
    pub fn input_bytes(&self) -> (b: &'a [u8])
        ensures
            b@ == self.input(),
    {
        self.bytes
    }

    /// Skips spaces, tabs, newlines, carriage returns and commas.
    pub fn skip_separators(&mut self)
        requires
            old(self).wf(),
        ensures
            final(self).wf(),
            final(self).input() == old(self).input(),
            final(self).position() == past_separators(old(self).input(), old(self).position()),
    {
        let ghost start = self.pos as int;
        while self.pos < self.bytes.len() && separator(self.bytes[self.pos])
            invariant
                self.pos <= self.bytes@.len(),
                self.bytes@ == old(self).bytes@,
                start == old(self).pos,
                past_separators(self.bytes@, start) == past_separators(self.bytes@, self.pos as int),
            decreases self.bytes@.len() - self.pos,
        {
            self.pos = self.pos + 1;
        }
    }

    /// The next command letter, or `None` at end of input; anything but an
    /// ASCII letter where a command is due is malformed.
    pub fn next_command(&mut self) -> (r: Result<Option<char>, VectorFieldError>)
        requires
            old(self).wf(),
        ensures
            final(self).wf(),
            final(self).input() == old(self).input(),
            ({
                let p = past_separators(old(self).input(), old(self).position());
                let bytes = old(self).input();
                if p >= bytes.len() {
                    r matches Ok(None) && final(self).position() == p
                } else if is_ascii_alphabetic_byte(bytes[p]) {
                    r matches Ok(Some(c)) && c == bytes[p] as char && final(self).position() == p + 1
                } else {
                    r matches Err(e) && e@ == VectorFieldErrorView::MalformedPath(
                        "expected a command, found "@ + char_debug(bytes[p] as char),
                    ) && final(self).position() == p
                }
            }),
    {
        self.skip_separators();
        if self.pos >= self.bytes.len() {
            return Ok(None);
        }
        let b = self.bytes[self.pos];
        if (65u8 <= b && b <= 90u8) || (97u8 <= b && b <= 122u8) {
            self.pos = self.pos + 1;
            Ok(Some(b as char))
        } else {
            let mut m = string_of("expected a command, found ");
            let d = debug_char(b as char);
            push_str(&mut m, d.as_str());
            Err(VectorFieldError::MalformedPath(m))
        }
    }

    /// Whether a number token starts at the cursor, after separators.
    pub fn has_number(&mut self) -> (r: bool)
        requires
            old(self).wf(),
        ensures
            final(self).wf(),
            final(self).input() == old(self).input(),
            final(self).position() == past_separators(old(self).input(), old(self).position()),
            ({
                let p = final(self).position();
                let bytes = old(self).input();
                r == (p < bytes.len() && (is_ascii_digit_byte(bytes[p]) || bytes[p] == 45u8
                    || bytes[p] == 43u8 || bytes[p] == 46u8))
            }),
    {
        self.skip_separators();
        if self.pos < self.bytes.len() {
            let b = self.bytes[self.pos];
            (48u8 <= b && b <= 57u8) || b == 45u8 || b == 43u8 || b == 46u8
        } else {
            false
        }
    }

    /// Consumes one number token and returns its text, which the caller
    /// reads as a number: an optional sign, digits with at most one dot
    /// before any exponent, and an exponent with an optional sign.
    pub fn number(&mut self) -> (text: String)
        requires
            old(self).wf(),
        ensures
            final(self).wf(),
            final(self).input() == old(self).input(),
            ({
                let p = past_separators(old(self).input(), old(self).position());
                let e = number_token_end(old(self).input(), p);
                &&& p <= e <= old(self).input().len()
                &&& final(self).position() == e
                &&& text@ == ascii_chars(old(self).input().subrange(p, e))
            }),
    {
        self.skip_separators();
        let begin = self.pos;
        if self.pos < self.bytes.len() && (self.bytes[self.pos] == 45u8 || self.bytes[self.pos] == 43u8) {
            self.pos = self.pos + 1;
        }
        let ghost q = self.pos as int;
        let mut seen_dot = false;
        let mut seen_exp = false;
        while self.pos < self.bytes.len()
            invariant
                begin <= q <= self.pos <= self.bytes@.len(),
                self.bytes@ == old(self).bytes@,
                number_end(self.bytes@, q, false, false) == number_end(
                    self.bytes@,
                    self.pos as int,
                    seen_dot,
                    seen_exp,
                ),
            ensures
                begin <= q <= self.pos <= self.bytes@.len(),
                self.bytes@ == old(self).bytes@,
                number_end(self.bytes@, q, false, false) == self.pos,
            decreases self.bytes@.len() - self.pos,
        {
            let b = self.bytes[self.pos];
            if 48u8 <= b && b <= 57u8 {
                self.pos = self.pos + 1;
            } else if b == 46u8 && !seen_dot && !seen_exp {
                seen_dot = true;
                self.pos = self.pos + 1;
            } else if (b == 101u8 || b == 69u8) && !seen_exp {
                seen_exp = true;
                self.pos = self.pos + 1;
                if self.pos < self.bytes.len() && (self.bytes[self.pos] == 45u8 || self.bytes[self.pos]
                    == 43u8) {
                    self.pos = self.pos + 1;
                }
            } else {
                break;
            }
        }
        let mut text = String::new();
        let mut i = begin;
        while i < self.pos
            invariant
                begin <= i <= self.pos <= self.bytes@.len(),
                text@ == ascii_chars(self.bytes@.subrange(begin as int, i as int)),
            decreases self.pos - i,
        {
            crate::text::push_char(&mut text, self.bytes[i] as char);
            i = i + 1;
            proof {
                assert(ascii_chars(self.bytes@.subrange(begin as int, i as int)) =~= ascii_chars(
                    self.bytes@.subrange(begin as int, i - 1),
                ).push(self.bytes@[i - 1] as char));
            }
        }
        text
    }
}

/// What the dedup index says of a geometry key under its hash.
#[derive(Clone, Copy, Debug, PartialEq, Eq, Structural)]
pub enum Lookup {
    /// Identical geometry was baked at this shape index.
    Hit(u32),
    /// The hash names another shape's geometry: a collision.
    Collided,
    /// Nothing was baked under this hash.
    Miss,
}

/// The path-geometry dedup of the vector atlas: the normalized geometry key
/// behind each baked field, in shape-index order, and the hash bucket that
/// picks a candidate. The hash only selects a candidate; the geometry itself
/// decides, so a collision can never hand back another shape's field.
pub struct GeometryDedup {
    seen: Vec<(u64, u32)>,
    keys: Vec<Vec<u64>>,
}

pub struct GeometryDedupView {
    pub seen: Seq<(u64, u32)>,
    pub keys: Seq<Seq<u64>>,
}

impl View for GeometryDedup {
    type V = GeometryDedupView;

    closed spec fn view(&self) -> GeometryDedupView {
        GeometryDedupView { seen: self.seen@, keys: self.keys@.map_values(|k: Vec<u64>| k@) }
    }
}

/// Each hash names one bucket, and every bucket names a baked shape.
pub open spec fn dedup_wf(d: GeometryDedupView) -> bool {
    &&& forall|i: int, j: int|
        0 <= i < j < d.seen.len() ==> (#[trigger] d.seen[i]).0 != (#[trigger] d.seen[j]).0
    &&& forall|i: int| 0 <= i < d.seen.len() ==> ((#[trigger] d.seen[i]).1 as int) < d.keys.len()
}

pub open spec fn hash_is(hash: u64) -> spec_fn((u64, u32)) -> bool {
    |e: (u64, u32)| e.0 == hash
}

pub open spec fn bucket_of(seen: Seq<(u64, u32)>, hash: u64) -> Option<int> {
    crate::seqs::first_match(seen, hash_is(hash))
}

/// The buckets of `seen` that name a shape below `len`, in order.
pub open spec fn keep_below(seen: Seq<(u64, u32)>, len: int) -> Seq<(u64, u32)>
    decreases seen.len(),
{
    if seen.len() == 0 {
        seq![]
    } else {
        let rest = keep_below(seen.drop_last(), len);
        if (seen.last().1 as int) < len {
            rest.push(seen.last())
        } else {
            rest
        }
    }
}

proof fn lemma_keep_below(seen: Seq<(u64, u32)>, len: int)
    ensures
        forall|k: int| 0 <= k < keep_below(seen, len).len() ==> ((#[trigger] keep_below(seen, len)[k]).1 as int) < len
            && seen.contains(keep_below(seen, len)[k]),
        (forall|i: int, j: int| 0 <= i < j < seen.len() ==> (#[trigger] seen[i]).0 != (#[trigger] seen[j]).0) ==> (forall|
            i: int,
            j: int,
        | 0 <= i < j < keep_below(seen, len).len() ==> (#[trigger] keep_below(seen, len)[i]).0 != (
        #[trigger] keep_below(seen, len)[j]).0),
    decreases seen.len(),
{
    if seen.len() > 0 {
        let init = seen.drop_last();
        lemma_keep_below(init, len);
        let r = keep_below(seen, len);
        let ri = keep_below(init, len);
        assert forall|k: int| 0 <= k < r.len() implies ((#[trigger] r[k]).1 as int) < len && seen.contains(r[k]) by {
            if k < ri.len() {
                assert(r[k] == ri[k]);
                let j = choose|j: int| 0 <= j < init.len() && init[j] == ri[k];
                assert(seen[j] == init[j]);
            } else {
                assert(r[k] == seen.last());
                assert(seen[seen.len() - 1] == seen.last());
            }
        }
        if forall|i: int, j: int| 0 <= i < j < seen.len() ==> (#[trigger] seen[i]).0 != (#[trigger] seen[j]).0 {
            assert forall|i: int, j: int| 0 <= i < j < init.len() implies (#[trigger] init[i]).0 != (#[trigger] init[j]).0 by {
                assert(init[i] == seen[i] && init[j] == seen[j]);
            }
            assert forall|i: int, j: int| 0 <= i < j < r.len() implies (#[trigger] r[i]).0 != (#[trigger] r[j]).0 by {
                if j >= ri.len() {
                    assert(r[i] == ri[i]);
                    let a = choose|a: int| 0 <= a < init.len() && init[a] == ri[i];
                    assert(seen[a] == init[a]);
                    assert(r[j] == seen[seen.len() - 1]);
                } else {
                    assert(r[i] == ri[i] && r[j] == ri[j]);
                }
            }
        }
    }
}

/// What `find` answers for `key` under `hash`.
pub open spec fn lookup_of(d: GeometryDedupView, key: Seq<u64>, hash: u64) -> Lookup {
    match bucket_of(d.seen, hash) {
        None => Lookup::Miss,
        Some(b) => {
            let index = d.seen[b].1;
            if d.keys[index as int] == key {
                Lookup::Hit(index)
            } else {
                Lookup::Collided
            }
        },
    }
}

/// Whether `a` and `b` hold the same words.
fn same_key(a: &Vec<u64>, b: &Vec<u64>) -> (r: bool)
    ensures
        r == (a@ == b@),
{
    if a.len() != b.len() {
        return false;
    }
    let mut i: usize = 0;
    while i < a.len()
        invariant
            a@.len() == b@.len(),
            i <= a@.len(),
            forall|k: int| 0 <= k < i ==> a@[k] == b@[k],
        decreases a@.len() - i,
    {
        if a[i] != b[i] {
            return false;
        }
        i = i + 1;
    }
    assert(a@ =~= b@);
    true
}

/// The first bucket of `seen` for `hash`.
fn bucket(seen: &Vec<(u64, u32)>, hash: u64) -> (r: Option<usize>)
    ensures
        match r {
            Some(b) => b < seen@.len() && bucket_of(seen@, hash) == Some(b as int),
            None => bucket_of(seen@, hash) is None,
        },
{
    let mut b: usize = 0;
    while b < seen.len()
        invariant
            b <= seen@.len(),
            forall|k: int| 0 <= k < b ==> !hash_is(hash)(#[trigger] seen@[k]),
        decreases seen@.len() - b,
    {
        if seen[b].0 == hash {
            proof {
                crate::seqs::lemma_first_match_at(seen@, hash_is(hash), b as int);
            }
            return Some(b);
        }
        b = b + 1;
    }
    proof {
        crate::seqs::lemma_first_match_none(seen@, hash_is(hash));
    }
    None
}

impl GeometryDedup {
    pub closed spec fn wf(&self) -> bool {
        dedup_wf(self@)
    }

    /// An empty index.
    pub fn new() -> (d: Self)
        ensures
            d.wf(),
            d@.seen.len() == 0,
            d@.keys.len() == 0,
    {
        let d = GeometryDedup { seen: Vec::new(), keys: Vec::new() };
        proof {
            assert(d@.keys =~= Seq::<Seq<u64>>::empty());
        }
        d
    }

    /// How many shapes have been recorded: the index the next new one gets.
    pub fn len(&self) -> (n: usize)
        ensures
            n == self@.keys.len(),
    {
        self.keys.len()
    }

    /// The geometry of the shape recorded at `index`.
    pub fn key_at(&self, index: usize) -> (k: &Vec<u64>)
        requires
            index < self@.keys.len(),
        ensures
            k@ == self@.keys[index as int],
    {
        &self.keys[index]
    }

    /// Looks `key` up under its `hash`. A hit always names identical
    /// geometry.
    pub fn find(&self, key: &Vec<u64>, hash: u64) -> (r: Lookup)
        requires
            self.wf(),
        ensures
            r == lookup_of(self@, key@, hash),
            r matches Lookup::Hit(i) ==> (i as int) < self@.keys.len() && self@.keys[i as int] == key@,
    {
        match bucket(&self.seen, hash) {
            None => Lookup::Miss,
            Some(b) => {
                let index = self.seen[b].1;
                proof {
                    assert((self@.seen[b as int].1 as int) < self@.keys.len());
                    assert(self@.keys[index as int] == self.keys@[index as int]@);
                }
                if same_key(&self.keys[index as usize], key) {
                    Lookup::Hit(index)
                } else {
                    Lookup::Collided
                }
            },
        }
    }

    /// Records the geometry of a newly baked shape and returns its index;
    /// its hash takes a bucket unless another shape holds it already.
    pub fn record(&mut self, key: Vec<u64>, hash: u64) -> (index: u32)
        requires
            old(self).wf(),
            old(self)@.keys.len() < u32::MAX,
        ensures
            final(self).wf(),
            index == old(self)@.keys.len(),
            final(self)@.keys == old(self)@.keys.push(key@),
            final(self)@.seen == if bucket_of(old(self)@.seen, hash) is Some {
                old(self)@.seen
            } else {
                old(self)@.seen.push((hash, index))
            },
    {
        let ghost v = self@;
        let taken = bucket(&self.seen, hash).is_some();
        let index = self.keys.len() as u32;
        let ghost kv = key@;
        self.keys.push(key);
        if !taken {
            self.seen.push((hash, index));
        }
        proof {
            let n = self@;
            assert(n.keys =~= v.keys.push(kv));
            assert forall|i: int| 0 <= i < n.seen.len() implies ((#[trigger] n.seen[i]).1 as int) < n.keys.len() by {
                if i < v.seen.len() {
                    assert(n.seen[i] == v.seen[i]);
                }
            }
            if !taken {
                crate::seqs::lemma_first_match(v.seen, hash_is(hash));
                assert forall|i: int, j: int| 0 <= i < j < n.seen.len() implies (#[trigger] n.seen[i]).0
                    != (#[trigger] n.seen[j]).0 by {
                    assert(n.seen[i] == v.seen[i]);
                    if j < v.seen.len() {
                        assert(n.seen[j] == v.seen[j]);
                    } else {
                        assert(!hash_is(hash)(v.seen[i]));
                    }
                }
            }
        }
        index
    }

    /// Forgets every shape recorded at or after `len`, and every bucket that
    /// names one; indices below `len` stay as they were. A `len` at or past
    /// the end changes nothing.
    pub fn truncate(&mut self, len: usize)
        requires
            old(self).wf(),
        ensures
            final(self).wf(),
            final(self)@.keys == if len < old(self)@.keys.len() {
                old(self)@.keys.take(len as int)
            } else {
                old(self)@.keys
            },
            final(self)@.seen == keep_below(old(self)@.seen, len as int),
    {
        let ghost v = self@;
        self.keys.truncate(len);
        let mut kept: Vec<(u64, u32)> = Vec::new();
        let mut i: usize = 0;
        proof {
            assert(v.seen.take(0) =~= Seq::<(u64, u32)>::empty());
        }
        while i < self.seen.len()
            invariant
                i <= self.seen@.len(),
                self.seen@ == v.seen,
                kept@ == keep_below(v.seen.take(i as int), len as int),
            decreases self.seen@.len() - i,
        {
            let e = self.seen[i];
            proof {
                assert(v.seen.take(i + 1).drop_last() =~= v.seen.take(i as int));
                assert(v.seen.take(i + 1).last() == e);
            }
            if (e.1 as usize) < len {
                kept.push(e);
            }
            i = i + 1;
        }
        proof {
            assert(v.seen.take(i as int) =~= v.seen);
            lemma_keep_below(v.seen, len as int);
        }
        self.seen = kept;
        proof {
            let n = self@;
            if len < v.keys.len() {
                assert(n.keys =~= v.keys.take(len as int));
            } else {
                assert(n.keys =~= v.keys);
            }
            let kb = keep_below(v.seen, len as int);
            assert forall|k: int| 0 <= k < kb.len() implies ((#[trigger] kb[k]).1 as int) < n.keys.len() by {
                assert(v.seen.contains(kb[k]));
                let j = choose|j: int| 0 <= j < v.seen.len() && v.seen[j] == kb[k];
                assert((v.seen[j].1 as int) < v.keys.len());
            }
        }
    }
}

/// What one bake registers is what the next lookup finds: recording new
/// geometry under a free hash makes that hash a hit for the same geometry,
/// at the index the record returned.
pub proof fn recorded_geometry_is_found(d: GeometryDedupView, key: Seq<u64>, hash: u64)
    requires
        dedup_wf(d),
        d.keys.len() < u32::MAX,
        bucket_of(d.seen, hash) is None,
    ensures
        ({
            let index = d.keys.len() as u32;
            let after = GeometryDedupView { seen: d.seen.push((hash, index)), keys: d.keys.push(key) };
            lookup_of(after, key, hash) == Lookup::Hit(index)
        }),
{
    let index = d.keys.len() as u32;
    let seen = d.seen.push((hash, index));
    crate::seqs::lemma_first_match(d.seen, hash_is(hash));
    assert forall|k: int| 0 <= k < d.seen.len() implies !hash_is(hash)(#[trigger] seen[k]) by {
        assert(seen[k] == d.seen[k]);
    }
    crate::seqs::lemma_first_match_at(seen, hash_is(hash), d.seen.len() as int);
}

} // verus!
