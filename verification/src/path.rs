//! SVG path data as the field generator reads it: `M`, `L`, `C` and `Z`
//! over number tokens, into contours. Every `M` opens a new contour and `Z`
//! closes the current one back to its start.
//!
//! Coordinates stay the number tokens they were written as; the caller
//! reads each as a double. So the edge that closes a contour is carried as
//! `PathSegment::Close`: a line where its two points differ as numbers and
//! nothing where they coincide, which only the numbers can tell.
use vstd::prelude::*;
use vstd::string::StringSliceAdditionalSpecFns;

use crate::text::{push_str, string_of};
use crate::vector::{
    ascii_chars, char_debug, is_ascii_alphabetic_byte, is_ascii_digit_byte, number_end,
    number_token_end, past_separators, Tokenizer, VectorFieldError, VectorFieldErrorView,
};

verus! {

// ---- what a number token must look like ------------------------------------

pub open spec fn is_digit_char(c: char) -> bool {
    '0' <= c && c <= '9'
}

/// One step of the automaton over a decimal literal's characters after its
/// sign: 0 nothing yet, 1 integer digits, 2 a dot with no digit before it,
/// 3 fraction digits, 4 an exponent letter, 5 the exponent's sign, 6
/// exponent digits, 7 refused.
pub open spec fn next_state(state: int, c: char) -> int {
    if is_digit_char(c) {
        if state == 0 || state == 1 {
            1
        } else if state == 2 || state == 3 {
            3
        } else if 4 <= state <= 6 {
            6
        } else {
            7
        }
    } else if c == '.' {
        if state == 0 {
            2
        } else if state == 1 {
            3
        } else {
            7
        }
    } else if c == 'e' || c == 'E' {
        if state == 1 || state == 3 {
            4
        } else {
            7
        }
    } else if c == '+' || c == '-' {
        if state == 4 {
            5
        } else {
            7
        }
    } else {
        7
    }
}

/// Where the automaton stands after `t` from index `i` on.
pub open spec fn decimal_state(t: Seq<char>, i: int, state: int) -> int
    decreases t.len() - i,
{
    if i < 0 || i >= t.len() {
        state
    } else {
        let next = next_state(state, t[i]);
        if next == 7 {
            7
        } else {
            decimal_state(t, i + 1, next)
        }
    }
}

/// `t` spells a word, each letter in its lower-case form `lower` or its
/// upper-case form `upper`.
pub open spec fn word_any_case(t: Seq<char>, lower: Seq<char>, upper: Seq<char>) -> bool {
    t.len() == lower.len() && forall|k: int|
        0 <= k < t.len() ==> #[trigger] t[k] == lower[k] || t[k] == upper[k]
}

/// The strings std's `f64` parser accepts, by its documented grammar: an
/// optional sign, then `inf`, `infinity` or `nan` in any case, or a decimal
/// with at least one digit before or after an optional dot and an optional
/// exponent of at least one digit.
pub open spec fn float_literal(t: Seq<char>) -> bool {
    let body = if t.len() > 0 && (t[0] == '+' || t[0] == '-') {
        t.skip(1)
    } else {
        t
    };
    let s = decimal_state(body, 0, 0);
    ||| s == 1 || s == 3 || s == 6
    ||| word_any_case(body, seq!['i', 'n', 'f'], seq!['I', 'N', 'F'])
    ||| word_any_case(
        body,
        seq!['i', 'n', 'f', 'i', 'n', 'i', 't', 'y'],
        seq!['I', 'N', 'F', 'I', 'N', 'I', 'T', 'Y'],
    )
    ||| word_any_case(body, seq!['n', 'a', 'n'], seq!['N', 'A', 'N'])
}

// ---- the parsed contours ----------------------------------------------------

/// A point as its two number tokens.
#[derive(Clone, Debug, PartialEq, Eq)]
pub struct PathPoint {
    pub x: String,
    pub y: String,
}

pub struct PathPointView {
    pub x: Seq<char>,
    pub y: Seq<char>,
}

impl View for PathPoint {
    type V = PathPointView;

    open spec fn view(&self) -> PathPointView {
        PathPointView { x: self.x@, y: self.y@ }
    }
}

/// One segment of a contour.
#[derive(Clone, Debug, PartialEq, Eq)]
pub enum PathSegment {
    /// A straight line from the first point to the second.
    Line(PathPoint, PathPoint),
    /// A cubic Bézier: start, two control points, end.
    Cubic(PathPoint, PathPoint, PathPoint, PathPoint),
    /// The edge that closes a contour, from where it stands back to its
    /// start: a line where the two differ as numbers, nothing otherwise.
    Close(PathPoint, PathPoint),
}

pub enum PathSegmentView {
    Line(PathPointView, PathPointView),
    Cubic(PathPointView, PathPointView, PathPointView, PathPointView),
    Close(PathPointView, PathPointView),
}

impl View for PathSegment {
    type V = PathSegmentView;

    open spec fn view(&self) -> PathSegmentView {
        match self {
            PathSegment::Line(a, b) => PathSegmentView::Line(a@, b@),
            PathSegment::Cubic(a, b, c, d) => PathSegmentView::Cubic(a@, b@, c@, d@),
            PathSegment::Close(a, b) => PathSegmentView::Close(a@, b@),
        }
    }
}

pub open spec fn segments_view(s: Seq<PathSegment>) -> Seq<PathSegmentView> {
    s.map_values(|x: PathSegment| x@)
}

pub open spec fn contours_view(s: Seq<Vec<PathSegment>>) -> Seq<Seq<PathSegmentView>> {
    s.map_values(|c: Vec<PathSegment>| segments_view(c@))
}

/// Where the parse stands: the finished contours, the open one, its start,
/// the pen, and whether an `M` has been seen.
pub struct PathParseView {
    pub contours: Seq<Seq<PathSegmentView>>,
    pub current: Seq<PathSegmentView>,
    pub start: PathPointView,
    pub cursor: PathPointView,
    pub have_start: bool,
}

pub open spec fn origin() -> PathPointView {
    PathPointView { x: "0"@, y: "0"@ }
}

pub open spec fn fresh_parse() -> PathParseView {
    PathParseView {
        contours: Seq::empty(),
        current: Seq::empty(),
        start: origin(),
        cursor: origin(),
        have_start: false,
    }
}

pub open spec fn line_to(st: PathParseView, to: PathPointView) -> PathParseView {
    PathParseView {
        contours: st.contours,
        current: st.current.push(PathSegmentView::Line(st.cursor, to)),
        start: st.start,
        cursor: to,
        have_start: st.have_start,
    }
}

pub open spec fn curve_to(
    st: PathParseView,
    c1: PathPointView,
    c2: PathPointView,
    to: PathPointView,
) -> PathParseView {
    PathParseView {
        contours: st.contours,
        current: st.current.push(PathSegmentView::Cubic(st.cursor, c1, c2, to)),
        start: st.start,
        cursor: to,
        have_start: st.have_start,
    }
}

/// Closes the open contour, if it has a segment, back to its start.
pub open spec fn close_contour(st: PathParseView) -> PathParseView {
    if st.current.len() > 0 {
        PathParseView {
            contours: st.contours.push(st.current.push(PathSegmentView::Close(st.cursor, st.start))),
            current: Seq::empty(),
            start: st.start,
            cursor: st.cursor,
            have_start: st.have_start,
        }
    } else {
        st
    }
}

// ---- reading the data -------------------------------------------------------

pub open spec fn not_a_number(t: Seq<char>) -> Seq<char> {
    "not a number: \""@ + t + "\""@
}

/// The number token after `pos`, and where it ends.
pub open spec fn number_at(bytes: Seq<u8>, pos: int) -> Result<(Seq<char>, int), VectorFieldErrorView> {
    let p = past_separators(bytes, pos);
    let e = number_token_end(bytes, p);
    let t = ascii_chars(bytes.subrange(p, e));
    if float_literal(t) {
        Ok((t, e))
    } else {
        Err(VectorFieldErrorView::MalformedPath(not_a_number(t)))
    }
}

/// Two number tokens after `pos` as a point, and where it ends.
pub open spec fn point_at(bytes: Seq<u8>, pos: int) -> Result<(PathPointView, int), VectorFieldErrorView> {
    match number_at(bytes, pos) {
        Err(e) => Err(e),
        Ok((x, q)) => match number_at(bytes, q) {
            Err(e) => Err(e),
            Ok((y, r)) => Ok((PathPointView { x, y }, r)),
        },
    }
}

/// Whether a number token starts after `pos`.
pub open spec fn number_ahead(bytes: Seq<u8>, pos: int) -> bool {
    let p = past_separators(bytes, pos);
    p < bytes.len() && (is_ascii_digit_byte(bytes[p]) || bytes[p] == 45u8 || bytes[p] == 43u8
        || bytes[p] == 46u8)
}

pub proof fn lemma_past_separators(bytes: Seq<u8>, pos: int)
    requires
        0 <= pos <= bytes.len(),
    ensures
        pos <= past_separators(bytes, pos) <= bytes.len(),
        past_separators(bytes, past_separators(bytes, pos)) == past_separators(bytes, pos),
    decreases bytes.len() - pos,
{
    if pos < bytes.len() && crate::vector::is_separator(bytes[pos]) {
        lemma_past_separators(bytes, pos + 1);
    }
}

pub proof fn lemma_number_end(bytes: Seq<u8>, pos: int, seen_dot: bool, seen_exp: bool)
    requires
        0 <= pos <= bytes.len(),
    ensures
        pos <= number_end(bytes, pos, seen_dot, seen_exp) <= bytes.len(),
    decreases bytes.len() - pos,
{
    if pos < bytes.len() {
        let b = bytes[pos];
        if is_ascii_digit_byte(b) {
            lemma_number_end(bytes, pos + 1, seen_dot, seen_exp);
        } else if b == 46u8 && !seen_dot && !seen_exp {
            lemma_number_end(bytes, pos + 1, true, seen_exp);
        } else if (b == 101u8 || b == 69u8) && !seen_exp {
            let q = if pos + 1 < bytes.len() && (bytes[pos + 1] == 45u8 || bytes[pos + 1] == 43u8) {
                pos + 2
            } else {
                pos + 1
            };
            lemma_number_end(bytes, q, seen_dot, true);
        }
    }
}

/// A number token that reads lies after `pos` and within the data.
pub proof fn lemma_number_at(bytes: Seq<u8>, pos: int)
    requires
        0 <= pos <= bytes.len(),
    ensures
        number_at(bytes, pos) matches Ok((t, e)) ==> pos < e <= bytes.len(),
        number_at(bytes, past_separators(bytes, pos)) == number_at(bytes, pos),
{
    lemma_past_separators(bytes, pos);
    let p = past_separators(bytes, pos);
    let q = if p < bytes.len() && (bytes[p] == 45u8 || bytes[p] == 43u8) {
        p + 1
    } else {
        p
    };
    lemma_number_end(bytes, q, false, false);
    let e = number_token_end(bytes, p);
    let t = ascii_chars(bytes.subrange(p, e));
    assert(t.len() == e - p);
    if t.len() == 0 {
        assert(!float_literal(t));
    }
}

pub proof fn lemma_point_at(bytes: Seq<u8>, pos: int)
    requires
        0 <= pos <= bytes.len(),
    ensures
        point_at(bytes, pos) matches Ok((pt, e)) ==> pos < e <= bytes.len(),
        point_at(bytes, past_separators(bytes, pos)) == point_at(bytes, pos),
{
    lemma_number_at(bytes, pos);
    if let Ok((x, q)) = number_at(bytes, pos) {
        lemma_number_at(bytes, q);
    }
}

/// More points of a line run, while a number follows: each a line from the
/// pen.
pub open spec fn line_run(bytes: Seq<u8>, pos: int, st: PathParseView) -> Result<
    (PathParseView, int),
    VectorFieldErrorView,
>
    decreases bytes.len() - pos,
    when 0 <= pos <= bytes.len()
{
    if !number_ahead(bytes, pos) {
        Ok((st, past_separators(bytes, pos)))
    } else {
        match point_at(bytes, pos) {
            Err(e) => Err(e),
            Ok((to, q)) => {
                proof {
                    lemma_point_at(bytes, pos);
                }
                line_run(bytes, q, line_to(st, to))
            },
        }
    }
}

/// Three points after `pos`: two control points and an end.
pub open spec fn cubic_at(bytes: Seq<u8>, pos: int) -> Result<
    (PathPointView, PathPointView, PathPointView, int),
    VectorFieldErrorView,
> {
    match point_at(bytes, pos) {
        Err(e) => Err(e),
        Ok((c1, q1)) => match point_at(bytes, q1) {
            Err(e) => Err(e),
            Ok((c2, q2)) => match point_at(bytes, q2) {
                Err(e) => Err(e),
                Ok((to, q3)) => Ok((c1, c2, to, q3)),
            },
        },
    }
}

pub proof fn lemma_cubic_at(bytes: Seq<u8>, pos: int)
    requires
        0 <= pos <= bytes.len(),
    ensures
        cubic_at(bytes, pos) matches Ok((c1, c2, to, e)) ==> pos < e <= bytes.len(),
        cubic_at(bytes, past_separators(bytes, pos)) == cubic_at(bytes, pos),
{
    lemma_point_at(bytes, pos);
    if let Ok((c1, q1)) = point_at(bytes, pos) {
        lemma_point_at(bytes, q1);
        if let Ok((c2, q2)) = point_at(bytes, q1) {
            lemma_point_at(bytes, q2);
        }
    }
}

/// More curves of a curve run, while a number follows.
pub open spec fn curve_run(bytes: Seq<u8>, pos: int, st: PathParseView) -> Result<
    (PathParseView, int),
    VectorFieldErrorView,
>
    decreases bytes.len() - pos,
    when 0 <= pos <= bytes.len()
{
    if !number_ahead(bytes, pos) {
        Ok((st, past_separators(bytes, pos)))
    } else {
        match cubic_at(bytes, pos) {
            Err(e) => Err(e),
            Ok((c1, c2, to, q)) => {
                proof {
                    lemma_cubic_at(bytes, pos);
                }
                curve_run(bytes, q, curve_to(st, c1, c2, to))
            },
        }
    }
}

pub proof fn lemma_line_run(bytes: Seq<u8>, pos: int, st: PathParseView)
    requires
        0 <= pos <= bytes.len(),
    ensures
        line_run(bytes, pos, st) matches Ok((st2, q)) ==> pos <= q <= bytes.len(),
    decreases bytes.len() - pos,
{
    lemma_past_separators(bytes, pos);
    if number_ahead(bytes, pos) {
        lemma_point_at(bytes, pos);
        if let Ok((to, q)) = point_at(bytes, pos) {
            lemma_line_run(bytes, q, line_to(st, to));
        }
    }
}

pub proof fn lemma_curve_run(bytes: Seq<u8>, pos: int, st: PathParseView)
    requires
        0 <= pos <= bytes.len(),
    ensures
        curve_run(bytes, pos, st) matches Ok((st2, q)) ==> pos <= q <= bytes.len(),
    decreases bytes.len() - pos,
{
    lemma_past_separators(bytes, pos);
    if number_ahead(bytes, pos) {
        lemma_cubic_at(bytes, pos);
        if let Ok((c1, c2, to, q)) = cubic_at(bytes, pos) {
            lemma_curve_run(bytes, q, curve_to(st, c1, c2, to));
        }
    }
}

/// What the command letter `c`, read just before `pos`, does.
pub open spec fn command_step(bytes: Seq<u8>, pos: int, st: PathParseView, c: char) -> Result<
    (PathParseView, int),
    VectorFieldErrorView,
> {
    if c == 'M' {
        match point_at(bytes, pos) {
            Err(e) => Err(e),
            Ok((p0, q)) => {
                let closed = close_contour(st);
                line_run(
                    bytes,
                    q,
                    PathParseView {
                        contours: closed.contours,
                        current: closed.current,
                        start: p0,
                        cursor: p0,
                        have_start: true,
                    },
                )
            },
        }
    } else if c == 'L' {
        if !st.have_start {
            Err(VectorFieldErrorView::MalformedPath("L before M"@))
        } else {
            match point_at(bytes, pos) {
                Err(e) => Err(e),
                Ok((to, q)) => line_run(bytes, q, line_to(st, to)),
            }
        }
    } else if c == 'C' {
        if !st.have_start {
            Err(VectorFieldErrorView::MalformedPath("C before M"@))
        } else {
            match cubic_at(bytes, pos) {
                Err(e) => Err(e),
                Ok((c1, c2, to, q)) => curve_run(bytes, q, curve_to(st, c1, c2, to)),
            }
        }
    } else if c == 'Z' {
        let closed = close_contour(st);
        Ok(
            (
                PathParseView {
                    contours: closed.contours,
                    current: closed.current,
                    start: closed.start,
                    cursor: closed.start,
                    have_start: closed.have_start,
                },
                pos,
            ),
        )
    } else {
        Err(VectorFieldErrorView::UnsupportedCommand(c))
    }
}

pub proof fn lemma_command_step(bytes: Seq<u8>, pos: int, st: PathParseView, c: char)
    requires
        0 <= pos <= bytes.len(),
    ensures
        command_step(bytes, pos, st, c) matches Ok((st2, q)) ==> pos <= q <= bytes.len(),
{
    lemma_point_at(bytes, pos);
    lemma_cubic_at(bytes, pos);
    if let Ok((p0, q)) = point_at(bytes, pos) {
        let closed = close_contour(st);
        lemma_line_run(bytes, q, PathParseView {
            contours: closed.contours,
            current: closed.current,
            start: p0,
            cursor: p0,
            have_start: true,
        });
        lemma_line_run(bytes, q, line_to(st, p0));
    }
    if let Ok((c1, c2, to, q)) = cubic_at(bytes, pos) {
        lemma_curve_run(bytes, q, curve_to(st, c1, c2, to));
    }
}

/// The commands from `pos` on; at the end the open contour closes, and a
/// path that closed no contour is degenerate.
pub open spec fn path_commands(bytes: Seq<u8>, pos: int, st: PathParseView) -> Result<
    Seq<Seq<PathSegmentView>>,
    VectorFieldErrorView,
>
    decreases bytes.len() - pos,
    when 0 <= pos <= bytes.len()
{
    let p = past_separators(bytes, pos);
    if p >= bytes.len() {
        let done = close_contour(st);
        if done.contours.len() == 0 {
            Err(VectorFieldErrorView::DegenerateGeometry)
        } else {
            Ok(done.contours)
        }
    } else if !is_ascii_alphabetic_byte(bytes[p]) {
        Err(
            VectorFieldErrorView::MalformedPath(
                "expected a command, found "@ + char_debug(bytes[p] as char),
            ),
        )
    } else {
        match command_step(bytes, p + 1, st, bytes[p] as char) {
            Err(e) => Err(e),
            Ok((st2, q)) => {
                proof {
                    lemma_past_separators(bytes, pos);
                    lemma_command_step(bytes, p + 1, st, bytes[p] as char);
                }
                path_commands(bytes, q, st2)
            },
        }
    }
}

/// What path data parses to.
pub open spec fn path_spec(bytes: Seq<u8>) -> Result<Seq<Seq<PathSegmentView>>, VectorFieldErrorView> {
    path_commands(bytes, 0, fresh_parse())
}

// ---- what a contour is ------------------------------------------------------

pub open spec fn seg_from(s: PathSegmentView) -> PathPointView {
    match s {
        PathSegmentView::Line(a, _) => a,
        PathSegmentView::Cubic(a, _, _, _) => a,
        PathSegmentView::Close(a, _) => a,
    }
}

pub open spec fn seg_to(s: PathSegmentView) -> PathPointView {
    match s {
        PathSegmentView::Line(_, b) => b,
        PathSegmentView::Cubic(_, _, _, d) => d,
        PathSegmentView::Close(_, b) => b,
    }
}

/// Each segment starts where the one before it ends, and none but the last
/// may be a closing edge.
pub open spec fn chained(c: Seq<PathSegmentView>) -> bool {
    &&& forall|i: int| 0 <= i < c.len() - 1 ==> seg_to(#[trigger] c[i]) == seg_from(c[i + 1])
    &&& forall|i: int| 0 <= i < c.len() - 1 ==> !(#[trigger] c[i] is Close)
}

/// A closed contour: a chain of at least one segment that ends with the
/// edge back to where it started.
pub open spec fn closed_contour(c: Seq<PathSegmentView>) -> bool {
    &&& c.len() >= 2
    &&& chained(c)
    &&& c.last() is Close
    &&& seg_to(c.last()) == seg_from(c[0])
}

/// What holds of the parse between commands: the finished contours are
/// closed, and the open one is a chain from the start to the pen, which
/// stands at the start while the contour is empty.
pub open spec fn parse_wf(st: PathParseView) -> bool {
    &&& forall|k: int| 0 <= k < st.contours.len() ==> closed_contour(#[trigger] st.contours[k])
    &&& chained(st.current)
    &&& st.current.len() == 0 || !(st.current.last() is Close)
    &&& st.current.len() == 0 ==> st.cursor == st.start
    &&& st.current.len() > 0 ==> seg_from(st.current[0]) == st.start && seg_to(st.current.last())
        == st.cursor
}

proof fn lemma_extend_wf(st: PathParseView, seg: PathSegmentView)
    requires
        parse_wf(st),
        seg_from(seg) == st.cursor,
        !(seg is Close),
    ensures
        ({
            let c = st.current.push(seg);
            &&& chained(c)
            &&& !(c.last() is Close)
            &&& seg_from(c[0]) == st.start
            &&& seg_to(c.last()) == seg_to(seg)
        }),
{
    let c = st.current.push(seg);
    assert forall|i: int| 0 <= i < c.len() - 1 implies seg_to(#[trigger] c[i]) == seg_from(c[i + 1]) by {
        if i < st.current.len() - 1 {
            assert(c[i] == st.current[i] && c[i + 1] == st.current[i + 1]);
        } else {
            assert(c[i] == st.current.last());
        }
    }
    assert forall|i: int| 0 <= i < c.len() - 1 implies !(#[trigger] c[i] is Close) by {
        assert(c[i] == st.current[i]);
    }
}

proof fn lemma_line_to_wf(st: PathParseView, to: PathPointView)
    requires
        parse_wf(st),
    ensures
        parse_wf(line_to(st, to)),
{
    lemma_extend_wf(st, PathSegmentView::Line(st.cursor, to));
}

proof fn lemma_curve_to_wf(st: PathParseView, c1: PathPointView, c2: PathPointView, to: PathPointView)
    requires
        parse_wf(st),
    ensures
        parse_wf(curve_to(st, c1, c2, to)),
{
    lemma_extend_wf(st, PathSegmentView::Cubic(st.cursor, c1, c2, to));
}

proof fn lemma_close_wf(st: PathParseView)
    requires
        parse_wf(st),
    ensures
        forall|k: int|
            0 <= k < close_contour(st).contours.len() ==> closed_contour(#[trigger] close_contour(st).contours[k]),
        close_contour(st).current.len() == 0,
        close_contour(st).start == st.start,
{
    if st.current.len() > 0 {
        let c = st.current.push(PathSegmentView::Close(st.cursor, st.start));
        assert forall|i: int| 0 <= i < c.len() - 1 implies seg_to(#[trigger] c[i]) == seg_from(c[i + 1]) by {
            if i < st.current.len() - 1 {
                assert(c[i] == st.current[i] && c[i + 1] == st.current[i + 1]);
            } else {
                assert(c[i] == st.current.last());
            }
        }
        assert forall|i: int| 0 <= i < c.len() - 1 implies !(#[trigger] c[i] is Close) by {
            assert(c[i] == st.current[i]);
        }
        assert(c[0] == st.current[0]);
        assert(closed_contour(c));
        let n = close_contour(st);
        assert forall|k: int| 0 <= k < n.contours.len() implies closed_contour(#[trigger] n.contours[k]) by {
            if k < st.contours.len() {
                assert(n.contours[k] == st.contours[k]);
            } else {
                assert(n.contours[k] == c);
            }
        }
    }
}

proof fn lemma_line_run_wf(bytes: Seq<u8>, pos: int, st: PathParseView)
    requires
        0 <= pos <= bytes.len(),
        parse_wf(st),
    ensures
        line_run(bytes, pos, st) matches Ok((st2, q)) ==> parse_wf(st2),
    decreases bytes.len() - pos,
{
    if number_ahead(bytes, pos) {
        lemma_point_at(bytes, pos);
        if let Ok((to, q)) = point_at(bytes, pos) {
            lemma_line_to_wf(st, to);
            lemma_line_run_wf(bytes, q, line_to(st, to));
        }
    }
}

proof fn lemma_curve_run_wf(bytes: Seq<u8>, pos: int, st: PathParseView)
    requires
        0 <= pos <= bytes.len(),
        parse_wf(st),
    ensures
        curve_run(bytes, pos, st) matches Ok((st2, q)) ==> parse_wf(st2),
    decreases bytes.len() - pos,
{
    if number_ahead(bytes, pos) {
        lemma_cubic_at(bytes, pos);
        if let Ok((c1, c2, to, q)) = cubic_at(bytes, pos) {
            lemma_curve_to_wf(st, c1, c2, to);
            lemma_curve_run_wf(bytes, q, curve_to(st, c1, c2, to));
        }
    }
}

proof fn lemma_command_step_wf(bytes: Seq<u8>, pos: int, st: PathParseView, c: char)
    requires
        0 <= pos <= bytes.len(),
        parse_wf(st),
    ensures
        command_step(bytes, pos, st, c) matches Ok((st2, q)) ==> parse_wf(st2),
{
    lemma_point_at(bytes, pos);
    lemma_cubic_at(bytes, pos);
    lemma_close_wf(st);
    let closed = close_contour(st);
    if c == 'M' {
        if let Ok((p0, q)) = point_at(bytes, pos) {
            let next = PathParseView {
                contours: closed.contours,
                current: closed.current,
                start: p0,
                cursor: p0,
                have_start: true,
            };
            assert(parse_wf(next));
            lemma_line_run_wf(bytes, q, next);
        }
    } else if c == 'L' {
        if let Ok((to, q)) = point_at(bytes, pos) {
            lemma_line_to_wf(st, to);
            lemma_line_run_wf(bytes, q, line_to(st, to));
        }
    } else if c == 'C' {
        if let Ok((c1, c2, to, q)) = cubic_at(bytes, pos) {
            lemma_curve_to_wf(st, c1, c2, to);
            lemma_curve_run_wf(bytes, q, curve_to(st, c1, c2, to));
        }
    }
}

proof fn lemma_path_commands_wf(bytes: Seq<u8>, pos: int, st: PathParseView)
    requires
        0 <= pos <= bytes.len(),
        parse_wf(st),
    ensures
        path_commands(bytes, pos, st) matches Ok(cs) ==> cs.len() > 0 && forall|k: int|
            0 <= k < cs.len() ==> closed_contour(#[trigger] cs[k]),
    decreases bytes.len() - pos,
{
    lemma_past_separators(bytes, pos);
    let p = past_separators(bytes, pos);
    if p >= bytes.len() {
        lemma_close_wf(st);
    } else if is_ascii_alphabetic_byte(bytes[p]) {
        let c = bytes[p] as char;
        lemma_command_step(bytes, p + 1, st, c);
        lemma_command_step_wf(bytes, p + 1, st, c);
        if let Ok((st2, q)) = command_step(bytes, p + 1, st, c) {
            lemma_path_commands_wf(bytes, q, st2);
        }
    }
}

/// Path data that parses gives at least one contour, and every contour is
/// closed: each segment starts where the one before it ends, and the last,
/// the only closing edge, runs back to where the contour began.
pub proof fn parsed_contours_are_closed(bytes: Seq<u8>)
    ensures
        path_spec(bytes) matches Ok(cs) ==> cs.len() > 0 && forall|k: int|
            0 <= k < cs.len() ==> closed_contour(#[trigger] cs[k]),
{
    lemma_path_commands_wf(bytes, 0, fresh_parse());
}

// ---- the parse --------------------------------------------------------------

fn next_state_exec(state: u8, b: u8) -> (n: u8)
    requires
        state < 7,
    ensures
        n as int == next_state(state as int, b as char),
        n <= 7,
{
    let c = b as char;
    if '0' <= c && c <= '9' {
        if state == 0 || state == 1 {
            1
        } else if state == 2 || state == 3 {
            3
        } else {
            6
        }
    } else if c == '.' {
        if state == 0 {
            2
        } else if state == 1 {
            3
        } else {
            7
        }
    } else if c == 'e' || c == 'E' {
        if state == 1 || state == 3 {
            4
        } else {
            7
        }
    } else if c == '+' || c == '-' {
        if state == 4 {
            5
        } else {
            7
        }
    } else {
        7
    }
}

/// The automaton's state after the characters `bytes[i..e]`.
fn decimal_state_at(bytes: &[u8], i: usize, e: usize) -> (s: u8)
    requires
        i <= e <= bytes@.len(),
    ensures
        s as int == decimal_state(ascii_chars(bytes@.subrange(i as int, e as int)), 0, 0),
{
    let ghost body = ascii_chars(bytes@.subrange(i as int, e as int));
    let mut state: u8 = 0;
    let mut j: usize = i;
    while j < e
        invariant
            i <= j <= e <= bytes@.len(),
            body == ascii_chars(bytes@.subrange(i as int, e as int)),
            state < 7,
            decimal_state(body, 0, 0) == decimal_state(body, j - i, state as int),
        decreases e - j,
    {
        assert(body[j - i] == bytes@[j as int] as char);
        let n = next_state_exec(state, bytes[j]);
        if n == 7 {
            return 7;
        }
        state = n;
        j = j + 1;
    }
    state
}

/// Whether `bytes[i..e]` spell a word, letter by letter in `lower` or
/// `upper` case.
fn word_at(bytes: &[u8], i: usize, e: usize, lower: &Vec<char>, upper: &Vec<char>) -> (r: bool)
    requires
        i <= e <= bytes@.len(),
        lower@.len() == upper@.len(),
    ensures
        r == word_any_case(ascii_chars(bytes@.subrange(i as int, e as int)), lower@, upper@),
{
    let ghost t = ascii_chars(bytes@.subrange(i as int, e as int));
    if e - i != lower.len() {
        return false;
    }
    let mut k: usize = 0;
    while k < lower.len()
        invariant
            i <= e <= bytes@.len(),
            e - i == lower@.len(),
            lower@.len() == upper@.len(),
            t == ascii_chars(bytes@.subrange(i as int, e as int)),
            k <= lower@.len(),
            forall|j: int| 0 <= j < k ==> #[trigger] t[j] == lower@[j] || t[j] == upper@[j],
        decreases lower@.len() - k,
    {
        let c = bytes[i + k] as char;
        assert(t[k as int] == c);
        if !(c == lower[k] || c == upper[k]) {
            return false;
        }
        k = k + 1;
    }
    true
}

/// Whether `bytes[p..e]` read as a double.
fn float_literal_at(bytes: &[u8], p: usize, e: usize) -> (r: bool)
    requires
        p <= e <= bytes@.len(),
    ensures
        r == float_literal(ascii_chars(bytes@.subrange(p as int, e as int))),
{
    let ghost t = ascii_chars(bytes@.subrange(p as int, e as int));
    let mut i = p;
    if i < e && (bytes[i] == 43u8 || bytes[i] == 45u8) {
        i = i + 1;
    }
    proof {
        let body = if t.len() > 0 && (t[0] == '+' || t[0] == '-') {
            t.skip(1)
        } else {
            t
        };
        if p < e {
            assert(t[0] == bytes@[p as int] as char);
        }
        assert(body =~= ascii_chars(bytes@.subrange(i as int, e as int)));
    }
    let s = decimal_state_at(bytes, i, e);
    if s == 1 || s == 3 || s == 6 {
        return true;
    }
    let inf: Vec<char> = vec!['i', 'n', 'f'];
    let inf_upper: Vec<char> = vec!['I', 'N', 'F'];
    let infinity: Vec<char> = vec!['i', 'n', 'f', 'i', 'n', 'i', 't', 'y'];
    let infinity_upper: Vec<char> = vec!['I', 'N', 'F', 'I', 'N', 'I', 'T', 'Y'];
    let nan: Vec<char> = vec!['n', 'a', 'n'];
    let nan_upper: Vec<char> = vec!['N', 'A', 'N'];
    proof {
        assert(inf@ =~= seq!['i', 'n', 'f']);
        assert(inf_upper@ =~= seq!['I', 'N', 'F']);
        assert(infinity@ =~= seq!['i', 'n', 'f', 'i', 'n', 'i', 't', 'y']);
        assert(infinity_upper@ =~= seq!['I', 'N', 'F', 'I', 'N', 'I', 'T', 'Y']);
        assert(nan@ =~= seq!['n', 'a', 'n']);
        assert(nan_upper@ =~= seq!['N', 'A', 'N']);
    }
    word_at(bytes, i, e, &inf, &inf_upper) || word_at(bytes, i, e, &infinity, &infinity_upper)
        || word_at(bytes, i, e, &nan, &nan_upper)
}

fn copy_point(p: &PathPoint) -> (q: PathPoint)
    ensures
        q@ == p@,
{
    PathPoint { x: p.x.clone(), y: p.y.clone() }
}

/// One number token, which must read as a double.
fn read_number(tok: &mut Tokenizer) -> (r: Result<String, VectorFieldError>)
    requires
        old(tok).wf(),
    ensures
        final(tok).wf(),
        final(tok).input() == old(tok).input(),
        match r {
            Ok(t) => number_at(old(tok).input(), old(tok).position()) matches Ok((v, q)) && v == t@ && q
                == final(tok).position(),
            Err(e) => number_at(old(tok).input(), old(tok).position()) matches Err(f) && f == e@,
        },
{
    proof {
        tok.in_bounds();
        lemma_past_separators(tok.input(), tok.position());
    }
    tok.skip_separators();
    let p = tok.cursor();
    let text = tok.number();
    let e = tok.cursor();
    if float_literal_at(tok.input_bytes(), p, e) {
        Ok(text)
    } else {
        let mut m = string_of("not a number: \"");
        push_str(&mut m, text.as_str());
        push_str(&mut m, "\"");
        Err(VectorFieldError::MalformedPath(m))
    }
}

/// Two number tokens as a point.
fn read_point(tok: &mut Tokenizer) -> (r: Result<PathPoint, VectorFieldError>)
    requires
        old(tok).wf(),
    ensures
        final(tok).wf(),
        final(tok).input() == old(tok).input(),
        match r {
            Ok(pt) => point_at(old(tok).input(), old(tok).position()) matches Ok((v, q)) && v == pt@ && q
                == final(tok).position(),
            Err(e) => point_at(old(tok).input(), old(tok).position()) matches Err(f) && f == e@,
        },
{
    let x = read_number(tok)?;
    let y = read_number(tok)?;
    Ok(PathPoint { x, y })
}

/// Where the parse stands.
struct PathParse {
    contours: Vec<Vec<PathSegment>>,
    current: Vec<PathSegment>,
    start: PathPoint,
    cursor: PathPoint,
    have_start: bool,
}

impl View for PathParse {
    type V = PathParseView;

    closed spec fn view(&self) -> PathParseView {
        PathParseView {
            contours: contours_view(self.contours@),
            current: segments_view(self.current@),
            start: self.start@,
            cursor: self.cursor@,
            have_start: self.have_start,
        }
    }
}

fn close(st: &mut PathParse)
    ensures
        final(st)@ == close_contour(old(st)@),
{
    if st.current.len() > 0 {
        let ghost before = st@;
        let seg = PathSegment::Close(copy_point(&st.cursor), copy_point(&st.start));
        st.current.push(seg);
        let mut done: Vec<PathSegment> = Vec::new();
        std::mem::swap(&mut done, &mut st.current);
        let ghost dv = done@;
        st.contours.push(done);
        proof {
            assert(segments_view(dv) =~= before.current.push(
                PathSegmentView::Close(before.cursor, before.start),
            ));
            assert(contours_view(st.contours@) =~= before.contours.push(segments_view(dv)));
            assert(segments_view(st.current@) =~= Seq::<PathSegmentView>::empty());
        }
    }
}

fn push_line(st: &mut PathParse, to: PathPoint)
    ensures
        final(st)@ == line_to(old(st)@, to@),
{
    let ghost before = st@;
    let ghost tv = to@;
    let from = copy_point(&st.cursor);
    st.current.push(PathSegment::Line(from, copy_point(&to)));
    st.cursor = to;
    proof {
        assert(segments_view(st.current@) =~= before.current.push(
            PathSegmentView::Line(before.cursor, tv),
        ));
    }
}

fn push_curve(st: &mut PathParse, c1: PathPoint, c2: PathPoint, to: PathPoint)
    ensures
        final(st)@ == curve_to(old(st)@, c1@, c2@, to@),
{
    let ghost before = st@;
    let ghost tv = to@;
    let from = copy_point(&st.cursor);
    let ghost (v1, v2) = (c1@, c2@);
    st.current.push(PathSegment::Cubic(from, c1, c2, copy_point(&to)));
    st.cursor = to;
    proof {
        assert(segments_view(st.current@) =~= before.current.push(
            PathSegmentView::Cubic(before.cursor, v1, v2, tv),
        ));
    }
}

/// The points of a line run after its first, while numbers follow.
fn run_lines(tok: &mut Tokenizer, st: &mut PathParse) -> (r: Result<(), VectorFieldError>)
    requires
        old(tok).wf(),
    ensures
        final(tok).wf(),
        final(tok).input() == old(tok).input(),
        match r {
            Ok(()) => line_run(old(tok).input(), old(tok).position(), old(st)@) matches Ok((v, q))
                && v == final(st)@ && q == final(tok).position(),
            Err(e) => line_run(old(tok).input(), old(tok).position(), old(st)@) matches Err(f) && f
                == e@,
        },
{
    let ghost input = tok.input();
    let ghost want = line_run(input, tok.position(), st@);
    proof {
        tok.in_bounds();
    }
    loop
        invariant
            tok.wf(),
            tok.input() == input,
            input == old(tok).input(),
            0 <= old(tok).position() <= input.len(),
            want == line_run(input, old(tok).position(), old(st)@),
            0 <= tok.position() <= input.len(),
            want == line_run(input, tok.position(), st@),
        decreases input.len() - tok.position(),
    {
        let ghost here = tok.position();
        proof {
            lemma_past_separators(input, here);
            lemma_point_at(input, here);
        }
        if !tok.has_number() {
            return Ok(());
        }
        let to = match read_point(tok) {
            Ok(p) => p,
            Err(e) => return Err(e),
        };
        push_line(st, to);
        proof {
            tok.in_bounds();
        }
    }
}

/// The curves of a curve run after its first, while numbers follow.
fn run_curves(tok: &mut Tokenizer, st: &mut PathParse) -> (r: Result<(), VectorFieldError>)
    requires
        old(tok).wf(),
    ensures
        final(tok).wf(),
        final(tok).input() == old(tok).input(),
        match r {
            Ok(()) => curve_run(old(tok).input(), old(tok).position(), old(st)@) matches Ok((v, q))
                && v == final(st)@ && q == final(tok).position(),
            Err(e) => curve_run(old(tok).input(), old(tok).position(), old(st)@) matches Err(f) && f
                == e@,
        },
{
    let ghost input = tok.input();
    let ghost want = curve_run(input, tok.position(), st@);
    proof {
        tok.in_bounds();
    }
    loop
        invariant
            tok.wf(),
            tok.input() == input,
            input == old(tok).input(),
            0 <= old(tok).position() <= input.len(),
            want == curve_run(input, old(tok).position(), old(st)@),
            0 <= tok.position() <= input.len(),
            want == curve_run(input, tok.position(), st@),
        decreases input.len() - tok.position(),
    {
        let ghost here = tok.position();
        proof {
            lemma_past_separators(input, here);
            lemma_cubic_at(input, here);
        }
        if !tok.has_number() {
            return Ok(());
        }
        let ghost p = tok.position();
        let c1 = match read_point(tok) {
            Ok(v) => v,
            Err(e) => return Err(e),
        };
        let c2 = match read_point(tok) {
            Ok(v) => v,
            Err(e) => return Err(e),
        };
        let to = match read_point(tok) {
            Ok(v) => v,
            Err(e) => return Err(e),
        };
        push_curve(st, c1, c2, to);
        proof {
            tok.in_bounds();
        }
    }
}

/// What the command letter `c`, just read, does.
fn command(tok: &mut Tokenizer, st: &mut PathParse, c: char) -> (r: Result<(), VectorFieldError>)
    requires
        old(tok).wf(),
    ensures
        final(tok).wf(),
        final(tok).input() == old(tok).input(),
        match r {
            Ok(()) => command_step(old(tok).input(), old(tok).position(), old(st)@, c) matches Ok(
                (v, q),
            ) && v == final(st)@ && q == final(tok).position(),
            Err(e) => command_step(old(tok).input(), old(tok).position(), old(st)@, c) matches Err(
                f,
            ) && f == e@,
        },
{
    proof {
        tok.in_bounds();
    }
    if c == 'M' {
        let p0 = read_point(tok)?;
        proof {
            tok.in_bounds();
        }
        close(st);
        st.start = copy_point(&p0);
        st.cursor = p0;
        st.have_start = true;
        run_lines(tok, st)
    } else if c == 'L' {
        if !st.have_start {
            return Err(VectorFieldError::MalformedPath(string_of("L before M")));
        }
        let to = read_point(tok)?;
        proof {
            tok.in_bounds();
        }
        push_line(st, to);
        run_lines(tok, st)
    } else if c == 'C' {
        if !st.have_start {
            return Err(VectorFieldError::MalformedPath(string_of("C before M")));
        }
        let c1 = read_point(tok)?;
        let c2 = read_point(tok)?;
        let to = read_point(tok)?;
        proof {
            tok.in_bounds();
        }
        push_curve(st, c1, c2, to);
        run_curves(tok, st)
    } else if c == 'Z' {
        close(st);
        st.cursor = copy_point(&st.start);
        Ok(())
    } else {
        Err(VectorFieldError::UnsupportedCommand(c))
    }
}

/// Parses SVG path data into contours: `M` opens one, `L` and `C` extend
/// it, `Z` closes it back to its start, and the end of the data closes the
/// last. Any other command letter, a number token that does not read as a
/// double, an `L` or `C` before any `M`, or data that closes no contour is
/// refused by name.
pub fn parse_path(data: &str) -> (r: Result<Vec<Vec<PathSegment>>, VectorFieldError>)
    ensures
        match r {
            Ok(cs) => path_spec(data.spec_bytes()) matches Ok(v) && v == contours_view(cs@),
            Err(e) => path_spec(data.spec_bytes()) matches Err(f) && f == e@,
        },
{
    let mut tok = Tokenizer::new(data);
    let ghost input = tok.input();
    let mut st = PathParse {
        contours: Vec::new(),
        current: Vec::new(),
        start: PathPoint { x: string_of("0"), y: string_of("0") },
        cursor: PathPoint { x: string_of("0"), y: string_of("0") },
        have_start: false,
    };
    proof {
        assert(contours_view(st.contours@) =~= Seq::<Seq<PathSegmentView>>::empty());
        assert(segments_view(st.current@) =~= Seq::<PathSegmentView>::empty());
        assert(st@ == fresh_parse());
        tok.in_bounds();
    }
    loop
        invariant
            tok.wf(),
            tok.input() == input,
            input == data.spec_bytes(),
            0 <= tok.position() <= input.len(),
            path_spec(input) == path_commands(input, tok.position(), st@),
        decreases input.len() - tok.position(),
    {
        let ghost here = tok.position();
        proof {
            lemma_past_separators(input, here);
        }
        let cmd = match tok.next_command() {
            Ok(c) => c,
            Err(e) => return Err(e),
        };
        match cmd {
            None => {
                close(&mut st);
                if st.contours.len() == 0 {
                    return Err(VectorFieldError::DegenerateGeometry);
                }
                proof {
                    assert(st@.contours.len() == st.contours@.len());
                }
                return Ok(st.contours);
            },
            Some(c) => {
                proof {
                    tok.in_bounds();
                }
                let ghost before = st@;
                let ghost at = tok.position();
                match command(&mut tok, &mut st, c) {
                    Ok(()) => {},
                    Err(e) => return Err(e),
                }
                proof {
                    tok.in_bounds();
                    lemma_command_step(input, at, before, c);
                }
            },
        }
    }
}

} // verus!
