//! The Figma front end's decisions that read the REST file as plain values:
//! the depth guard in front of the parser, a frame's auto-layout container
//! and a child's constraints, grid track tokens, the winding rule a vector's
//! contours share, sibling path segments, and the vector refusals. The
//! lowering entry points themselves live in `lower`.
//!
//! A node is held as what these decisions read; every length is the bit
//! pattern of its IEEE-754 single-precision value.
use vstd::prelude::*;
use vstd::string::StringSliceAdditionalSpecFns;

use crate::document::{
    default_constraints, AxisSizing, Box2D, Color, CrossAxisAlign, EdgeInsets, GridTrack, LayoutConstraints,
    LayoutContainer, LayoutContainerView, LayoutMode, MainAxisAlign,
};
use crate::vector::{VectorFieldError, WindingRule};
pub use crate::lower::{lower, lower_with_bindings, lower_with_bindings_and_policy};
use crate::text::{lemma_lex_total, lemma_lex_transitive, lex_lt, str_lt, chars_match_at, chars_of, opt_chars, push_char, push_decimal, push_str, str_eq, string_of, string_of_chars, decimal, strings_view};

verus! {

/// One grid track token of a serialized track string, and the track it
/// lowers to, if any.
#[derive(Clone, Debug)]
pub struct GridToken {
    pub text: String,
    pub track: Option<GridTrack>,
}

/// A vector's contour: its SVG-style path and Figma's winding rule name.
#[derive(Clone, Debug)]
pub struct Geometry {
    pub path: String,
    pub winding_rule: Option<String>,
}

/// The stroke's shape family (`BASIC`, `DASHED`, ...).
#[derive(Clone, Debug)]
pub struct ComplexStrokeProperties {
    pub stroke_type: Option<String>,
}

/// A point of a paint's handle space.
#[derive(Clone, Copy, Debug, PartialEq, Eq, Structural)]
pub struct Point {
    pub x: u32,
    pub y: u32,
}

/// A gradient stop: where along the gradient, and its colour.
#[derive(Clone, Copy, Debug, PartialEq, Eq, Structural)]
pub struct GradientStop {
    pub position: u32,
    pub color: Color,
}

/// A paint, as the triage, the image census and the paint and stroke
/// lowerings read it; its colour as bit patterns.
#[derive(Clone, Debug)]
pub struct FigmaPaint {
    pub kind: String,
    pub blend_mode: Option<String>,
    pub visible: Option<bool>,
    /// Multiplies the alpha of the paint's colours; absent is opaque.
    pub opacity: Option<u32>,
    pub image_ref: Option<String>,
    pub color: Option<Color>,
    /// A gradient's handles, `(x, y)`: origin, primary-axis end,
    /// secondary-axis end, normalized to the node's box.
    pub gradient_handle_positions: Vec<Point>,
    /// A gradient's stops.
    pub gradient_stops: Vec<GradientStop>,
    /// An image fill's scale mode.
    pub scale_mode: Option<String>,
    /// An image fill's crop affine, row-major: `a, b, tx, c, d, ty`.
    pub image_transform: Option<[u32; 6]>,
    /// An image fill's tile magnification.
    pub scaling_factor: Option<u32>,
}

/// An effect, as the triage reads it.
#[derive(Clone, Debug)]
pub struct FigmaEffect {
    pub kind: String,
    pub visible: Option<bool>,
    pub blur_type: Option<String>,
    pub blend_mode: Option<String>,
    pub color: Option<Color>,
    pub offset: Option<Point>,
    pub radius: Option<u32>,
    pub spread: Option<u32>,
}

/// A frame's and a child's layout fields, lengths as bit patterns. The grid
/// track strings arrive split into tokens, each read as a track.
#[derive(Clone, Debug)]
pub struct FigmaLayout {
    pub layout_mode: Option<String>,
    pub layout_wrap: Option<String>,
    pub item_spacing: Option<u32>,
    pub padding_left: Option<u32>,
    pub padding_right: Option<u32>,
    pub padding_top: Option<u32>,
    pub padding_bottom: Option<u32>,
    pub primary_axis_align_items: Option<String>,
    pub counter_axis_align_items: Option<String>,
    pub counter_axis_spacing: Option<u32>,
    pub counter_axis_align_content: Option<String>,
    pub layout_sizing_horizontal: Option<String>,
    pub layout_sizing_vertical: Option<String>,
    pub min_width: Option<u32>,
    pub max_width: Option<u32>,
    pub min_height: Option<u32>,
    pub max_height: Option<u32>,
    pub grid_row_gap: Option<u32>,
    pub grid_column_gap: Option<u32>,
    pub grid_columns_sizing: Option<Vec<GridToken>>,
    pub grid_rows_sizing: Option<Vec<GridToken>>,
    pub grid_row_anchor_index: Option<u16>,
    pub grid_column_anchor_index: Option<u16>,
    pub grid_row_span: Option<u16>,
    pub grid_column_span: Option<u16>,
    /// The text style's `textAutoResize`, for a `TEXT` node with a style.
    pub text_auto_resize: Option<String>,
}

impl Default for FigmaLayout {
    /// No layout field set: a node outside any auto-layout.
    fn default() -> (l: Self)
        ensures
            l.layout_mode is None && l.layout_wrap is None && l.item_spacing is None
                && l.padding_left is None && l.padding_right is None && l.padding_top is None
                && l.padding_bottom is None && l.primary_axis_align_items is None
                && l.counter_axis_align_items is None && l.counter_axis_spacing is None
                && l.counter_axis_align_content is None && l.layout_sizing_horizontal is None
                && l.layout_sizing_vertical is None && l.min_width is None && l.max_width is None
                && l.min_height is None && l.max_height is None && l.grid_row_gap is None
                && l.grid_column_gap is None && l.grid_columns_sizing is None
                && l.grid_rows_sizing is None && l.grid_row_anchor_index is None
                && l.grid_column_anchor_index is None && l.grid_row_span is None
                && l.grid_column_span is None && l.text_auto_resize is None,
    {
        FigmaLayout {
            layout_mode: None,
            layout_wrap: None,
            item_spacing: None,
            padding_left: None,
            padding_right: None,
            padding_top: None,
            padding_bottom: None,
            primary_axis_align_items: None,
            counter_axis_align_items: None,
            counter_axis_spacing: None,
            counter_axis_align_content: None,
            layout_sizing_horizontal: None,
            layout_sizing_vertical: None,
            min_width: None,
            max_width: None,
            min_height: None,
            max_height: None,
            grid_row_gap: None,
            grid_column_gap: None,
            grid_columns_sizing: None,
            grid_rows_sizing: None,
            grid_row_anchor_index: None,
            grid_column_anchor_index: None,
            grid_row_span: None,
            grid_column_span: None,
            text_auto_resize: None,
        }
    }
}

/// A `TEXT` node's base style as the text lowering reads it: lengths as bit
/// patterns, the weight already rounded to an integer, the hyperlink by its
/// presence, and each OpenType flag by name with its integer value, if it
/// has one.
#[derive(Clone, Debug)]
pub struct FigmaTextStyle {
    pub font_family: String,
    pub font_size: u32,
    pub font_weight: Option<u16>,
    pub font_style: Option<String>,
    pub text_align_horizontal: Option<String>,
    pub text_align_vertical: Option<String>,
    pub line_height_unit: Option<String>,
    pub line_height_px: Option<u32>,
    pub letter_spacing: Option<u32>,
    pub text_decoration: Option<String>,
    pub text_case: Option<String>,
    pub text_auto_resize: String,
    pub hyperlink: bool,
    pub opentype_flags: Vec<(String, Option<i64>)>,
}

/// Which way a `relativeTransform` faces, by the sign of its determinant:
/// positive, negative, or zero.
#[derive(Clone, Copy, Debug, PartialEq, Eq, Structural)]
pub enum Handedness {
    Upright,
    Mirrored,
    Collapsed,
}

/// An ellipse's arc: its sweep's two angles and its inner radius (bit
/// patterns).
#[derive(Clone, Copy, Debug, PartialEq, Eq, Structural)]
pub struct ArcData {
    pub starting_angle: u32,
    pub ending_angle: u32,
    pub inner_radius: u32,
}

/// A JSON value as the file carries it: a number by the kind it was read
/// as, a float by its double-precision bit pattern, and an object's members
/// in key order.
#[derive(Debug)]
pub enum Json {
    Null,
    Bool(bool),
    PosInt(u64),
    NegInt(i64),
    Float(u64),
    Str(String),
    Array(Vec<Json>),
    Object(Vec<JsonMember>),
}

/// One member of a JSON object.
#[derive(Debug)]
pub struct JsonMember {
    pub key: String,
    pub value: Json,
}

/// What a layer carries that only the structural comparison of two variant
/// members reads: the handedness of its transform, its vector geometry, the
/// stroke and corner scalars, the arc, clipping and opacity, the grid track
/// strings as authored, and the parts of its text style and per-character
/// styles that the text lowering reads only in part.
#[derive(Debug)]
pub struct ComparedFields {
    /// Absent when the file carries no `relativeTransform`.
    pub handedness: Option<Handedness>,
    pub fill_geometry: Vec<Geometry>,
    pub stroke_geometry: Vec<Geometry>,
    pub stroke_weight: Option<u32>,
    pub corner_radius: Option<u32>,
    pub rectangle_corner_radii: Option<[u32; 4]>,
    pub arc_data: Option<ArcData>,
    pub clips_content: bool,
    pub opacity: Option<u32>,
    pub grid_columns_sizing: Option<String>,
    pub grid_rows_sizing: Option<String>,
    /// The style's weight as authored (bit pattern).
    pub style_font_weight: Option<u32>,
    pub style_hyperlink: Option<Json>,
    pub style_opentype_flags: Vec<JsonMember>,
    pub style_override_table: Vec<JsonMember>,
}

impl ComparedFields {
    /// Nothing carried: no transform, geometry, scalar or style extra.
    pub fn none() -> (c: Self)
        ensures
            c.handedness is None,
            c.fill_geometry@.len() == 0,
            c.stroke_geometry@.len() == 0,
            c.stroke_weight is None,
            c.corner_radius is None,
            c.rectangle_corner_radii is None,
            c.arc_data is None,
            !c.clips_content,
            c.opacity is None,
            c.grid_columns_sizing is None,
            c.grid_rows_sizing is None,
            c.style_font_weight is None,
            c.style_hyperlink is None,
            c.style_opentype_flags@.len() == 0,
            c.style_override_table@.len() == 0,
    {
        ComparedFields {
            handedness: None,
            fill_geometry: Vec::new(),
            stroke_geometry: Vec::new(),
            stroke_weight: None,
            corner_radius: None,
            rectangle_corner_radii: None,
            arc_data: None,
            clips_content: false,
            opacity: None,
            grid_columns_sizing: None,
            grid_rows_sizing: None,
            style_font_weight: None,
            style_hyperlink: None,
            style_opentype_flags: Vec::new(),
            style_override_table: Vec::new(),
        }
    }
}

/// A vector's bake of one selection of its geometry, as the reader worked
/// it out: the path's geometry key and its hash (or why the path does not
/// parse), and whether the field bakes (or why not).
#[derive(Debug)]
pub struct Bake {
    pub key: Result<(Vec<u64>, u64), VectorFieldError>,
    pub baked: Result<(), VectorFieldError>,
}

/// A vector's bakes, one per geometry the lowering may select: its fill
/// geometry, its stroke geometry, and the two joined.
#[derive(Debug)]
pub struct VectorBakes {
    pub fill: Bake,
    pub stroke: Bake,
    pub both: Bake,
}

/// What an ellipse's geometry says, read in floating point against real
/// capture noise: whether its arc sweeps less than a full turn, whether it
/// has an inner radius, whether its two extents agree, and its circle
/// radius (half the larger extent, bits).
#[derive(Clone, Copy, Debug)]
pub struct EllipseFacts {
    pub partial_sweep: bool,
    pub ring: bool,
    pub circular: bool,
    pub radius: u32,
}

/// What the lowering walk reads of a node beyond the fields its decisions
/// read: whether it is shown, and the values only floating point can work
/// out, worked out where the file is read. The node's own top-left is its
/// box's top-left less its rotated bounds' offset; `offset_in_parent` is
/// that origin less the parent's box origin (when both boxes are there).
/// `opacity` is the node's opacity (one when absent) clamped to `[0, 1]`;
/// `turn` is the angle the node turns by (its rotation, or the angle of
/// its transform when it has none); `props_offset` is its top-left, turned
/// by `turn`, less its parent's box origin (when both boxes are there);
/// `transform` is the linear part of its transform (`m00, m01, m10, m11`);
/// `orientation`, on a component set, holds for each member after the
/// first and each of the members' paths (in the order `orientation_pairs`
/// lists them) whether that member's layer there faces the way the first
/// member's does, each transform's columns scaled to unit length;
/// `fill_colors` and
/// `stroke_colors` are each fill's and stroke's colour with its alpha
/// multiplied by the paint's opacity.
#[derive(Debug)]
pub struct WalkFacts {
    pub visible: Option<bool>,
    pub opacity: u32,
    pub offset_in_parent: Option<(u32, u32)>,
    pub turn: u32,
    pub props_offset: Option<(u32, u32)>,
    pub transform: Option<[u32; 4]>,
    pub orientation: Vec<Vec<bool>>,
    pub fill_colors: Vec<Option<Color>>,
    pub stroke_colors: Vec<Option<Color>>,
    pub ellipse: EllipseFacts,
    pub bakes: VectorBakes,
}

impl WalkFacts {
    /// A shown, opaque node at its parent's origin, with no fill colour,
    /// a full circle of radius zero, and no path to bake.
    pub fn plain() -> (f: Self)
        ensures
            f.visible is None,
            f.opacity == 0x3f80_0000,
    {
        WalkFacts {
            visible: None,
            opacity: 0x3f80_0000,
            offset_in_parent: Some((0, 0)),
            turn: 0,
            props_offset: Some((0, 0)),
            transform: None,
            orientation: Vec::new(),
            fill_colors: Vec::new(),
            stroke_colors: Vec::new(),
            ellipse: EllipseFacts { partial_sweep: false, ring: false, circular: true, radius: 0 },
            bakes: VectorBakes {
                fill: Bake { key: Err(VectorFieldError::DegenerateGeometry), baked: Ok(()) },
                stroke: Bake { key: Err(VectorFieldError::DegenerateGeometry), baked: Ok(()) },
                both: Bake { key: Err(VectorFieldError::DegenerateGeometry), baked: Ok(()) },
            },
        }
    }
}

/// One node of the Figma file, as these decisions read it.
#[derive(Debug)]
pub struct FigmaNode {
    pub id: Option<String>,
    pub name: String,
    pub kind: String,
    pub children: Vec<FigmaNode>,
    pub fills: Vec<FigmaPaint>,
    pub strokes: Vec<FigmaPaint>,
    pub effects: Vec<FigmaEffect>,
    pub blend_mode: Option<String>,
    pub corner_smoothing: Option<u32>,
    pub layout: FigmaLayout,
    /// The page-absolute box Figma reports (bit patterns).
    pub absolute_bounding_box: Option<Box2D>,
    /// The turn in radians (bit pattern); absent when unrotated.
    pub rotation: Option<u32>,
    /// The node's own extent (bit patterns of width and height).
    pub size: Option<(u32, u32)>,
    pub is_mask: Option<bool>,
    pub mask_type: Option<String>,
    pub section_contents_hidden: Option<bool>,
    pub layout_positioning: Option<String>,
    pub strokes_included_in_layout: Option<bool>,
    pub item_reverse_z_index: Option<bool>,
    pub complex_stroke_properties: Option<ComplexStrokeProperties>,
    /// The dash pattern (bit patterns); absent or empty for a continuous stroke.
    pub stroke_dashes: Option<Vec<u32>>,
    pub stroke_align: Option<String>,
    pub characters: Option<String>,
    pub style: Option<FigmaTextStyle>,
    /// How many entries the node's `styleOverrideTable` holds.
    pub style_overrides: usize,
    /// The component an `INSTANCE` shows.
    pub component_id: Option<String>,
    pub compared: ComparedFields,
    pub facts: WalkFacts,
    /// The prototype interactions authored on the node.
    pub interactions: Vec<crate::prototype::Interaction>,
}

// ---------------------------------------------------------------- depth guard

/// The scanner's state after some bytes: depth, deepest so far, and whether
/// it is inside a string literal, just after a backslash there.
pub struct DepthScan {
    pub depth: nat,
    pub max: nat,
    pub in_string: bool,
    pub escaped: bool,
}

pub open spec fn depth_step(st: DepthScan, b: u8) -> DepthScan {
    if st.in_string {
        if st.escaped {
            DepthScan { escaped: false, ..st }
        } else if b == 92u8 {
            DepthScan { escaped: true, ..st }
        } else if b == 34u8 {
            DepthScan { in_string: false, ..st }
        } else {
            st
        }
    } else if b == 34u8 {
        DepthScan { in_string: true, ..st }
    } else if b == 123u8 || b == 91u8 {
        let d = st.depth + 1;
        DepthScan { depth: d, max: if st.max >= d { st.max } else { d }, ..st }
    } else if b == 125u8 || b == 93u8 {
        DepthScan { depth: if st.depth == 0 { 0 } else { (st.depth - 1) as nat }, ..st }
    } else {
        st
    }
}

pub open spec fn depth_scan(bytes: Seq<u8>) -> DepthScan
    decreases bytes.len(),
{
    if bytes.len() == 0 {
        DepthScan { depth: 0, max: 0, in_string: false, escaped: false }
    } else {
        depth_step(depth_scan(bytes.drop_last()), bytes.last())
    }
}

// ---------------------------------------------------------------- what depth is

/// Whether `b` opens a level: `{` or `[`.
pub open spec fn opener(b: u8) -> bool {
    b == 123u8 || b == 91u8
}

/// Whether `b` closes a level: `}` or `]`.
pub open spec fn closer(b: u8) -> bool {
    b == 125u8 || b == 93u8
}

/// The openers of `s` less its closers.
pub open spec fn level(s: Seq<u8>) -> int
    decreases s.len(),
{
    if s.len() == 0 {
        0
    } else {
        level(s.drop_last()) + if opener(s.last()) {
            1int
        } else if closer(s.last()) {
            -1int
        } else {
            0int
        }
    }
}

/// The highest level any prefix of `s` reaches.
pub open spec fn deepest(s: Seq<u8>) -> int
    decreases s.len(),
{
    if s.len() == 0 {
        0
    } else {
        let d = deepest(s.drop_last());
        if level(s) > d {
            level(s)
        } else {
            d
        }
    }
}

/// JSON text with no string literal in it: no quote, no backslash.
pub open spec fn no_strings(s: Seq<u8>) -> bool {
    forall|i: int| 0 <= i < s.len() ==> #[trigger] s[i] != 34u8 && s[i] != 92u8
}

/// No prefix of `s` closes more levels than it opened.
pub open spec fn never_overclosed(s: Seq<u8>) -> bool {
    forall|i: int| 0 <= i <= s.len() ==> level(#[trigger] s.take(i)) >= 0
}

/// The depth of a text without strings that never closes a level it did
/// not open is the maximum open-bracket nesting any point of it reaches:
/// each `{` or `[` opens a level and each `}` or `]` closes one, so
/// sibling containers do not add up.
pub proof fn depth_is_deepest_nesting(s: Seq<u8>)
    requires
        no_strings(s),
        never_overclosed(s),
    ensures
        depth_scan(s).max == deepest(s),
        depth_scan(s).depth == level(s),
        !depth_scan(s).in_string,
    decreases s.len(),
{
    if s.len() > 0 {
        let p = s.drop_last();
        assert forall|i: int| 0 <= i < p.len() implies #[trigger] p[i] != 34u8 && p[i] != 92u8 by {
            assert(p[i] == s[i]);
        }
        assert forall|i: int| 0 <= i <= p.len() implies level(#[trigger] p.take(i)) >= 0 by {
            assert(p.take(i) =~= s.take(i));
        }
        depth_is_deepest_nesting(p);
        assert(s.take(s.len() as int) =~= s);
        assert(level(s) >= 0);
        assert(s.last() == s[s.len() - 1]);
        assert(depth_scan(p).max >= depth_scan(p).depth) by {
            lemma_max_reaches_depth(p);
        }
    }
}

proof fn lemma_max_reaches_depth(s: Seq<u8>)
    ensures
        depth_scan(s).max >= depth_scan(s).depth,
    decreases s.len(),
{
    if s.len() > 0 {
        lemma_max_reaches_depth(s.drop_last());
    }
}

/// The scan of `b` picked up from state `st`.
pub open spec fn scan_from(st: DepthScan, b: Seq<u8>) -> DepthScan
    decreases b.len(),
{
    if b.len() == 0 {
        st
    } else {
        depth_step(scan_from(st, b.drop_last()), b.last())
    }
}

proof fn lemma_scan_concat(a: Seq<u8>, b: Seq<u8>)
    ensures
        depth_scan(a + b) == scan_from(depth_scan(a), b),
    decreases b.len(),
{
    if b.len() == 0 {
        assert(a + b =~= a);
    } else {
        lemma_scan_concat(a, b.drop_last());
        assert((a + b).drop_last() =~= a + b.drop_last());
        assert((a + b).last() == b.last());
    }
}

/// Scanning `b` from a closed state that has reached `m` is scanning it
/// afresh, the deepest level being the greater of `m` and `b`'s own.
proof fn lemma_scan_from_closed(m: nat, b: Seq<u8>)
    ensures
        ({
            let r = scan_from(DepthScan { depth: 0, max: m, in_string: false, escaped: false }, b);
            let f = depth_scan(b);
            &&& r.depth == f.depth
            &&& r.in_string == f.in_string
            &&& r.escaped == f.escaped
            &&& r.max == if m >= f.max { m } else { f.max }
        }),
    decreases b.len(),
{
    if b.len() > 0 {
        lemma_scan_from_closed(m, b.drop_last());
        lemma_max_reaches_depth(b.drop_last());
    }
}

/// Sibling texts do not add up: after a text that closes every level it
/// opened, outside any string, the depth of what follows is its own, and
/// the whole reaches the deeper of the two.
pub proof fn siblings_do_not_add_up(a: Seq<u8>, b: Seq<u8>)
    requires
        depth_scan(a).depth == 0,
        !depth_scan(a).in_string,
    ensures
        depth_scan(a + b).max == if depth_scan(a).max >= depth_scan(b).max {
            depth_scan(a).max
        } else {
            depth_scan(b).max
        },
        depth_scan(a + b).depth == depth_scan(b).depth,
{
    lemma_scan_concat(a, b);
    lemma_not_escaped_outside(a);
    lemma_scan_from_closed(depth_scan(a).max, b);
}

proof fn lemma_not_escaped_outside(s: Seq<u8>)
    ensures
        !depth_scan(s).in_string ==> !depth_scan(s).escaped,
    decreases s.len(),
{
    if s.len() > 0 {
        lemma_not_escaped_outside(s.drop_last());
    }
}

/// A string literal adds no depth, whatever brackets it holds: after a
/// text outside any string, a quoted run of bytes with no quote or
/// backslash in it leaves the depth and the deepest level as they were.
pub proof fn brackets_in_a_string_do_not_nest(a: Seq<u8>, body: Seq<u8>)
    requires
        !depth_scan(a).in_string,
        forall|i: int| 0 <= i < body.len() ==> #[trigger] body[i] != 34u8 && body[i] != 92u8,
    ensures
        depth_scan(a + seq![34u8] + body + seq![34u8]).depth == depth_scan(a).depth,
        depth_scan(a + seq![34u8] + body + seq![34u8]).max == depth_scan(a).max,
        !depth_scan(a + seq![34u8] + body + seq![34u8]).in_string,
{
    lemma_not_escaped_outside(a);
    let q = seq![34u8];
    lemma_scan_concat(a, q);
    assert(q.drop_last() =~= Seq::<u8>::empty());
    assert(q.last() == 34u8);
    assert(scan_from(depth_scan(a), q.drop_last()) == depth_scan(a));
    let s1 = depth_scan(a + q);
    assert(s1 == depth_step(depth_scan(a), 34u8));
    assert(s1.in_string && !s1.escaped && s1.depth == depth_scan(a).depth && s1.max == depth_scan(a).max);
    lemma_scan_concat(a + q, body);
    lemma_string_body(s1, body);
    lemma_scan_concat(a + q + body, q);
    assert(scan_from(s1, q.drop_last()) == s1);
    assert(depth_scan(a + q + body + q) == depth_step(s1, 34u8));
}

proof fn lemma_string_body(st: DepthScan, body: Seq<u8>)
    requires
        st.in_string,
        !st.escaped,
        forall|i: int| 0 <= i < body.len() ==> #[trigger] body[i] != 34u8 && body[i] != 92u8,
    ensures
        scan_from(st, body) == st,
    decreases body.len(),
{
    if body.len() > 0 {
        let p = body.drop_last();
        assert forall|i: int| 0 <= i < p.len() implies #[trigger] p[i] != 34u8 && p[i] != 92u8 by {
            assert(p[i] == body[i]);
        }
        lemma_string_body(st, p);
        assert(body.last() == body[body.len() - 1]);
    }
}

/// The maximum `{`/`[` nesting depth of `json`, by a linear scan. A brace
/// inside a string literal does not nest, and a closer at depth zero stays
/// at zero: it measures depth, and the parser proper reports everything
/// else.
pub fn json_depth(json: &str) -> (depth: usize)
    ensures
        depth == depth_scan(json.spec_bytes()).max,
        no_strings(json.spec_bytes()) && never_overclosed(json.spec_bytes()) ==> depth == deepest(json.spec_bytes()),
{
    proof {
        if no_strings(json.spec_bytes()) && never_overclosed(json.spec_bytes()) {
            depth_is_deepest_nesting(json.spec_bytes());
        }
    }
    let bytes = json.as_bytes();
    let mut depth: usize = 0;
    let mut max: usize = 0;
    let mut in_string = false;
    let mut escaped = false;
    let mut i: usize = 0;
    proof {
        assert(bytes@.take(0) =~= Seq::<u8>::empty());
    }
    while i < bytes.len()
        invariant
            i <= bytes@.len(),
            bytes@ == json.spec_bytes(),
            depth <= i,
            max <= i,
            ({
                let st = depth_scan(bytes@.take(i as int));
                st.depth == depth && st.max == max && st.in_string == in_string && st.escaped == escaped
            }),
        decreases bytes@.len() - i,
    {
        let b = bytes[i];
        if in_string {
            if escaped {
                escaped = false;
            } else if b == 92u8 {
                escaped = true;
            } else if b == 34u8 {
                in_string = false;
            }
        } else if b == 34u8 {
            in_string = true;
        } else if b == 123u8 || b == 91u8 {
            depth = depth + 1;
            if max < depth {
                max = depth;
            }
        } else if b == 125u8 || b == 93u8 {
            if depth > 0 {
                depth = depth - 1;
            }
        }
        proof {
            assert(bytes@.take(i + 1).drop_last() =~= bytes@.take(i as int));
        }
        i = i + 1;
    }
    proof {
        assert(bytes@.take(i as int) =~= bytes@);
    }
    max
}

// ---------------------------------------------------------- whitespace, tokens

/// Unicode `White_Space`, what `char::is_whitespace` tests.
pub open spec fn is_white_space(c: char) -> bool {
    let u = c as u32;
    (0x09 <= u && u <= 0x0d) || u == 0x20 || u == 0x85 || u == 0xa0 || u == 0x1680 || (0x2000 <= u
        && u <= 0x200a) || u == 0x2028 || u == 0x2029 || u == 0x202f || u == 0x205f || u == 0x3000
}

pub fn is_whitespace(c: char) -> (r: bool)
    ensures
        r == is_white_space(c),
{
    let u = c as u32;
    (0x09 <= u && u <= 0x0d) || u == 0x20 || u == 0x85 || u == 0xa0 || u == 0x1680 || (0x2000 <= u
        && u <= 0x200a) || u == 0x2028 || u == 0x2029 || u == 0x202f || u == 0x205f || u == 0x3000
}

/// The splitter's state after some characters: the parenthesis depth, the
/// tokens closed so far, and the open token, if one has started.
pub struct SplitScan {
    pub depth: nat,
    pub tokens: Seq<Seq<char>>,
    pub open: Option<Seq<char>>,
}

pub open spec fn split_step(st: SplitScan, c: char) -> SplitScan {
    let depth: nat = if c == '(' {
        st.depth + 1
    } else if c == ')' {
        if st.depth == 0 { 0 } else { (st.depth - 1) as nat }
    } else {
        st.depth
    };
    if is_white_space(c) && depth == 0 {
        match st.open {
            Some(t) => SplitScan { depth, tokens: st.tokens.push(t), open: None },
            None => SplitScan { depth, tokens: st.tokens, open: None },
        }
    } else {
        match st.open {
            Some(t) => SplitScan { depth, tokens: st.tokens, open: Some(t.push(c)) },
            None => SplitScan { depth, tokens: st.tokens, open: Some(seq![c]) },
        }
    }
}

pub open spec fn split_scan(s: Seq<char>) -> SplitScan
    decreases s.len(),
{
    if s.len() == 0 {
        SplitScan { depth: 0, tokens: Seq::empty(), open: None }
    } else {
        split_step(split_scan(s.drop_last()), s.last())
    }
}

/// The tokens of `s` split on whitespace outside any parentheses.
pub open spec fn top_level_tokens(s: Seq<char>) -> Seq<Seq<char>> {
    let st = split_scan(s);
    match st.open {
        Some(t) => st.tokens.push(t),
        None => st.tokens,
    }
}

/// Splits a track string on top-level whitespace, outside any parentheses,
/// so a `minmax(0, 1fr)` stays one token.
pub fn split_top_level_whitespace(s: &str) -> (tokens: Vec<String>)
    ensures
        strings_view(tokens@) == top_level_tokens(s@),
{
    let cs = chars_of(s);
    let mut tokens: Vec<String> = Vec::new();
    let mut depth: usize = 0;
    let mut open: Option<String> = None;
    let mut i: usize = 0;
    proof {
        assert(cs@.take(0) =~= Seq::<char>::empty());
        assert(strings_view(tokens@) =~= Seq::<Seq<char>>::empty());
    }
    while i < cs.len()
        invariant
            i <= cs@.len(),
            cs@ == s@,
            depth <= i,
            ({
                let st = split_scan(cs@.take(i as int));
                &&& st.depth == depth
                &&& st.tokens == strings_view(tokens@)
                &&& st.open == opt_chars(open)
            }),
        decreases cs@.len() - i,
    {
        let c = cs[i];
        if c == '(' {
            depth = depth + 1;
        } else if c == ')' {
            if depth > 0 {
                depth = depth - 1;
            }
        }
        if is_whitespace(c) && depth == 0 {
            match open {
                Some(t) => {
                    let ghost before = tokens@;
                    let ghost tv = t@;
                    tokens.push(t);
                    proof {
                        assert(strings_view(tokens@) =~= strings_view(before).push(tv));
                    }
                },
                None => {},
            }
            open = None;
        } else {
            match open {
                Some(mut t) => {
                    push_char(&mut t, c);
                    open = Some(t);
                },
                None => {
                    let mut t = String::new();
                    push_char(&mut t, c);
                    proof {
                        assert(t@ =~= seq![c]);
                    }
                    open = Some(t);
                },
            }
        }
        proof {
            assert(cs@.take(i + 1).drop_last() =~= cs@.take(i as int));
            assert(cs@.take(i + 1).last() == c);
        }
        i = i + 1;
    }
    proof {
        assert(cs@.take(i as int) =~= s@);
    }
    match open {
        Some(t) => {
            let ghost before = tokens@;
            let ghost tv = t@;
            tokens.push(t);
            proof {
                assert(strings_view(tokens@) =~= strings_view(before).push(tv));
            }
        },
        None => {},
    }
    tokens
}

// ---------------------------------------------------------------- trimming

/// `s` without its leading `White_Space`.
pub open spec fn trim_start(s: Seq<char>) -> Seq<char>
    decreases s.len(),
{
    if s.len() > 0 && is_white_space(s[0]) {
        trim_start(s.subrange(1, s.len() as int))
    } else {
        s
    }
}

/// `s` without its trailing `White_Space`.
pub open spec fn trim_end(s: Seq<char>) -> Seq<char>
    decreases s.len(),
{
    if s.len() > 0 && is_white_space(s.last()) {
        trim_end(s.drop_last())
    } else {
        s
    }
}

/// What `str::trim` leaves of `s`.
pub open spec fn trim(s: Seq<char>) -> Seq<char> {
    trim_end(trim_start(s))
}

proof fn lemma_trim_start_skip(s: Seq<char>, i: int)
    requires
        0 <= i <= s.len(),
        forall|k: int| 0 <= k < i ==> is_white_space(#[trigger] s[k]),
    ensures
        trim_start(s) == trim_start(s.subrange(i, s.len() as int)),
    decreases i,
{
    if i == 0 {
        assert(s.subrange(0, s.len() as int) =~= s);
    } else {
        let t = s.subrange(1, s.len() as int);
        assert forall|k: int| 0 <= k < i - 1 implies is_white_space(#[trigger] t[k]) by {
            assert(t[k] == s[k + 1]);
        }
        lemma_trim_start_skip(t, i - 1);
        assert(t.subrange(i - 1, t.len() as int) =~= s.subrange(i, s.len() as int));
    }
}

proof fn lemma_trim_end_cut(s: Seq<char>, j: int)
    requires
        0 <= j <= s.len(),
        forall|k: int| j <= k < s.len() ==> is_white_space(#[trigger] s[k]),
    ensures
        trim_end(s) == trim_end(s.subrange(0, j)),
    decreases s.len() - j,
{
    if j == s.len() {
        assert(s.subrange(0, j) =~= s);
    } else {
        let t = s.drop_last();
        assert forall|k: int| j <= k < t.len() implies is_white_space(#[trigger] t[k]) by {
            assert(t[k] == s[k]);
        }
        lemma_trim_end_cut(t, j);
        assert(t.subrange(0, j) =~= s.subrange(0, j));
    }
}

/// The bounds of `v[lo..hi]` trimmed of `White_Space` at both ends.
fn trim_range(v: &Vec<char>, lo: usize, hi: usize) -> (r: (usize, usize))
    requires
        lo <= hi <= v@.len(),
    ensures
        lo <= r.0 <= r.1 <= hi,
        v@.subrange(r.0 as int, r.1 as int) == trim(v@.subrange(lo as int, hi as int)),
{
    let ghost x = v@.subrange(lo as int, hi as int);
    let mut a = lo;
    while a < hi && is_whitespace(v[a])
        invariant
            lo <= a <= hi <= v@.len(),
            x == v@.subrange(lo as int, hi as int),
            forall|k: int| lo <= k < a ==> is_white_space(#[trigger] v@[k]),
        decreases hi - a,
    {
        a = a + 1;
    }
    proof {
        assert forall|k: int| 0 <= k < a - lo implies is_white_space(#[trigger] x[k]) by {
            assert(x[k] == v@[lo + k]);
        }
        lemma_trim_start_skip(x, a - lo);
        let y = x.subrange(a - lo, x.len() as int);
        assert(y =~= v@.subrange(a as int, hi as int));
        if a < hi {
            assert(y[0] == v@[a as int]);
        }
        assert(trim_start(y) == y);
    }
    let mut b = hi;
    while b > a && is_whitespace(v[b - 1])
        invariant
            lo <= a <= b <= hi <= v@.len(),
            forall|k: int| b <= k < hi ==> is_white_space(#[trigger] v@[k]),
        decreases b - a,
    {
        b = b - 1;
    }
    proof {
        let y = v@.subrange(a as int, hi as int);
        assert forall|k: int| b - a <= k < y.len() implies is_white_space(#[trigger] y[k]) by {
            assert(y[k] == v@[a + k]);
        }
        lemma_trim_end_cut(y, b - a);
        let z = y.subrange(0, b - a);
        assert(z =~= v@.subrange(a as int, b as int));
        if b > a {
            assert(z.last() == v@[b - 1]);
        }
        assert(trim_end(z) == z);
    }
    (a, b)
}

// ------------------------------------------------------- grid track tokens

pub open spec fn strip_suffix(s: Seq<char>, suffix: Seq<char>) -> Option<Seq<char>> {
    if s.len() >= suffix.len() && s.subrange(s.len() - suffix.len(), s.len() as int) == suffix {
        Some(s.subrange(0, s.len() - suffix.len()))
    } else {
        None
    }
}

pub open spec fn strip_prefix(s: Seq<char>, prefix: Seq<char>) -> Option<Seq<char>> {
    if s.len() >= prefix.len() && s.subrange(0, prefix.len() as int) == prefix {
        Some(s.subrange(prefix.len() as int, s.len() as int))
    } else {
        None
    }
}

/// What a fraction's minimum is read as a number from: the text without a
/// `px` or else a `%` suffix, trimmed.
pub open spec fn zero_candidate(m: Seq<char>) -> Seq<char> {
    trim(
        match strip_suffix(m, "px"@) {
            Some(n) => n,
            None => match strip_suffix(m, "%"@) {
                Some(n) => n,
                None => m,
            },
        },
    )
}

/// The shape of one grid track token, before its numbers are read.
#[derive(Clone, Debug)]
pub enum TrackShape {
    /// `Npx`: a fixed length; holds `N`, trimmed.
    Length(String),
    /// `minmax(min, Nfr)`: a fraction weight, lowered only with a zero
    /// minimum; holds the minimum's number text and `N`, both trimmed.
    Fraction { minimum: String, weight: String },
    /// Any other token: no lowering.
    Unlowerable,
}

pub enum TrackShapeView {
    Length(Seq<char>),
    Fraction { minimum: Seq<char>, weight: Seq<char> },
    Unlowerable,
}

impl View for TrackShape {
    type V = TrackShapeView;

    open spec fn view(&self) -> TrackShapeView {
        match self {
            TrackShape::Length(n) => TrackShapeView::Length(n@),
            TrackShape::Fraction { minimum, weight } => TrackShapeView::Fraction {
                minimum: minimum@,
                weight: weight@,
            },
            TrackShape::Unlowerable => TrackShapeView::Unlowerable,
        }
    }
}

pub open spec fn first_comma(s: Seq<char>) -> Option<int> {
    crate::seqs::first_match(s, |c: char| c == ',')
}

pub open spec fn track_shape_of(t: Seq<char>) -> TrackShapeView {
    match strip_suffix(t, "px"@) {
        Some(px) => TrackShapeView::Length(trim(px)),
        None => match strip_prefix(t, "minmax("@) {
            Some(rest) => match strip_suffix(rest, ")"@) {
                Some(inner) => match first_comma(inner) {
                    Some(k) => match strip_suffix(trim(inner.subrange(k + 1, inner.len() as int)), "fr"@) {
                        Some(w) => TrackShapeView::Fraction {
                            minimum: zero_candidate(trim(inner.subrange(0, k))),
                            weight: trim(w),
                        },
                        None => TrackShapeView::Unlowerable,
                    },
                    None => TrackShapeView::Unlowerable,
                },
                None => TrackShapeView::Unlowerable,
            },
            None => TrackShapeView::Unlowerable,
        },
    }
}

/// Whether `v[lo..hi]` ends with `suffix`.
fn ends_with(v: &Vec<char>, lo: usize, hi: usize, suffix: &Vec<char>) -> (r: bool)
    requires
        lo <= hi <= v@.len(),
    ensures
        r == (strip_suffix(v@.subrange(lo as int, hi as int), suffix@) is Some),
{
    if hi - lo < suffix.len() {
        return false;
    }
    let from = hi - suffix.len();
    let r = chars_match_at(v, from, suffix);
    proof {
        let x = v@.subrange(lo as int, hi as int);
        assert(x.subrange(x.len() - suffix@.len(), x.len() as int) =~= v@.subrange(from as int, hi as int));
    }
    r
}

/// Whether `v[lo..hi]` starts with `prefix`.
fn starts_with(v: &Vec<char>, lo: usize, hi: usize, prefix: &Vec<char>) -> (r: bool)
    requires
        lo <= hi <= v@.len(),
    ensures
        r == (strip_prefix(v@.subrange(lo as int, hi as int), prefix@) is Some),
{
    if hi - lo < prefix.len() {
        return false;
    }
    let r = chars_match_at(v, lo, prefix);
    proof {
        let x = v@.subrange(lo as int, hi as int);
        assert(x.subrange(0, prefix@.len() as int) =~= v@.subrange(lo as int, lo + prefix@.len()));
    }
    r
}

/// The shape of one grid track token: `Npx`, `minmax(min, Nfr)`, or
/// neither.
pub fn track_shape(token: &str) -> (shape: TrackShape)
    ensures
        shape@ == track_shape_of(token@),
{
    let v = chars_of(token);
    let n = v.len();
    let px = chars_of("px");
    let pct = chars_of("%");
    let fr = chars_of("fr");
    let open = chars_of("minmax(");
    let close = chars_of(")");
    proof {
        assert(v@.subrange(0, n as int) =~= token@);
    }
    if ends_with(&v, 0, n, &px) {
        let (a, b) = trim_range(&v, 0, n - px.len());
        return TrackShape::Length(string_of_chars(&v, a, b));
    }
    if !starts_with(&v, 0, n, &open) {
        return TrackShape::Unlowerable;
    }
    let lo = open.len();
    proof {
        assert(v@.subrange(lo as int, n as int) =~= strip_prefix(token@, "minmax("@)->0);
    }
    if !ends_with(&v, lo, n, &close) {
        return TrackShape::Unlowerable;
    }
    let hi = n - close.len();
    let ghost inner = v@.subrange(lo as int, hi as int);
    proof {
        assert(inner =~= strip_suffix(strip_prefix(token@, "minmax("@)->0, ")"@)->0);
    }
    let mut k = lo;
    while k < hi && v[k] != ','
        invariant
            lo <= k <= hi <= v@.len(),
            inner == v@.subrange(lo as int, hi as int),
            forall|j: int| lo <= j < k ==> v@[j] != ',',
        decreases hi - k,
    {
        k = k + 1;
    }
    if k == hi {
        proof {
            crate::seqs::lemma_first_match_none(inner, |c: char| c == ',');
        }
        return TrackShape::Unlowerable;
    }
    proof {
        assert(inner[k - lo] == ',');
        crate::seqs::lemma_first_match_at(inner, |c: char| c == ',', k - lo);
        assert(inner.subrange(0, k - lo) =~= v@.subrange(lo as int, k as int));
        assert(inner.subrange(k - lo + 1, inner.len() as int) =~= v@.subrange(k + 1, hi as int));
    }
    let (wa, wb) = trim_range(&v, k + 1, hi);
    if !ends_with(&v, wa, wb, &fr) {
        return TrackShape::Unlowerable;
    }
    let (xa, xb) = trim_range(&v, wa, wb - fr.len());
    let weight = string_of_chars(&v, xa, xb);
    proof {
        let tm = v@.subrange(wa as int, wb as int);
        assert(tm.subrange(0, tm.len() - fr@.len()) =~= v@.subrange(wa as int, wb - fr@.len()));
    }
    let (ma, mb) = trim_range(&v, lo, k);
    let (na, nb) = if ends_with(&v, ma, mb, &px) {
        proof {
            let tm = v@.subrange(ma as int, mb as int);
            assert(tm.subrange(0, tm.len() - px@.len()) =~= v@.subrange(ma as int, mb - px@.len()));
        }
        trim_range(&v, ma, mb - px.len())
    } else if ends_with(&v, ma, mb, &pct) {
        proof {
            let tm = v@.subrange(ma as int, mb as int);
            assert(tm.subrange(0, tm.len() - pct@.len()) =~= v@.subrange(ma as int, mb - pct@.len()));
        }
        trim_range(&v, ma, mb - pct.len())
    } else {
        trim_range(&v, ma, mb)
    };
    let minimum = string_of_chars(&v, na, nb);
    TrackShape::Fraction { minimum, weight }
}

// ------------------------------------------------------ container and child

/// Whether an optional field holds exactly `lit`.
pub open spec fn holds(o: Option<String>, lit: Seq<char>) -> bool {
    opt_chars(o) == Some(lit)
}

/// Whether an optional field holds exactly `lit`.
pub(crate) fn field_is(o: &Option<String>, lit: &str) -> (r: bool)
    ensures
        r == holds(*o, lit@),
{
    match o {
        Some(s) => str_eq(s.as_str(), lit),
        None => false,
    }
}

/// The field's text, when present.
pub open spec fn text_of_field(o: Option<String>) -> Seq<char> {
    match o {
        Some(s) => s@,
        None => Seq::empty(),
    }
}

/// `pre`, then `x`, then `post`.
pub open spec fn framed(pre: Seq<char>, x: Seq<char>, post: Seq<char>) -> Seq<char> {
    pre + x + post
}

fn framed_text(pre: &str, x: &String, post: &str) -> (s: String)
    ensures
        s@ == framed(pre@, x@, post@),
{
    let mut s = string_of(pre);
    push_str(&mut s, x.as_str());
    push_str(&mut s, post);
    s
}

/// Whether a corner smoothing (bits) is present and above zero.
pub open spec fn is_positive_corner(o: Option<u32>) -> bool {
    match o {
        Some(b) => 0 < b && b <= 0x7f80_0000,
        None => false,
    }
}

/// Whether a single-precision bit pattern is a number below zero.
pub open spec fn is_negative_bits(bits: u32) -> bool {
    0x8000_0000 < bits && bits <= 0xff80_0000
}

pub open spec fn bits_or_zero(o: Option<u32>) -> u32 {
    match o {
        Some(b) => b,
        None => 0,
    }
}

pub open spec fn one_if(cond: bool, what: Seq<char>) -> Seq<Seq<char>> {
    if cond {
        seq![what]
    } else {
        seq![]
    }
}

/// The tracks of one grid axis and the tokens refused on the way.
pub open spec fn grid_tracks_outcome(mode: LayoutMode, sizing: Option<Vec<GridToken>>) -> (Seq<GridTrack>, Seq<Seq<char>>) {
    if mode != LayoutMode::Grid {
        (seq![], seq![])
    } else {
        match sizing {
            None => (seq![], seq![]),
            Some(tokens) => tokens_outcome(tokens@),
        }
    }
}

pub open spec fn tokens_outcome(tokens: Seq<GridToken>) -> (Seq<GridTrack>, Seq<Seq<char>>)
    decreases tokens.len(),
{
    if tokens.len() == 0 {
        (seq![], seq![])
    } else {
        let prev = tokens_outcome(tokens.drop_last());
        let t = tokens.last();
        match t.track {
            Some(track) => (prev.0.push(track), prev.1),
            None => (prev.0, prev.1.push(framed("an unsupported grid track ("@, t.text@, ")"@))),
        }
    }
}

/// Pushes `what` onto `blockers`.
pub(crate) fn block(blockers: &mut Vec<String>, what: String)
    ensures
        strings_view(final(blockers)@) == strings_view(old(blockers)@).push(what@),
{
    let ghost before = blockers@;
    blockers.push(what);
    proof {
        assert(strings_view(blockers@) =~= strings_view(before).push(what@));
    }
}

/// Parses one grid axis's track tokens into the track vocabulary,
/// collecting the reason any token cannot be lowered. Only a grid carries
/// tracks; an absent string under a grid is implicit auto tracks, an empty
/// list.
pub fn grid_tracks_of(mode: LayoutMode, sizing: &Option<Vec<GridToken>>, blockers: &mut Vec<String>) -> (tracks:
    Vec<GridTrack>)
    ensures
        tracks@ == grid_tracks_outcome(mode, *sizing).0,
        strings_view(final(blockers)@) == strings_view(old(blockers)@) + grid_tracks_outcome(mode, *sizing).1,
{
    let mut tracks: Vec<GridTrack> = Vec::new();
    if mode != LayoutMode::Grid {
        assert(strings_view(blockers@) =~= strings_view(old(blockers)@) + seq![]);
        return tracks;
    }
    let tokens = match sizing {
        Some(t) => t,
        None => {
            assert(strings_view(blockers@) =~= strings_view(old(blockers)@) + seq![]);
            return tracks;
        },
    };
    let ghost base = strings_view(blockers@);
    let mut i: usize = 0;
    proof {
        assert(tokens@.take(0) =~= Seq::<GridToken>::empty());
        assert(base + seq![] =~= base);
    }
    while i < tokens.len()
        invariant
            i <= tokens@.len(),
            tracks@ == tokens_outcome(tokens@.take(i as int)).0,
            strings_view(blockers@) == base + tokens_outcome(tokens@.take(i as int)).1,
        decreases tokens@.len() - i,
    {
        let t = &tokens[i];
        proof {
            assert(tokens@.take(i + 1).drop_last() =~= tokens@.take(i as int));
            assert(tokens@.take(i + 1).last() == tokens@[i as int]);
        }
        match t.track {
            Some(track) => tracks.push(track),
            None => {
                block(blockers, framed_text("an unsupported grid track (", &t.text, ")"));
                proof {
                    let prev = tokens_outcome(tokens@.take(i as int));
                    assert(base + prev.1.push(framed("an unsupported grid track ("@, t.text@, ")"@)) =~= (
                    base + prev.1).push(framed("an unsupported grid track ("@, t.text@, ")"@)));
                }
            },
        }
        i = i + 1;
    }
    proof {
        assert(tokens@.take(i as int) =~= tokens@);
    }
    tracks
}

/// The auto-layout mode a `layoutMode` names, when it is one of the three
/// with a lowering.
pub open spec fn base_mode_of(lm: Option<String>) -> Option<LayoutMode> {
    if holds(lm, "HORIZONTAL"@) {
        Some(LayoutMode::Horizontal)
    } else if holds(lm, "VERTICAL"@) {
        Some(LayoutMode::Vertical)
    } else if holds(lm, "GRID"@) {
        Some(LayoutMode::Grid)
    } else {
        None
    }
}

/// `layoutWrap`: `WRAP` turns a horizontal row into a wrapping row; wrap on
/// any other mode, or an unknown wrap value, is refused and the base mode
/// kept.
pub open spec fn wrapped_mode(base: LayoutMode, lw: Option<String>) -> (LayoutMode, Seq<Seq<char>>) {
    if lw is None || holds(lw, "NO_WRAP"@) {
        (base, seq![])
    } else if holds(lw, "WRAP"@) && base == LayoutMode::Horizontal {
        (LayoutMode::Wrap, seq![])
    } else {
        (base, seq![framed("wrapping auto-layout ("@, text_of_field(lw), ") on a non-horizontal frame"@)])
    }
}

/// `counterAxisAlignContent` matters only under wrap, where only `AUTO`
/// lowers.
pub open spec fn content_blockers(mode: LayoutMode, cc: Option<String>) -> Seq<Seq<char>> {
    one_if(
        mode == LayoutMode::Wrap && !(cc is None || holds(cc, "AUTO"@)),
        framed("wrap line distribution (counterAxisAlignContent "@, text_of_field(cc), ")"@),
    )
}

/// The main gap and cross gap a mode reads.
pub open spec fn gaps_of(mode: LayoutMode, l: FigmaLayout) -> (u32, Option<u32>) {
    if mode == LayoutMode::Grid {
        (bits_or_zero(l.grid_column_gap), l.grid_row_gap)
    } else if mode == LayoutMode::Wrap {
        (bits_or_zero(l.item_spacing), l.counter_axis_spacing)
    } else {
        (bits_or_zero(l.item_spacing), None)
    }
}

/// Negative gaps under wrap and grid are refused by name, both axes.
pub open spec fn gap_blockers(mode: LayoutMode, gap: u32, cross_gap: Option<u32>) -> Seq<Seq<char>> {
    let cross_negative = match cross_gap {
        Some(g) => is_negative_bits(g),
        None => false,
    };
    if mode == LayoutMode::Wrap {
        one_if(
            is_negative_bits(gap),
            "a wrapping row with a negative gap (layoutWrap WRAP + negative itemSpacing)"@,
        ) + one_if(
            cross_negative,
            "a wrapping row with a negative cross gap (layoutWrap WRAP + negative counterAxisSpacing)"@,
        )
    } else if mode == LayoutMode::Grid {
        one_if(is_negative_bits(gap), "a grid with a negative column gap (negative gridColumnGap)"@)
            + one_if(cross_negative, "a grid with a negative row gap (negative gridRowGap)"@)
    } else {
        seq![]
    }
}

/// `primaryAxisAlignItems`; absent is Figma's `MIN`, the start.
pub open spec fn main_align_outcome(pa: Option<String>) -> (MainAxisAlign, Seq<Seq<char>>) {
    if pa is None || holds(pa, "MIN"@) {
        (MainAxisAlign::Start, seq![])
    } else if holds(pa, "CENTER"@) {
        (MainAxisAlign::Center, seq![])
    } else if holds(pa, "MAX"@) {
        (MainAxisAlign::End, seq![])
    } else if holds(pa, "SPACE_BETWEEN"@) {
        (MainAxisAlign::SpaceBetween, seq![])
    } else {
        (MainAxisAlign::Start, seq!["main-axis alignment "@ + text_of_field(pa)])
    }
}

/// `counterAxisAlignItems`; absent is Figma's `MIN`, the start.
pub open spec fn cross_align_outcome(ca: Option<String>) -> (CrossAxisAlign, Seq<Seq<char>>) {
    if ca is None || holds(ca, "MIN"@) {
        (CrossAxisAlign::Start, seq![])
    } else if holds(ca, "CENTER"@) {
        (CrossAxisAlign::Center, seq![])
    } else if holds(ca, "MAX"@) {
        (CrossAxisAlign::End, seq![])
    } else if holds(ca, "BASELINE"@) {
        (CrossAxisAlign::Baseline, seq![])
    } else {
        (CrossAxisAlign::Start, seq!["cross-axis alignment "@ + text_of_field(ca)])
    }
}

/// What `container_of` decides for a frame with these layout fields: the
/// container (none for a frame without auto-layout, or with an unknown
/// mode) and the constructs refused by name on the way, in order.
#[verifier::opaque]
pub open spec fn container_outcome(l: FigmaLayout) -> (Option<LayoutContainerView>, Seq<Seq<char>>) {
    let lm = l.layout_mode;
    if lm is None || holds(lm, "NONE"@) {
        (None, seq![])
    } else {
        match base_mode_of(lm) {
            None => (None, seq![framed("auto-layout ("@, text_of_field(lm), ")"@)]),
            Some(base) => {
                let (mode, b1) = wrapped_mode(base, l.layout_wrap);
                let b2 = content_blockers(mode, l.counter_axis_align_content);
                let (gap, cross_gap) = gaps_of(mode, l);
                let b3 = gap_blockers(mode, gap, cross_gap);
                let rows = grid_tracks_outcome(mode, l.grid_rows_sizing);
                let columns = grid_tracks_outcome(mode, l.grid_columns_sizing);
                let (main_align, b6) = main_align_outcome(l.primary_axis_align_items);
                let (cross_align, b7) = cross_align_outcome(l.counter_axis_align_items);
                (
                    Some(
                        LayoutContainerView {
                            mode,
                            gap,
                            padding: EdgeInsets {
                                left: bits_or_zero(l.padding_left),
                                top: bits_or_zero(l.padding_top),
                                right: bits_or_zero(l.padding_right),
                                bottom: bits_or_zero(l.padding_bottom),
                            },
                            main_align,
                            cross_align,
                            cross_gap,
                            grid_rows: rows.0,
                            grid_columns: columns.0,
                        },
                    ),
                    b1 + b2 + b3 + rows.1 + columns.1 + b6 + b7,
                )
            },
        }
    }
}

fn negative(bits: u32) -> (r: bool)
    ensures
        r == is_negative_bits(bits),
{
    0x8000_0000 < bits && bits <= 0xff80_0000
}

fn or_zero(o: Option<u32>) -> (b: u32)
    ensures
        b == bits_or_zero(o),
{
    match o {
        Some(b) => b,
        None => 0,
    }
}

/// Pushes each of `what`'s entries that `keep` selects.
pub(crate) fn block_if(blockers: &mut Vec<String>, keep: bool, what: &str)
    ensures
        strings_view(final(blockers)@) == strings_view(old(blockers)@) + one_if(keep, what@),
{
    if keep {
        block(blockers, string_of(what));
        assert(strings_view(blockers@) =~= strings_view(old(blockers)@) + one_if(keep, what@));
    } else {
        assert(strings_view(blockers@) =~= strings_view(old(blockers)@) + one_if(keep, what@));
    }
}

fn wrapped_mode_exec(base: LayoutMode, lw: &Option<String>, blockers: &mut Vec<String>) -> (mode: LayoutMode)
    ensures
        mode == wrapped_mode(base, *lw).0,
        strings_view(final(blockers)@) == strings_view(old(blockers)@) + wrapped_mode(base, *lw).1,
{
    if lw.is_none() || field_is(lw, "NO_WRAP") {
        assert(strings_view(blockers@) =~= strings_view(old(blockers)@) + seq![]);
        base
    } else if field_is(lw, "WRAP") && base == LayoutMode::Horizontal {
        assert(strings_view(blockers@) =~= strings_view(old(blockers)@) + seq![]);
        LayoutMode::Wrap
    } else {
        match lw {
            Some(w) => {
                block(blockers, framed_text("wrapping auto-layout (", w, ") on a non-horizontal frame"));
                assert(strings_view(blockers@) =~= strings_view(old(blockers)@) + wrapped_mode(base, *lw).1);
            },
            None => {},
        }
        base
    }
}

fn content_blockers_exec(mode: LayoutMode, cc: &Option<String>, blockers: &mut Vec<String>)
    ensures
        strings_view(final(blockers)@) == strings_view(old(blockers)@) + content_blockers(mode, *cc),
{
    if mode == LayoutMode::Wrap && !(cc.is_none() || field_is(cc, "AUTO")) {
        match cc {
            Some(w) => {
                block(blockers, framed_text("wrap line distribution (counterAxisAlignContent ", w, ")"));
                assert(strings_view(blockers@) =~= strings_view(old(blockers)@) + content_blockers(mode, *cc));
            },
            None => {},
        }
    } else {
        assert(strings_view(blockers@) =~= strings_view(old(blockers)@) + content_blockers(mode, *cc));
    }
}

fn gap_blockers_exec(mode: LayoutMode, gap: u32, cross_gap: Option<u32>, blockers: &mut Vec<String>)
    ensures
        strings_view(final(blockers)@) == strings_view(old(blockers)@) + gap_blockers(mode, gap, cross_gap),
{
    let cross_negative = match cross_gap {
        Some(g) => negative(g),
        None => false,
    };
    if mode == LayoutMode::Wrap {
        block_if(blockers, negative(gap), "a wrapping row with a negative gap (layoutWrap WRAP + negative itemSpacing)");
        block_if(
            blockers,
            cross_negative,
            "a wrapping row with a negative cross gap (layoutWrap WRAP + negative counterAxisSpacing)",
        );
    } else if mode == LayoutMode::Grid {
        block_if(blockers, negative(gap), "a grid with a negative column gap (negative gridColumnGap)");
        block_if(blockers, cross_negative, "a grid with a negative row gap (negative gridRowGap)");
    }
    assert(strings_view(blockers@) =~= strings_view(old(blockers)@) + gap_blockers(mode, gap, cross_gap));
}

fn main_align_exec(pa: &Option<String>, blockers: &mut Vec<String>) -> (a: MainAxisAlign)
    ensures
        a == main_align_outcome(*pa).0,
        strings_view(final(blockers)@) == strings_view(old(blockers)@) + main_align_outcome(*pa).1,
{
    let a = if pa.is_none() || field_is(pa, "MIN") {
        MainAxisAlign::Start
    } else if field_is(pa, "CENTER") {
        MainAxisAlign::Center
    } else if field_is(pa, "MAX") {
        MainAxisAlign::End
    } else if field_is(pa, "SPACE_BETWEEN") {
        MainAxisAlign::SpaceBetween
    } else {
        match pa {
            Some(w) => {
                let mut what = string_of("main-axis alignment ");
                push_str(&mut what, w.as_str());
                block(blockers, what);
            },
            None => {},
        }
        MainAxisAlign::Start
    };
    assert(strings_view(blockers@) =~= strings_view(old(blockers)@) + main_align_outcome(*pa).1);
    a
}

fn cross_align_exec(ca: &Option<String>, blockers: &mut Vec<String>) -> (a: CrossAxisAlign)
    ensures
        a == cross_align_outcome(*ca).0,
        strings_view(final(blockers)@) == strings_view(old(blockers)@) + cross_align_outcome(*ca).1,
{
    let a = if ca.is_none() || field_is(ca, "MIN") {
        CrossAxisAlign::Start
    } else if field_is(ca, "CENTER") {
        CrossAxisAlign::Center
    } else if field_is(ca, "MAX") {
        CrossAxisAlign::End
    } else if field_is(ca, "BASELINE") {
        CrossAxisAlign::Baseline
    } else {
        match ca {
            Some(w) => {
                let mut what = string_of("cross-axis alignment ");
                push_str(&mut what, w.as_str());
                block(blockers, what);
            },
            None => {},
        }
        CrossAxisAlign::Start
    };
    assert(strings_view(blockers@) =~= strings_view(old(blockers)@) + cross_align_outcome(*ca).1);
    a
}

pub(crate) proof fn lemma_append_assoc(a: Seq<Seq<char>>, b: Seq<Seq<char>>, c: Seq<Seq<char>>)
    ensures
        a + (b + c) == (a + b) + c,
{
    assert(a + (b + c) =~= (a + b) + c);
}

/// The container-side flex intent of a frame, or `None` when it has no
/// auto-layout; each construct with no lowering is named in `blockers`.
#[verifier::rlimit(40)]
pub fn container_of(layout: &FigmaLayout, blockers: &mut Vec<String>) -> (container: Option<LayoutContainer>)
    ensures
        match container {
            Some(c) => container_outcome(*layout).0 == Some(c@),
            None => container_outcome(*layout).0 is None,
        },
        strings_view(final(blockers)@) == strings_view(old(blockers)@) + container_outcome(*layout).1,
{
    let ghost b0 = strings_view(blockers@);
    let lm = &layout.layout_mode;
    if lm.is_none() || field_is(lm, "NONE") {
        proof {
            reveal(container_outcome);
            assert(strings_view(blockers@) =~= b0 + container_outcome(*layout).1);
        }
        return None;
    }
    let base_mode = if field_is(lm, "HORIZONTAL") {
        LayoutMode::Horizontal
    } else if field_is(lm, "VERTICAL") {
        LayoutMode::Vertical
    } else if field_is(lm, "GRID") {
        LayoutMode::Grid
    } else {
        match lm {
            Some(other) => block(blockers, framed_text("auto-layout (", other, ")")),
            None => {},
        }
        proof {
            reveal(container_outcome);
            assert(strings_view(blockers@) =~= b0 + container_outcome(*layout).1);
        }
        return None;
    };
    let mode = wrapped_mode_exec(base_mode, &layout.layout_wrap, blockers);
    let ghost b1 = strings_view(blockers@);
    content_blockers_exec(mode, &layout.counter_axis_align_content, blockers);
    let ghost b2 = strings_view(blockers@);
    let gap = if mode == LayoutMode::Grid {
        or_zero(layout.grid_column_gap)
    } else {
        or_zero(layout.item_spacing)
    };
    let cross_gap = if mode == LayoutMode::Grid {
        layout.grid_row_gap
    } else if mode == LayoutMode::Wrap {
        layout.counter_axis_spacing
    } else {
        None
    };
    assert((gap, cross_gap) == gaps_of(mode, *layout));
    gap_blockers_exec(mode, gap, cross_gap, blockers);
    let ghost b3 = strings_view(blockers@);
    let grid_rows = grid_tracks_of(mode, &layout.grid_rows_sizing, blockers);
    let ghost b4 = strings_view(blockers@);
    let grid_columns = grid_tracks_of(mode, &layout.grid_columns_sizing, blockers);
    let ghost b5 = strings_view(blockers@);
    let main_align = main_align_exec(&layout.primary_axis_align_items, blockers);
    let ghost b6 = strings_view(blockers@);
    let cross_align = cross_align_exec(&layout.counter_axis_align_items, blockers);
    let c = LayoutContainer {
        mode,
        gap,
        padding: EdgeInsets {
            left: or_zero(layout.padding_left),
            top: or_zero(layout.padding_top),
            right: or_zero(layout.padding_right),
            bottom: or_zero(layout.padding_bottom),
        },
        main_align,
        cross_align,
        cross_gap,
        grid_rows,
        grid_columns,
    };
    proof {
        reveal(container_outcome);
        let out = container_outcome(*layout);
        let w = wrapped_mode(base_mode, layout.layout_wrap);
        let cb = content_blockers(mode, layout.counter_axis_align_content);
        let gb = gap_blockers(mode, gap, cross_gap);
        let rows = grid_tracks_outcome(mode, layout.grid_rows_sizing);
        let cols = grid_tracks_outcome(mode, layout.grid_columns_sizing);
        let m = main_align_outcome(layout.primary_axis_align_items);
        let x = cross_align_outcome(layout.counter_axis_align_items);
        assert(base_mode_of(*lm) == Some(base_mode));
        assert(out.0 == Some(c@));
        assert(out.1 == w.1 + cb + gb + rows.1 + cols.1 + m.1 + x.1);
        lemma_append_assoc(b0, w.1, cb);
        lemma_append_assoc(b0, w.1 + cb, gb);
        lemma_append_assoc(b0, w.1 + cb + gb, rows.1);
        lemma_append_assoc(b0, w.1 + cb + gb + rows.1, cols.1);
        lemma_append_assoc(b0, w.1 + cb + gb + rows.1 + cols.1, m.1);
        lemma_append_assoc(b0, w.1 + cb + gb + rows.1 + cols.1 + m.1, x.1);
    }
    Some(c)
}

/// The flex context a child is visited under: its parent's main axis, the
/// leading margin (bits) it absorbs from a negative parent gap, and whether
/// the parent hugs each axis.
#[derive(Clone, Copy, Debug)]
pub struct Flow {
    pub horizontal: bool,
    pub leading_margin: u32,
    pub parent_hugs_h: bool,
    pub parent_hugs_v: bool,
}

/// Whether a single-precision bit pattern is unequal to zero (NaN is).
pub open spec fn is_nonzero_bits(bits: u32) -> bool {
    bits != 0 && bits != 0x8000_0000
}

/// One axis's `layoutSizing*`; absent is a node outside any auto-layout
/// context: fixed.
pub open spec fn sizing_outcome(field: Option<String>, axis: Seq<char>) -> (AxisSizing, Seq<Seq<char>>) {
    if field is None || holds(field, "FIXED"@) {
        (AxisSizing::Fixed, seq![])
    } else if holds(field, "HUG"@) {
        (AxisSizing::Hug, seq![])
    } else if holds(field, "FILL"@) {
        (AxisSizing::Fill, seq![])
    } else {
        (AxisSizing::Fixed, seq![axis + " sizing "@ + text_of_field(field)])
    }
}

fn sizing_exec(field: &Option<String>, axis: &str, blockers: &mut Vec<String>) -> (s: AxisSizing)
    ensures
        s == sizing_outcome(*field, axis@).0,
        strings_view(final(blockers)@) == strings_view(old(blockers)@) + sizing_outcome(*field, axis@).1,
{
    let s = if field.is_none() || field_is(field, "FIXED") {
        AxisSizing::Fixed
    } else if field_is(field, "HUG") {
        AxisSizing::Hug
    } else if field_is(field, "FILL") {
        AxisSizing::Fill
    } else {
        match field {
            Some(other) => {
                let mut what = string_of(axis);
                push_str(&mut what, " sizing ");
                push_str(&mut what, other.as_str());
                block(blockers, what);
            },
            None => {},
        }
        AxisSizing::Fixed
    };
    assert(strings_view(blockers@) =~= strings_view(old(blockers)@) + sizing_outcome(*field, axis@).1);
    s
}

/// The margin a child absorbs on its leading main-axis edge: left in a row,
/// top in a column.
pub open spec fn margin_of(flow: Option<Flow>) -> EdgeInsets {
    match flow {
        Some(f) => if is_nonzero_bits(f.leading_margin) {
            if f.horizontal {
                EdgeInsets { left: f.leading_margin, top: 0, right: 0, bottom: 0 }
            } else {
                EdgeInsets { left: 0, top: f.leading_margin, right: 0, bottom: 0 }
            }
        } else {
            EdgeInsets { left: 0, top: 0, right: 0, bottom: 0 }
        },
        None => EdgeInsets { left: 0, top: 0, right: 0, bottom: 0 },
    }
}

/// What `constraints_of` decides: the child-side intent, or none when every
/// field is the default, and the constructs refused on the way.
pub open spec fn constraints_outcome(l: FigmaLayout, flow: Option<Flow>) -> (Option<LayoutConstraints>, Seq<Seq<char>>) {
    let (sizing_h, bh) = sizing_outcome(l.layout_sizing_horizontal, "horizontal"@);
    let (sizing_v, bv) = sizing_outcome(l.layout_sizing_vertical, "vertical"@);
    let bf = match flow {
        Some(f) => one_if(
            f.parent_hugs_h && sizing_h == AxisSizing::Fill,
            "a Fill child on its parent's hug axis (horizontal)"@,
        ) + one_if(
            f.parent_hugs_v && sizing_v == AxisSizing::Fill,
            "a Fill child on its parent's hug axis (vertical)"@,
        ),
        None => seq![],
    };
    let c = LayoutConstraints {
        sizing_h,
        sizing_v,
        min_width: l.min_width,
        max_width: l.max_width,
        min_height: l.min_height,
        max_height: l.max_height,
        margin: margin_of(flow),
        grid_row: l.grid_row_anchor_index,
        grid_column: l.grid_column_anchor_index,
        grid_row_span: match l.grid_row_span {
            Some(n) => n,
            None => 1,
        },
        grid_column_span: match l.grid_column_span {
            Some(n) => n,
            None => 1,
        },
    };
    (if c == default_constraints() { None } else { Some(c) }, bh + bv + bf)
}

/// The child-side flex intent of a node, or `None` when every field is the
/// default; a sizing with no lowering, or a Fill child on its parent's hug
/// axis, is named in `blockers`.
pub fn constraints_of(layout: &FigmaLayout, flow: Option<&Flow>, blockers: &mut Vec<String>) -> (constraints:
    Option<LayoutConstraints>)
    ensures
        ({
            let flow_v = match flow {
                Some(f) => Some(*f),
                None => None,
            };
            &&& constraints == constraints_outcome(*layout, flow_v).0
            &&& strings_view(final(blockers)@) == strings_view(old(blockers)@) + constraints_outcome(
                *layout,
                flow_v,
            ).1
        }),
{
    let ghost b0 = strings_view(blockers@);
    let sizing_h = sizing_exec(&layout.layout_sizing_horizontal, "horizontal", blockers);
    let ghost b1 = strings_view(blockers@);
    let sizing_v = sizing_exec(&layout.layout_sizing_vertical, "vertical", blockers);
    let ghost b2 = strings_view(blockers@);
    let margin = match flow {
        Some(f) => {
            block_if(
                blockers,
                f.parent_hugs_h && sizing_h == AxisSizing::Fill,
                "a Fill child on its parent's hug axis (horizontal)",
            );
            block_if(
                blockers,
                f.parent_hugs_v && sizing_v == AxisSizing::Fill,
                "a Fill child on its parent's hug axis (vertical)",
            );
            if f.leading_margin != 0 && f.leading_margin != 0x8000_0000 {
                if f.horizontal {
                    EdgeInsets { left: f.leading_margin, top: 0, right: 0, bottom: 0 }
                } else {
                    EdgeInsets { left: 0, top: f.leading_margin, right: 0, bottom: 0 }
                }
            } else {
                EdgeInsets { left: 0, top: 0, right: 0, bottom: 0 }
            }
        },
        None => EdgeInsets { left: 0, top: 0, right: 0, bottom: 0 },
    };
    let c = LayoutConstraints {
        sizing_h,
        sizing_v,
        min_width: layout.min_width,
        max_width: layout.max_width,
        min_height: layout.min_height,
        max_height: layout.max_height,
        margin,
        grid_row: layout.grid_row_anchor_index,
        grid_column: layout.grid_column_anchor_index,
        grid_row_span: match layout.grid_row_span {
            Some(n) => n,
            None => 1,
        },
        grid_column_span: match layout.grid_column_span {
            Some(n) => n,
            None => 1,
        },
    };
    proof {
        let flow_v = match flow {
            Some(f) => Some(*f),
            None => None,
        };
        let out = constraints_outcome(*layout, flow_v);
        let bh = sizing_outcome(layout.layout_sizing_horizontal, "horizontal"@).1;
        let bv = sizing_outcome(layout.layout_sizing_vertical, "vertical"@).1;
        let bf = strings_view(blockers@).subrange(b2.len() as int, strings_view(blockers@).len() as int);
        assert(strings_view(blockers@) =~= b2 + bf);
        assert(out.1 == bh + bv + bf);
        assert(strings_view(blockers@) =~= b0 + (bh + bv + bf));
    }
    let d = LayoutConstraints::default();
    if c == d {
        None
    } else {
        Some(c)
    }
}

/// A `TEXT` node's per-axis sizing, reconciling the two Figma encodings:
/// the `layoutSizing*` pair wins when either axis carries it; otherwise
/// `textAutoResize` decides, with an absent value fixing the box.
pub open spec fn text_sizing_outcome(l: FigmaLayout, from_layout_sizing: Option<LayoutConstraints>) -> Option<
    LayoutConstraints,
> {
    if l.layout_sizing_horizontal is Some || l.layout_sizing_vertical is Some {
        from_layout_sizing
    } else {
        let t = l.text_auto_resize;
        let (sizing_h, sizing_v) = if holds(t, "WIDTH_AND_HEIGHT"@) {
            (AxisSizing::Hug, AxisSizing::Hug)
        } else if holds(t, "HEIGHT"@) {
            (AxisSizing::Fixed, AxisSizing::Hug)
        } else {
            (AxisSizing::Fixed, AxisSizing::Fixed)
        };
        let base = match from_layout_sizing {
            Some(c) => c,
            None => default_constraints(),
        };
        let c = LayoutConstraints { sizing_h, sizing_v, ..base };
        if c == default_constraints() {
            None
        } else {
            Some(c)
        }
    }
}

pub fn text_sizing(layout: &FigmaLayout, from_layout_sizing: Option<LayoutConstraints>) -> (c: Option<
    LayoutConstraints,
>)
    ensures
        c == text_sizing_outcome(*layout, from_layout_sizing),
{
    if layout.layout_sizing_horizontal.is_some() || layout.layout_sizing_vertical.is_some() {
        return from_layout_sizing;
    }
    let t = &layout.text_auto_resize;
    let (sizing_h, sizing_v) = if field_is(t, "WIDTH_AND_HEIGHT") {
        (AxisSizing::Hug, AxisSizing::Hug)
    } else if field_is(t, "HEIGHT") {
        (AxisSizing::Fixed, AxisSizing::Hug)
    } else {
        (AxisSizing::Fixed, AxisSizing::Fixed)
    };
    let base = match from_layout_sizing {
        Some(c) => c,
        None => LayoutConstraints::default(),
    };
    let c = LayoutConstraints { sizing_h, sizing_v, ..base };
    let d = LayoutConstraints::default();
    if c == d {
        None
    } else {
        Some(c)
    }
}

// ------------------------------------------------------------- winding rule

/// The winding rule a contour names, if it has a lowering; absent is
/// `NONZERO`.
pub open spec fn rule_named(w: Option<String>) -> Option<WindingRule> {
    if w is None || holds(w, "NONZERO"@) {
        Some(WindingRule::NonZero)
    } else if holds(w, "EVENODD"@) {
        Some(WindingRule::EvenOdd)
    } else {
        None
    }
}

/// The rule the contours so far share, or the refusal met first.
pub open spec fn winding_fold(gs: Seq<Geometry>) -> Result<Option<WindingRule>, Seq<char>>
    decreases gs.len(),
{
    if gs.len() == 0 {
        Ok(None)
    } else {
        match winding_fold(gs.drop_last()) {
            Err(e) => Err(e),
            Ok(prev) => {
                let w = gs.last().winding_rule;
                match rule_named(w) {
                    None => Err("a vector with winding rule "@ + text_of_field(w)),
                    Some(r) => match prev {
                        None => Ok(Some(r)),
                        Some(p) => if p != r {
                            Err("a vector with mixed per-contour winding rules"@)
                        } else {
                            Ok(Some(p))
                        },
                    },
                }
            },
        }
    }
}

proof fn lemma_winding_fold_some(gs: Seq<Geometry>)
    requires
        gs.len() > 0,
    ensures
        winding_fold(gs) != Ok::<Option<WindingRule>, Seq<char>>(None),
    decreases gs.len(),
{
    if gs.len() > 1 {
        lemma_winding_fold_some(gs.drop_last());
    }
}

/// The single winding rule a vector's contours share, or a refusal when
/// they disagree or one carries an unknown rule.
pub fn uniform_winding(geometry: &[Geometry]) -> (r: Result<WindingRule, String>)
    requires
        geometry@.len() > 0,
    ensures
        match r {
            Ok(w) => winding_fold(geometry@) == Ok::<Option<WindingRule>, Seq<char>>(Some(w)),
            Err(e) => winding_fold(geometry@) == Err::<Option<WindingRule>, Seq<char>>(e@),
        },
{
    let mut winding: Option<WindingRule> = None;
    let mut i: usize = 0;
    proof {
        assert(geometry@.take(0) =~= Seq::<Geometry>::empty());
    }
    while i < geometry.len()
        invariant
            i <= geometry@.len(),
            winding_fold(geometry@.take(i as int)) == Ok::<Option<WindingRule>, Seq<char>>(winding),
        decreases geometry@.len() - i,
    {
        proof {
            assert(geometry@.take(i + 1).drop_last() =~= geometry@.take(i as int));
            assert(geometry@.take(i + 1).last() == geometry@[i as int]);
        }
        let w = &geometry[i].winding_rule;
        let rule = if w.is_none() || field_is(w, "NONZERO") {
            WindingRule::NonZero
        } else if field_is(w, "EVENODD") {
            WindingRule::EvenOdd
        } else {
            let mut e = string_of("a vector with winding rule ");
            match w {
                Some(t) => push_str(&mut e, t.as_str()),
                None => {},
            }
            proof {
                assert(winding_fold(geometry@.take(i + 1)) == Err::<Option<WindingRule>, Seq<char>>(e@));
                lemma_prefix_error_stays(geometry@, i + 1);
            }
            return Err(e);
        };
        match winding {
            None => {
                winding = Some(rule);
            },
            Some(prev) => {
                if prev != rule {
                    let e = string_of("a vector with mixed per-contour winding rules");
                    proof {
                        lemma_prefix_error_stays(geometry@, i + 1);
                    }
                    return Err(e);
                }
            },
        }
        i = i + 1;
    }
    proof {
        assert(geometry@.take(i as int) =~= geometry@);
        lemma_winding_fold_some(geometry@);
    }
    match winding {
        Some(w) => Ok(w),
        None => Err(String::new()),
    }
}

/// A refusal met on a prefix is the refusal of the whole.
pub proof fn lemma_prefix_error_stays(gs: Seq<Geometry>, n: int)
    requires
        0 <= n <= gs.len(),
        winding_fold(gs.take(n)) is Err,
    ensures
        winding_fold(gs) == winding_fold(gs.take(n)),
    decreases gs.len() - n,
{
    if n == gs.len() {
        assert(gs.take(n) =~= gs);
    } else {
        assert(gs.drop_last().take(n) =~= gs.take(n));
        lemma_prefix_error_stays(gs.drop_last(), n);
        if n == gs.len() - 1 {
            assert(gs.drop_last() =~= gs.take(n));
        }
    }
}

// ------------------------------------------------------------ path segments

/// How many of `names` equal `name`.
pub open spec fn count_named(names: Seq<Seq<char>>, name: Seq<char>) -> nat
    decreases names.len(),
{
    if names.len() == 0 {
        0
    } else {
        count_named(names.drop_last(), name) + if names.last() == name {
            1nat
        } else {
            0nat
        }
    }
}

pub open spec fn names_of(nodes: Seq<&FigmaNode>) -> Seq<Seq<char>> {
    nodes.map_values(|n: &FigmaNode| n.name@)
}

/// The slash-path segment of the node at `position`: its name, with its
/// Figma id (or its position, for a node without one) appended when a
/// sibling shares the name.
pub open spec fn segment(nodes: Seq<&FigmaNode>, position: int) -> Seq<char> {
    let n = nodes[position];
    if count_named(names_of(nodes), n.name@) > 1 {
        match n.id {
            Some(id) => n.name@ + " ("@ + id@ + ")"@,
            None => n.name@ + " (#"@ + decimal(position as nat) + ")"@,
        }
    } else {
        n.name@
    }
}

/// How many of `nodes` are called `name`.
fn count_name(nodes: &[&FigmaNode], name: &String) -> (c: usize)
    ensures
        c == count_named(names_of(nodes@), name@),
{
    let ghost names = names_of(nodes@);
    let mut c: usize = 0;
    let mut i: usize = 0;
    proof {
        assert(names.take(0) =~= Seq::<Seq<char>>::empty());
    }
    while i < nodes.len()
        invariant
            i <= nodes@.len(),
            names == names_of(nodes@),
            c == count_named(names.take(i as int), name@),
            c <= i,
        decreases nodes@.len() - i,
    {
        proof {
            assert(names.take(i + 1).drop_last() =~= names.take(i as int));
            assert(names.take(i + 1).last() == nodes@[i as int].name@);
        }
        if nodes[i].name == *name {
            c = c + 1;
        }
        i = i + 1;
    }
    proof {
        assert(names.take(i as int) =~= names);
    }
    c
}

/// The slash-path segment for each node in `nodes`, disambiguating
/// duplicate sibling names so two same-named siblings never share one
/// diagnostic path.
pub fn disambiguated_segments(nodes: &[&FigmaNode]) -> (segments: Vec<String>)
    ensures
        segments@.len() == nodes@.len(),
        forall|p: int| 0 <= p < nodes@.len() ==> (#[trigger] segments@[p])@ == segment(nodes@, p),
{
    let mut segments: Vec<String> = Vec::new();
    let mut p: usize = 0;
    while p < nodes.len()
        invariant
            p <= nodes@.len(),
            segments@.len() == p,
            forall|q: int| 0 <= q < p ==> (#[trigger] segments@[q])@ == segment(nodes@, q),
        decreases nodes@.len() - p,
    {
        let node = nodes[p];
        let count = count_name(nodes, &node.name);
        let s = if count > 1 {
            match &node.id {
                Some(id) => {
                    let mut s = node.name.clone();
                    push_str(&mut s, " (");
                    push_str(&mut s, id.as_str());
                    push_str(&mut s, ")");
                    s
                },
                None => {
                    let mut s = node.name.clone();
                    push_str(&mut s, " (#");
                    push_decimal(&mut s, p as u64);
                    push_str(&mut s, ")");
                    s
                },
            }
        } else {
            node.name.clone()
        };
        segments.push(s);
        p = p + 1;
    }
    segments
}

proof fn lemma_decimal_nonempty(n: nat)
    ensures
        decimal(n).len() >= 1,
        n >= 10 ==> decimal(n).len() >= 2,
    decreases n,
{
    if n >= 10 {
        lemma_decimal_nonempty(n / 10);
    }
}

/// The digit character of `d` determines `d` modulo ten.
proof fn lemma_digit_char_injective(a: nat, b: nat)
    requires
        crate::text::digit_char(a) == crate::text::digit_char(b),
    ensures
        a % 10 == b % 10,
{
    let ca = crate::text::digit_char(a);
    let cb = crate::text::digit_char(b);
    assert(ca as int == (a % 10) + 48);
    assert(cb as int == (b % 10) + 48);
}

/// Distinct numbers render distinctly.
proof fn lemma_decimal_injective(a: nat, b: nat)
    requires
        decimal(a) == decimal(b),
    ensures
        a == b,
    decreases a,
{
    lemma_decimal_nonempty(a);
    lemma_decimal_nonempty(b);
    if a < 10 && b < 10 {
        assert(decimal(a)[0] == crate::text::digit_char(a));
        assert(decimal(b)[0] == crate::text::digit_char(b));
        lemma_digit_char_injective(a, b);
        vstd::arithmetic::div_mod::lemma_small_mod(a, 10);
        vstd::arithmetic::div_mod::lemma_small_mod(b, 10);
    } else if a >= 10 && b >= 10 {
        vstd::arithmetic::div_mod::lemma_fundamental_div_mod(a as int, 10);
        vstd::arithmetic::div_mod::lemma_fundamental_div_mod(b as int, 10);
        let da = decimal(a / 10);
        let db = decimal(b / 10);
        assert(decimal(a).drop_last() =~= da);
        assert(decimal(b).drop_last() =~= db);
        lemma_decimal_injective(a / 10, b / 10);
        assert(decimal(a).last() == crate::text::digit_char(a % 10));
        assert(decimal(b).last() == crate::text::digit_char(b % 10));
        lemma_digit_char_injective(a % 10, b % 10);
        vstd::arithmetic::div_mod::lemma_small_mod((a % 10) as nat, 10);
        vstd::arithmetic::div_mod::lemma_small_mod((b % 10) as nat, 10);
    } else {
        assert(decimal(a).len() != decimal(b).len());
    }
}

proof fn lemma_framed_cancel(pre: Seq<char>, mid: Seq<char>, x: Seq<char>, y: Seq<char>, post: Seq<char>)
    requires
        pre + mid + x + post == pre + mid + y + post,
    ensures
        x == y,
{
    let a = pre + mid + x + post;
    let b = pre + mid + y + post;
    assert(a.len() == pre.len() + mid.len() + x.len() + post.len());
    assert(b.len() == pre.len() + mid.len() + y.len() + post.len());
    assert(x.len() == y.len());
    assert(x =~= a.subrange((pre.len() + mid.len()) as int, (pre.len() + mid.len() + x.len()) as int));
    assert(y =~= b.subrange((pre.len() + mid.len()) as int, (pre.len() + mid.len() + y.len()) as int));
}

/// Two same-named siblings never share one diagnostic path, when both carry
/// distinct Figma ids or neither carries one.
pub proof fn same_named_siblings_get_distinct_segments(nodes: Seq<&FigmaNode>, p: int, q: int)
    requires
        0 <= p < nodes.len(),
        0 <= q < nodes.len(),
        p != q,
        nodes[p].name@ == nodes[q].name@,
        match (nodes[p].id, nodes[q].id) {
            (Some(a), Some(b)) => a@ != b@,
            (None, None) => true,
            _ => false,
        },
    ensures
        segment(nodes, p) != segment(nodes, q),
{
    let names = names_of(nodes);
    lemma_count_two(names, p, q);
    let name = nodes[p].name@;
    match (nodes[p].id, nodes[q].id) {
        (Some(a), Some(b)) => {
            if segment(nodes, p) == segment(nodes, q) {
                lemma_framed_cancel(name, " ("@, a@, b@, ")"@);
            }
        },
        _ => {
            if segment(nodes, p) == segment(nodes, q) {
                lemma_framed_cancel(name, " (#"@, decimal(p as nat), decimal(q as nat), ")"@);
                lemma_decimal_injective(p as nat, q as nat);
            }
        },
    }
}

/// A name held at two positions is counted at least twice.
proof fn lemma_count_two(names: Seq<Seq<char>>, p: int, q: int)
    requires
        0 <= p < names.len(),
        0 <= q < names.len(),
        p != q,
        names[p] == names[q],
    ensures
        count_named(names, names[p]) > 1,
    decreases names.len(),
{
    let last = names.len() - 1;
    let init = names.drop_last();
    if p == last {
        lemma_count_one(init, q, names[p]);
    } else if q == last {
        lemma_count_one(init, p, names[p]);
    } else {
        assert(init[p] == names[p] && init[q] == names[q]);
        lemma_count_two(init, p, q);
    }
}

proof fn lemma_count_one(names: Seq<Seq<char>>, p: int, name: Seq<char>)
    requires
        0 <= p < names.len(),
        names[p] == name,
    ensures
        count_named(names, name) >= 1,
    decreases names.len(),
{
    if p < names.len() - 1 {
        assert(names.drop_last()[p] == names[p]);
        lemma_count_one(names.drop_last(), p, name);
    }
}

// ------------------------------------------------------------ image census

/// Why lowering cannot proceed: a file that is not the JSON it claims to
/// be, a file shape the walk cannot start on, an image the caller did not
/// supply, or a document that carried an error-severity finding.
#[derive(Clone, Debug)]
pub enum CompileError {
    /// The parser's explanation.
    Parse(String),
    Unsupported { path: String, what: String },
    UnresolvedImage { path: String, image_ref: String },
    Diagnostics(Vec<crate::diagnostics::Diagnostic>),
}

/// A compile error by value.
pub enum CompileErrorView {
    Parse(Seq<char>),
    Unsupported { path: Seq<char>, what: Seq<char> },
    UnresolvedImage { path: Seq<char>, image_ref: Seq<char> },
    Diagnostics(Seq<crate::diagnostics::DiagnosticView>),
}

impl View for CompileError {
    type V = CompileErrorView;

    open spec fn view(&self) -> CompileErrorView {
        match self {
            CompileError::Parse(m) => CompileErrorView::Parse(m@),
            CompileError::Unsupported { path, what } => CompileErrorView::Unsupported { path: path@, what: what@ },
            CompileError::UnresolvedImage { path, image_ref } => CompileErrorView::UnresolvedImage {
                path: path@,
                image_ref: image_ref@,
            },
            CompileError::Diagnostics(ds) => CompileErrorView::Diagnostics(ds@.map_values(|d: crate::diagnostics::Diagnostic| d@)),
        }
    }
}

/// The image references among `ps`: each `IMAGE` paint's `imageRef`.
pub open spec fn paint_refs(ps: Seq<FigmaPaint>) -> Set<Seq<char>> {
    Set::new(
        |r: Seq<char>|
            exists|i: int|
                0 <= i < ps.len() && (#[trigger] ps[i]).kind@ == "IMAGE"@ && opt_chars(ps[i].image_ref)
                    == Some(r),
    )
}

/// The image references a node's own fills and strokes carry.
pub open spec fn own_refs(n: FigmaNode) -> Set<Seq<char>> {
    paint_refs(n.fills@ + n.strokes@)
}

/// The image references of a node and everything below it.
pub open spec fn subtree_refs(n: FigmaNode) -> Set<Seq<char>>
    decreases n, 0nat,
{
    own_refs(n).union(forest_refs(n.children@))
}

/// The image references of every node of `ns` and everything below them.
pub open spec fn forest_refs(ns: Seq<FigmaNode>) -> Set<Seq<char>>
    decreases ns, 1nat,
{
    if ns.len() == 0 {
        Set::empty()
    } else {
        proof {
            assert(decreases_to!(ns => ns.drop_last()));
        }
        forest_refs(ns.drop_last()).union(subtree_refs(ns.last()))
    }
}

/// How many nodes a node's subtree holds.
pub open spec fn subtree_size(n: FigmaNode) -> nat
    decreases n, 0nat,
{
    1 + forest_size(n.children@)
}

pub open spec fn forest_size(ns: Seq<FigmaNode>) -> nat
    decreases ns, 1nat,
{
    if ns.len() == 0 {
        0
    } else {
        proof {
            assert(decreases_to!(ns => ns.drop_last()));
        }
        forest_size(ns.drop_last()) + subtree_size(ns.last())
    }
}

pub(crate) proof fn lemma_forest_append(a: Seq<FigmaNode>, b: Seq<FigmaNode>)
    ensures
        forest_refs(a + b) == forest_refs(a).union(forest_refs(b)),
        forest_size(a + b) == forest_size(a) + forest_size(b),
    decreases b.len(),
{
    if b.len() == 0 {
        assert(a + b =~= a);
        assert(forest_refs(a).union(Set::empty()) =~= forest_refs(a));
    } else {
        assert((a + b).drop_last() =~= a + b.drop_last());
        lemma_forest_append(a, b.drop_last());
        assert((a + b).last() == b.last());
        assert(forest_refs(a + b) =~= forest_refs(a).union(forest_refs(b)));
    }
}

/// The nodes under every `CANVAS` among `children`, in order.
pub open spec fn canvas_children(children: Seq<FigmaNode>) -> Seq<FigmaNode>
    decreases children.len(),
{
    if children.len() == 0 {
        seq![]
    } else {
        let c = children.last();
        canvas_children(children.drop_last()) + if c.kind@ == "CANVAS"@ {
            c.children@
        } else {
            seq![]
        }
    }
}

pub open spec fn derefs(ns: Seq<&FigmaNode>) -> Seq<FigmaNode> {
    ns.map_values(|n: &FigmaNode| *n)
}

/// Every top-level node under every `CANVAS`: the roots the walk lowers. A
/// document with none has nothing to lower and is refused.
pub fn top_level_nodes(document: &FigmaNode) -> (r: Result<Vec<&FigmaNode>, CompileError>)
    ensures
        match r {
            Ok(roots) => derefs(roots@) == canvas_children(document.children@) && roots@.len() > 0,
            Err(e) => {
                &&& canvas_children(document.children@).len() == 0
                &&& e matches CompileError::Unsupported { path, what } && path@ == "/"@ && what@
                    == "a document with no top-level node under any CANVAS"@
            },
        },
{
    let mut roots: Vec<&FigmaNode> = Vec::new();
    let mut i: usize = 0;
    proof {
        assert(document.children@.take(0) =~= Seq::<FigmaNode>::empty());
        assert(derefs(roots@) =~= Seq::<FigmaNode>::empty());
    }
    while i < document.children.len()
        invariant
            i <= document.children@.len(),
            derefs(roots@) == canvas_children(document.children@.take(i as int)),
        decreases document.children@.len() - i,
    {
        let canvas = &document.children[i];
        proof {
            assert(document.children@.take(i + 1).drop_last() =~= document.children@.take(i as int));
            assert(document.children@.take(i + 1).last() == *canvas);
        }
        if str_eq(canvas.kind.as_str(), "CANVAS") {
            let ghost before = derefs(roots@);
            let mut k: usize = 0;
            while k < canvas.children.len()
                invariant
                    k <= canvas.children@.len(),
                    derefs(roots@) == before + canvas.children@.take(k as int),
                decreases canvas.children@.len() - k,
            {
                let child = &canvas.children[k];
                let ghost prev = roots@;
                roots.push(child);
                proof {
                    assert(*child == canvas.children@[k as int]);
                    assert(roots@ == prev.push(child));
                    assert(derefs(roots@) =~= derefs(prev).push(*child));
                    assert(canvas.children@.take(k + 1) =~= canvas.children@.take(k as int).push(*child));
                    assert(derefs(roots@) =~= before + canvas.children@.take(k + 1));
                }
                k = k + 1;
            }
            proof {
                assert(canvas.children@.take(k as int) =~= canvas.children@);
            }
        } else {
            proof {
                assert(derefs(roots@) =~= derefs(roots@) + Seq::<FigmaNode>::empty());
            }
        }
        i = i + 1;
    }
    proof {
        assert(document.children@.take(i as int) =~= document.children@);
    }
    if roots.len() == 0 {
        return Err(
            CompileError::Unsupported {
                path: string_of("/"),
                what: string_of("a document with no top-level node under any CANVAS"),
            },
        );
    }
    Ok(roots)
}

/// Every element sorts strictly before the next: sorted, no repeats.
pub open spec fn strictly_sorted(s: Seq<Seq<char>>) -> bool {
    forall|i: int, j: int| 0 <= i < j < s.len() ==> lex_lt(#[trigger] s[i], #[trigger] s[j])
}

/// Adds `x` to the sorted, repeat-free `v`, unless it is already there.
pub(crate) fn insert_sorted(v: &mut Vec<String>, x: String)
    requires
        strictly_sorted(strings_view(old(v)@)),
    ensures
        strictly_sorted(strings_view(final(v)@)),
        strings_view(final(v)@).to_set() == strings_view(old(v)@).to_set().insert(x@),
{
    let ghost sv = strings_view(v@);
    let mut k: usize = 0;
    while k < v.len() && str_lt(v[k].as_str(), x.as_str())
        invariant
            k <= v@.len(),
            sv == strings_view(v@),
            strictly_sorted(sv),
            forall|j: int| 0 <= j < k ==> lex_lt(#[trigger] sv[j], x@),
        decreases v@.len() - k,
    {
        proof {
            assert(sv[k as int] == v@[k as int]@);
        }
        k = k + 1;
    }
    if k < v.len() && v[k] == x {
        proof {
            assert(sv[k as int] == x@);
            assert(sv.to_set().insert(x@) =~= sv.to_set());
        }
        return;
    }
    proof {
        if k < sv.len() {
            assert(sv[k as int] == v@[k as int]@);
            assert(!lex_lt(sv[k as int], x@));
            lemma_lex_total(sv[k as int], x@);
        }
    }
    let ghost xv = x@;
    v.insert(k, x);
    proof {
        let nv = strings_view(v@);
        assert(nv =~= sv.insert(k as int, xv));
        assert forall|i: int, j: int| 0 <= i < j < nv.len() implies lex_lt(#[trigger] nv[i], #[trigger] nv[j]) by {
            if j < k {
                assert(nv[i] == sv[i] && nv[j] == sv[j]);
            } else if j == k {
                assert(nv[i] == sv[i]);
            } else if i == k {
                assert(nv[j] == sv[j - 1]);
                if j - 1 > k {
                    lemma_lex_transitive(xv, sv[k as int], sv[j - 1]);
                }
            } else if i < k {
                assert(nv[i] == sv[i] && nv[j] == sv[j - 1]);
            } else {
                assert(nv[i] == sv[i - 1] && nv[j] == sv[j - 1]);
            }
        }
        assert forall|r: Seq<char>| #[trigger] nv.to_set().contains(r) == sv.to_set().insert(xv).contains(r) by {
            if nv.to_set().contains(r) {
                let i = choose|i: int| 0 <= i < nv.len() && nv[i] == r;
                if i < k {
                    assert(sv[i] == r);
                } else if i > k {
                    assert(sv[i - 1] == r);
                }
            }
            if sv.to_set().contains(r) {
                let i = choose|i: int| 0 <= i < sv.len() && sv[i] == r;
                if i < k {
                    assert(nv[i] == r);
                } else {
                    assert(nv[i + 1] == r);
                }
            }
            if r == xv {
                assert(nv[k as int] == r);
            }
        }
        assert(nv.to_set() =~= sv.to_set().insert(xv));
    }
}

proof fn lemma_paint_refs_append(a: Seq<FigmaPaint>, b: Seq<FigmaPaint>)
    ensures
        paint_refs(a + b) == paint_refs(a).union(paint_refs(b)),
{
    let ab = a + b;
    assert forall|r: Seq<char>| #[trigger] paint_refs(ab).contains(r) == paint_refs(a).union(paint_refs(b)).contains(r) by {
        if paint_refs(ab).contains(r) {
            let j = choose|j: int| 0 <= j < ab.len() && (#[trigger] ab[j]).kind@ == "IMAGE"@ && opt_chars(ab[j].image_ref) == Some(r);
            if j < a.len() {
                assert(ab[j] == a[j]);
            } else {
                assert(ab[j] == b[j - a.len()]);
            }
        }
        if paint_refs(a).contains(r) {
            let j = choose|j: int| 0 <= j < a.len() && (#[trigger] a[j]).kind@ == "IMAGE"@ && opt_chars(a[j].image_ref) == Some(r);
            assert(ab[j] == a[j]);
        }
        if paint_refs(b).contains(r) {
            let j = choose|j: int| 0 <= j < b.len() && (#[trigger] b[j]).kind@ == "IMAGE"@ && opt_chars(b[j].image_ref) == Some(r);
            assert(ab[a.len() + j] == b[j]);
        }
    }
    assert(paint_refs(ab) =~= paint_refs(a).union(paint_refs(b)));
}

proof fn lemma_paint_refs_push(a: Seq<FigmaPaint>, p: FigmaPaint)
    ensures
        paint_refs(a.push(p)) == (if p.kind@ == "IMAGE"@ && p.image_ref is Some {
            paint_refs(a).insert(p.image_ref->0@)
        } else {
            paint_refs(a)
        }),
{
    let ap = a.push(p);
    let want = if p.kind@ == "IMAGE"@ && p.image_ref is Some {
        paint_refs(a).insert(p.image_ref->0@)
    } else {
        paint_refs(a)
    };
    assert forall|r: Seq<char>| #[trigger] paint_refs(ap).contains(r) == want.contains(r) by {
        if paint_refs(ap).contains(r) {
            let j = choose|j: int| 0 <= j < ap.len() && (#[trigger] ap[j]).kind@ == "IMAGE"@ && opt_chars(ap[j].image_ref) == Some(r);
            if j < a.len() {
                assert(ap[j] == a[j]);
            }
        }
        if paint_refs(a).contains(r) {
            let j = choose|j: int| 0 <= j < a.len() && (#[trigger] a[j]).kind@ == "IMAGE"@ && opt_chars(a[j].image_ref) == Some(r);
            assert(ap[j] == a[j]);
        }
        if p.kind@ == "IMAGE"@ && p.image_ref is Some && r == p.image_ref->0@ {
            assert(ap[a.len() as int] == p);
        }
    }
    assert(paint_refs(ap) =~= want);
}

/// Adds the image references among `paints` to the sorted `found`.
fn collect_refs(paints: &Vec<FigmaPaint>, found: &mut Vec<String>)
    requires
        strictly_sorted(strings_view(old(found)@)),
    ensures
        strictly_sorted(strings_view(final(found)@)),
        strings_view(final(found)@).to_set() == strings_view(old(found)@).to_set().union(paint_refs(paints@)),
{
    let ghost base = strings_view(found@).to_set();
    let mut i: usize = 0;
    proof {
        assert(paints@.take(0) =~= Seq::<FigmaPaint>::empty());
        assert(paint_refs(Seq::<FigmaPaint>::empty()) =~= Set::<Seq<char>>::empty());
        assert(base.union(Set::<Seq<char>>::empty()) =~= base);
    }
    while i < paints.len()
        invariant
            i <= paints@.len(),
            strictly_sorted(strings_view(found@)),
            strings_view(found@).to_set() == base.union(paint_refs(paints@.take(i as int))),
        decreases paints@.len() - i,
    {
        let paint = &paints[i];
        proof {
            assert(paints@.take(i + 1) =~= paints@.take(i as int).push(*paint));
            lemma_paint_refs_push(paints@.take(i as int), *paint);
        }
        if str_eq(paint.kind.as_str(), "IMAGE") {
            match &paint.image_ref {
                Some(r) => {
                    insert_sorted(found, r.clone());
                    proof {
                        assert(base.union(paint_refs(paints@.take(i as int))).insert(r@) =~= base.union(
                            paint_refs(paints@.take(i as int)).insert(r@),
                        ));
                    }
                },
                None => {},
            }
        }
        i = i + 1;
    }
    proof {
        assert(paints@.take(i as int) =~= paints@);
    }
}

/// The image references a lowering of this file will demand: every
/// `IMAGE` paint's `imageRef` on any node under any `CANVAS`, sorted, each
/// once. A file with no top-level node is refused.
pub fn image_refs(document: &FigmaNode) -> (r: Result<Vec<String>, CompileError>)
    ensures
        match r {
            Ok(refs) => {
                &&& canvas_children(document.children@).len() > 0
                &&& strictly_sorted(strings_view(refs@))
                &&& strings_view(refs@).to_set() == forest_refs(canvas_children(document.children@))
            },
            Err(e) => {
                &&& canvas_children(document.children@).len() == 0
                &&& e matches CompileError::Unsupported { path, what } && path@ == "/"@ && what@
                    == "a document with no top-level node under any CANVAS"@
            },
        },
{
    let mut stack = match top_level_nodes(document) {
        Ok(roots) => roots,
        Err(e) => return Err(e),
    };
    let ghost total = forest_refs(derefs(stack@));
    let mut found: Vec<String> = Vec::new();
    proof {
        assert(strings_view(found@).to_set() =~= Set::<Seq<char>>::empty());
        assert(Set::<Seq<char>>::empty().union(total) =~= total);
    }
    while stack.len() > 0
        invariant
            strictly_sorted(strings_view(found@)),
            strings_view(found@).to_set().union(forest_refs(derefs(stack@))) == total,
        decreases forest_size(derefs(stack@)),
    {
        let ghost before = derefs(stack@);
        let ghost set_before = strings_view(found@).to_set();
        let node = stack.pop().unwrap();
        proof {
            assert(derefs(stack@) =~= before.drop_last());
            assert(before.last() == *node);
        }
        let ghost rest = derefs(stack@);
        collect_refs(&node.fills, &mut found);
        collect_refs(&node.strokes, &mut found);
        proof {
            lemma_paint_refs_append(node.fills@, node.strokes@);
            assert(strings_view(found@).to_set() =~= set_before.union(own_refs(*node)));
        }
        let mut k: usize = 0;
        let ghost base = derefs(stack@);
        proof {
            assert(node.children@.take(0) =~= Seq::<FigmaNode>::empty());
            assert(base + node.children@.take(0) =~= base);
        }
        while k < node.children.len()
            invariant
                k <= node.children@.len(),
                derefs(stack@) == base + node.children@.take(k as int),
            decreases node.children@.len() - k,
        {
            let child = &node.children[k];
            let ghost prev = stack@;
            stack.push(child);
            proof {
                assert(*child == node.children@[k as int]);
                assert(derefs(stack@) =~= derefs(prev).push(*child));
                assert(node.children@.take(k + 1) =~= node.children@.take(k as int).push(*child));
                assert(derefs(stack@) =~= base + node.children@.take(k + 1));
            }
            k = k + 1;
        }
        proof {
            assert(node.children@.take(k as int) =~= node.children@);
            lemma_forest_append(rest, node.children@);
            assert(before.len() > 0);
            assert(before.drop_last() == rest);
            assert(forest_refs(before) == forest_refs(rest).union(subtree_refs(*node)));
            assert(subtree_refs(*node) == own_refs(*node).union(forest_refs(node.children@)));
            assert(forest_size(before) == forest_size(rest) + subtree_size(*node));
            assert(subtree_size(*node) == 1 + forest_size(node.children@));
            assert(strings_view(found@).to_set().union(forest_refs(derefs(stack@))) =~= set_before.union(
                forest_refs(before),
            ));
        }
    }
    proof {
        assert(forest_refs(derefs(stack@)) =~= Set::<Seq<char>>::empty());
        assert(strings_view(found@).to_set() =~= total);
    }
    Ok(found)
}

/// The deepest `{`/`[` nesting a file may have: the parser runs with its own
/// recursion limit off, and this guard is what makes that safe.
pub const MAX_JSON_DEPTH: usize = 256;

pub open spec fn depth_message(depth: nat) -> Seq<char> {
    "the file nests "@ + decimal(depth) + " JSON levels deep; the limit is "@ + decimal(MAX_JSON_DEPTH as nat)
}

/// The refusal of a file nested deeper than `MAX_JSON_DEPTH`, naming both
/// depths, or nothing for a file the parser may be given.
pub fn depth_refusal(json: &str) -> (r: Option<String>)
    ensures
        ({
            let depth = depth_scan(json.spec_bytes()).max;
            match r {
                Some(m) => depth > MAX_JSON_DEPTH && m@ == depth_message(depth),
                None => depth <= MAX_JSON_DEPTH,
            }
        }),
{
    let depth = json_depth(json);
    if depth > MAX_JSON_DEPTH {
        let mut m = string_of("the file nests ");
        push_decimal(&mut m, depth as u64);
        push_str(&mut m, " JSON levels deep; the limit is ");
        push_decimal(&mut m, MAX_JSON_DEPTH as u64);
        Some(m)
    } else {
        None
    }
}

} // verus!
