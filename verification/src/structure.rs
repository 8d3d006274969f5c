//! Whether two variant members' matching layers differ beyond what a
//! variant override can carry, and in what. Every field of a layer is
//! either overridable (its box, fills, visibility and turn), identity (id,
//! name, children, prototype), or compared here, in a fixed order, the
//! first difference named. Lengths and colours compare as the floats they
//! are: a NaN differs from everything and the two zeros agree.
use vstd::prelude::*;

use crate::document::Color;
use crate::figma::{
    ArcData, ComplexStrokeProperties, FigmaEffect, FigmaNode, FigmaPaint, FigmaTextStyle, Geometry, GradientStop,
    Handedness, Json, JsonMember, Point,
};
use crate::text::{opt_chars, str_eq};
use crate::tweens::{f32_equal, f32_equal_exec};

verus! {

// ------------------------------------------------------------- scalars

/// Whether a double-precision bit pattern is a NaN.
pub open spec fn is_nan_bits64(b: u64) -> bool {
    (0x7ff0_0000_0000_0000 < b && b < 0x8000_0000_0000_0000) || 0xfff0_0000_0000_0000 < b
}

/// IEEE-754 equality of two double-precision values given by their bits.
pub open spec fn f64_equal(a: u64, b: u64) -> bool {
    !is_nan_bits64(a) && !is_nan_bits64(b) && (a == b || ((a == 0 || a == 0x8000_0000_0000_0000) && (b == 0
        || b == 0x8000_0000_0000_0000)))
}

fn f64_equal_exec(a: u64, b: u64) -> (r: bool)
    ensures
        r == f64_equal(a, b),
{
    let nan_a = (0x7ff0_0000_0000_0000 < a && a < 0x8000_0000_0000_0000) || 0xfff0_0000_0000_0000 < a;
    let nan_b = (0x7ff0_0000_0000_0000 < b && b < 0x8000_0000_0000_0000) || 0xfff0_0000_0000_0000 < b;
    !nan_a && !nan_b && (a == b || ((a == 0 || a == 0x8000_0000_0000_0000) && (b == 0 || b
        == 0x8000_0000_0000_0000)))
}

pub open spec fn opt_f32_same(a: Option<u32>, b: Option<u32>) -> bool {
    match (a, b) {
        (None, None) => true,
        (Some(x), Some(y)) => f32_equal(x, y),
        _ => false,
    }
}

fn opt_f32_same_exec(a: Option<u32>, b: Option<u32>) -> (r: bool)
    ensures
        r == opt_f32_same(a, b),
{
    match (a, b) {
        (None, None) => true,
        (Some(x), Some(y)) => f32_equal_exec(x, y),
        _ => false,
    }
}

pub open spec fn opt_str_same(a: Option<String>, b: Option<String>) -> bool {
    opt_chars(a) == opt_chars(b)
}

fn opt_str_same_exec(a: &Option<String>, b: &Option<String>) -> (r: bool)
    ensures
        r == opt_str_same(*a, *b),
{
    match (a, b) {
        (None, None) => true,
        (Some(x), Some(y)) => str_eq(x.as_str(), y.as_str()),
        _ => false,
    }
}

pub open spec fn color_same(a: Color, b: Color) -> bool {
    f32_equal(a.r, b.r) && f32_equal(a.g, b.g) && f32_equal(a.b, b.b) && f32_equal(a.a, b.a)
}

fn color_same_exec(a: Color, b: Color) -> (r: bool)
    ensures
        r == color_same(a, b),
{
    f32_equal_exec(a.r, b.r) && f32_equal_exec(a.g, b.g) && f32_equal_exec(a.b, b.b) && f32_equal_exec(a.a, b.a)
}

pub open spec fn opt_color_same(a: Option<Color>, b: Option<Color>) -> bool {
    match (a, b) {
        (None, None) => true,
        (Some(x), Some(y)) => color_same(x, y),
        _ => false,
    }
}

fn opt_color_same_exec(a: Option<Color>, b: Option<Color>) -> (r: bool)
    ensures
        r == opt_color_same(a, b),
{
    match (a, b) {
        (None, None) => true,
        (Some(x), Some(y)) => color_same_exec(x, y),
        _ => false,
    }
}

pub open spec fn point_same(a: Point, b: Point) -> bool {
    f32_equal(a.x, b.x) && f32_equal(a.y, b.y)
}

pub open spec fn opt_point_same(a: Option<Point>, b: Option<Point>) -> bool {
    match (a, b) {
        (None, None) => true,
        (Some(x), Some(y)) => point_same(x, y),
        _ => false,
    }
}

fn opt_point_same_exec(a: Option<Point>, b: Option<Point>) -> (r: bool)
    ensures
        r == opt_point_same(a, b),
{
    match (a, b) {
        (None, None) => true,
        (Some(x), Some(y)) => f32_equal_exec(x.x, y.x) && f32_equal_exec(x.y, y.y),
        _ => false,
    }
}

pub open spec fn words_same(a: Seq<u32>, b: Seq<u32>) -> bool {
    a.len() == b.len() && forall|i: int| 0 <= i < a.len() ==> f32_equal(#[trigger] a[i], b[i])
}

fn words_same_exec(a: &[u32], b: &[u32]) -> (r: bool)
    ensures
        r == words_same(a@, b@),
{
    if a.len() != b.len() {
        return false;
    }
    let mut i: usize = 0;
    while i < a.len()
        invariant
            i <= a@.len(),
            a@.len() == b@.len(),
            forall|k: int| 0 <= k < i ==> f32_equal(#[trigger] a@[k], b@[k]),
        decreases a@.len() - i,
    {
        if !f32_equal_exec(a[i], b[i]) {
            return false;
        }
        i = i + 1;
    }
    true
}

pub open spec fn opt_words_same(a: Option<Vec<u32>>, b: Option<Vec<u32>>) -> bool {
    match (a, b) {
        (None, None) => true,
        (Some(x), Some(y)) => words_same(x@, y@),
        _ => false,
    }
}

fn opt_words_same_exec(a: &Option<Vec<u32>>, b: &Option<Vec<u32>>) -> (r: bool)
    ensures
        r == opt_words_same(*a, *b),
{
    match (a, b) {
        (None, None) => true,
        (Some(x), Some(y)) => words_same_exec(x.as_slice(), y.as_slice()),
        _ => false,
    }
}

pub open spec fn opt_radii_same(a: Option<[u32; 4]>, b: Option<[u32; 4]>) -> bool {
    match (a, b) {
        (None, None) => true,
        (Some(x), Some(y)) => words_same(x@, y@),
        _ => false,
    }
}

fn opt_radii_same_exec(a: &Option<[u32; 4]>, b: &Option<[u32; 4]>) -> (r: bool)
    ensures
        r == opt_radii_same(*a, *b),
{
    match (a, b) {
        (None, None) => true,
        (Some(x), Some(y)) => words_same_exec(x.as_slice(), y.as_slice()),
        _ => false,
    }
}

pub open spec fn opt_transform_same(a: Option<[u32; 6]>, b: Option<[u32; 6]>) -> bool {
    match (a, b) {
        (None, None) => true,
        (Some(x), Some(y)) => words_same(x@, y@),
        _ => false,
    }
}

fn opt_transform_same_exec(a: &Option<[u32; 6]>, b: &Option<[u32; 6]>) -> (r: bool)
    ensures
        r == opt_transform_same(*a, *b),
{
    match (a, b) {
        (None, None) => true,
        (Some(x), Some(y)) => words_same_exec(x.as_slice(), y.as_slice()),
        _ => false,
    }
}

pub open spec fn opt_arc_same(a: Option<ArcData>, b: Option<ArcData>) -> bool {
    match (a, b) {
        (None, None) => true,
        (Some(x), Some(y)) => f32_equal(x.starting_angle, y.starting_angle) && f32_equal(
            x.ending_angle,
            y.ending_angle,
        ) && f32_equal(x.inner_radius, y.inner_radius),
        _ => false,
    }
}

fn opt_arc_same_exec(a: Option<ArcData>, b: Option<ArcData>) -> (r: bool)
    ensures
        r == opt_arc_same(a, b),
{
    match (a, b) {
        (None, None) => true,
        (Some(x), Some(y)) => f32_equal_exec(x.starting_angle, y.starting_angle) && f32_equal_exec(
            x.ending_angle,
            y.ending_angle,
        ) && f32_equal_exec(x.inner_radius, y.inner_radius),
        _ => false,
    }
}

// ------------------------------------------------------------- paints, effects, geometry

pub open spec fn points_same(a: Seq<Point>, b: Seq<Point>) -> bool {
    a.len() == b.len() && forall|i: int| 0 <= i < a.len() ==> point_same(#[trigger] a[i], b[i])
}

fn points_same_exec(a: &Vec<Point>, b: &Vec<Point>) -> (r: bool)
    ensures
        r == points_same(a@, b@),
{
    if a.len() != b.len() {
        return false;
    }
    let mut i: usize = 0;
    while i < a.len()
        invariant
            i <= a@.len(),
            a@.len() == b@.len(),
            forall|k: int| 0 <= k < i ==> point_same(#[trigger] a@[k], b@[k]),
        decreases a@.len() - i,
    {
        if !(f32_equal_exec(a[i].x, b[i].x) && f32_equal_exec(a[i].y, b[i].y)) {
            return false;
        }
        i = i + 1;
    }
    true
}

pub open spec fn stops_same(a: Seq<GradientStop>, b: Seq<GradientStop>) -> bool {
    a.len() == b.len() && forall|i: int|
        0 <= i < a.len() ==> f32_equal((#[trigger] a[i]).position, b[i].position) && color_same(a[i].color, b[i].color)
}

fn stops_same_exec(a: &Vec<GradientStop>, b: &Vec<GradientStop>) -> (r: bool)
    ensures
        r == stops_same(a@, b@),
{
    if a.len() != b.len() {
        return false;
    }
    let mut i: usize = 0;
    while i < a.len()
        invariant
            i <= a@.len(),
            a@.len() == b@.len(),
            forall|k: int|
                0 <= k < i ==> f32_equal((#[trigger] a@[k]).position, b@[k].position) && color_same(
                    a@[k].color,
                    b@[k].color,
                ),
        decreases a@.len() - i,
    {
        if !(f32_equal_exec(a[i].position, b[i].position) && color_same_exec(a[i].color, b[i].color)) {
            return false;
        }
        i = i + 1;
    }
    true
}

/// Whether two paints are the same, every field compared.
pub open spec fn paint_same(a: FigmaPaint, b: FigmaPaint) -> bool {
    &&& a.kind@ == b.kind@
    &&& opt_str_same(a.blend_mode, b.blend_mode)
    &&& a.visible == b.visible
    &&& opt_f32_same(a.opacity, b.opacity)
    &&& opt_color_same(a.color, b.color)
    &&& points_same(a.gradient_handle_positions@, b.gradient_handle_positions@)
    &&& stops_same(a.gradient_stops@, b.gradient_stops@)
    &&& opt_str_same(a.scale_mode, b.scale_mode)
    &&& opt_str_same(a.image_ref, b.image_ref)
    &&& opt_transform_same(a.image_transform, b.image_transform)
    &&& opt_f32_same(a.scaling_factor, b.scaling_factor)
}

fn paint_same_exec(a: &FigmaPaint, b: &FigmaPaint) -> (r: bool)
    ensures
        r == paint_same(*a, *b),
{
    str_eq(a.kind.as_str(), b.kind.as_str()) && opt_str_same_exec(&a.blend_mode, &b.blend_mode) && a.visible
        == b.visible && opt_f32_same_exec(a.opacity, b.opacity) && opt_color_same_exec(a.color, b.color)
        && points_same_exec(&a.gradient_handle_positions, &b.gradient_handle_positions) && stops_same_exec(
        &a.gradient_stops,
        &b.gradient_stops,
    ) && opt_str_same_exec(&a.scale_mode, &b.scale_mode) && opt_str_same_exec(&a.image_ref, &b.image_ref)
        && opt_transform_same_exec(&a.image_transform, &b.image_transform) && opt_f32_same_exec(
        a.scaling_factor,
        b.scaling_factor,
    )
}

pub open spec fn paints_same(a: Seq<FigmaPaint>, b: Seq<FigmaPaint>) -> bool {
    a.len() == b.len() && forall|i: int| 0 <= i < a.len() ==> paint_same(#[trigger] a[i], b[i])
}

fn paints_same_exec(a: &Vec<FigmaPaint>, b: &Vec<FigmaPaint>) -> (r: bool)
    ensures
        r == paints_same(a@, b@),
{
    if a.len() != b.len() {
        return false;
    }
    let mut i: usize = 0;
    while i < a.len()
        invariant
            i <= a@.len(),
            a@.len() == b@.len(),
            forall|k: int| 0 <= k < i ==> paint_same(#[trigger] a@[k], b@[k]),
        decreases a@.len() - i,
    {
        if !paint_same_exec(&a[i], &b[i]) {
            return false;
        }
        i = i + 1;
    }
    true
}

pub open spec fn effect_same(a: FigmaEffect, b: FigmaEffect) -> bool {
    &&& a.kind@ == b.kind@
    &&& a.visible == b.visible
    &&& opt_str_same(a.blur_type, b.blur_type)
    &&& opt_str_same(a.blend_mode, b.blend_mode)
    &&& opt_color_same(a.color, b.color)
    &&& opt_point_same(a.offset, b.offset)
    &&& opt_f32_same(a.radius, b.radius)
    &&& opt_f32_same(a.spread, b.spread)
}

pub open spec fn effects_same(a: Seq<FigmaEffect>, b: Seq<FigmaEffect>) -> bool {
    a.len() == b.len() && forall|i: int| 0 <= i < a.len() ==> effect_same(#[trigger] a[i], b[i])
}

fn effects_same_exec(a: &Vec<FigmaEffect>, b: &Vec<FigmaEffect>) -> (r: bool)
    ensures
        r == effects_same(a@, b@),
{
    if a.len() != b.len() {
        return false;
    }
    let mut i: usize = 0;
    while i < a.len()
        invariant
            i <= a@.len(),
            a@.len() == b@.len(),
            forall|k: int| 0 <= k < i ==> effect_same(#[trigger] a@[k], b@[k]),
        decreases a@.len() - i,
    {
        let (x, y) = (&a[i], &b[i]);
        let same = str_eq(x.kind.as_str(), y.kind.as_str()) && x.visible == y.visible && opt_str_same_exec(
            &x.blur_type,
            &y.blur_type,
        ) && opt_str_same_exec(&x.blend_mode, &y.blend_mode) && opt_color_same_exec(x.color, y.color)
            && opt_point_same_exec(x.offset, y.offset) && opt_f32_same_exec(x.radius, y.radius)
            && opt_f32_same_exec(x.spread, y.spread);
        if !same {
            return false;
        }
        i = i + 1;
    }
    true
}

pub open spec fn geometry_same(a: Seq<Geometry>, b: Seq<Geometry>) -> bool {
    a.len() == b.len() && forall|i: int|
        0 <= i < a.len() ==> (#[trigger] a[i]).path@ == b[i].path@ && opt_str_same(a[i].winding_rule, b[i].winding_rule)
}

fn geometry_same_exec(a: &Vec<Geometry>, b: &Vec<Geometry>) -> (r: bool)
    ensures
        r == geometry_same(a@, b@),
{
    if a.len() != b.len() {
        return false;
    }
    let mut i: usize = 0;
    while i < a.len()
        invariant
            i <= a@.len(),
            a@.len() == b@.len(),
            forall|k: int|
                0 <= k < i ==> (#[trigger] a@[k]).path@ == b@[k].path@ && opt_str_same(
                    a@[k].winding_rule,
                    b@[k].winding_rule,
                ),
        decreases a@.len() - i,
    {
        if !(str_eq(a[i].path.as_str(), b[i].path.as_str()) && opt_str_same_exec(
            &a[i].winding_rule,
            &b[i].winding_rule,
        )) {
            return false;
        }
        i = i + 1;
    }
    true
}

pub open spec fn stroke_kind_same(a: Option<ComplexStrokeProperties>, b: Option<ComplexStrokeProperties>) -> bool {
    match (a, b) {
        (None, None) => true,
        (Some(x), Some(y)) => opt_str_same(x.stroke_type, y.stroke_type),
        _ => false,
    }
}

fn stroke_kind_same_exec(a: &Option<ComplexStrokeProperties>, b: &Option<ComplexStrokeProperties>) -> (r: bool)
    ensures
        r == stroke_kind_same(*a, *b),
{
    match (a, b) {
        (None, None) => true,
        (Some(x), Some(y)) => opt_str_same_exec(&x.stroke_type, &y.stroke_type),
        _ => false,
    }
}

// ------------------------------------------------------------- JSON

/// Whether two JSON values are equal as the parser's values compare: by
/// kind and value, a float by IEEE equality, an array element by element,
/// and an object member by member in key order.
pub open spec fn json_same(a: Json, b: Json) -> bool
    decreases a,
{
    match (a, b) {
        (Json::Null, Json::Null) => true,
        (Json::Bool(x), Json::Bool(y)) => x == y,
        (Json::PosInt(x), Json::PosInt(y)) => x == y,
        (Json::NegInt(x), Json::NegInt(y)) => x == y,
        (Json::Float(x), Json::Float(y)) => f64_equal(x, y),
        (Json::Str(x), Json::Str(y)) => x@ == y@,
        (Json::Array(xs), Json::Array(ys)) => xs@.len() == ys@.len() && forall|i: int|
            0 <= i < xs@.len() ==> json_same(#[trigger] xs@[i], ys@[i]),
        (Json::Object(xs), Json::Object(ys)) => xs@.len() == ys@.len() && forall|i: int|
            0 <= i < xs@.len() ==> (#[trigger] xs@[i]).key@ == ys@[i].key@ && json_same(xs@[i].value, ys@[i].value),
        _ => false,
    }
}

pub open spec fn members_same(a: Seq<JsonMember>, b: Seq<JsonMember>) -> bool {
    a.len() == b.len() && forall|i: int|
        0 <= i < a.len() ==> (#[trigger] a[i]).key@ == b[i].key@ && json_same(a[i].value, b[i].value)
}

fn json_same_exec(a: &Json, b: &Json) -> (r: bool)
    ensures
        r == json_same(*a, *b),
    decreases *a,
{
    match (a, b) {
        (Json::Null, Json::Null) => true,
        (Json::Bool(x), Json::Bool(y)) => *x == *y,
        (Json::PosInt(x), Json::PosInt(y)) => *x == *y,
        (Json::NegInt(x), Json::NegInt(y)) => *x == *y,
        (Json::Float(x), Json::Float(y)) => f64_equal_exec(*x, *y),
        (Json::Str(x), Json::Str(y)) => str_eq(x.as_str(), y.as_str()),
        (Json::Array(xs), Json::Array(ys)) => {
            if xs.len() != ys.len() {
                return false;
            }
            let mut i: usize = 0;
            while i < xs.len()
                invariant
                    i <= xs@.len(),
                    xs@.len() == ys@.len(),
                    *a == Json::Array(*xs),
                    *b == Json::Array(*ys),
                    forall|k: int| 0 <= k < i ==> json_same(#[trigger] xs@[k], ys@[k]),
                decreases xs@.len() - i,
            {
                proof {
                    assert((*a)->Array_0 == *xs);
                    assert(decreases_to!(*a => (*a)->Array_0));
                    assert(decreases_to!(*xs => xs@));
                    assert(decreases_to!(xs@ => xs@[i as int]));
                }
                if !json_same_exec(&xs[i], &ys[i]) {
                    return false;
                }
                i = i + 1;
            }
            true
        },
        (Json::Object(xs), Json::Object(ys)) => {
            if xs.len() != ys.len() {
                return false;
            }
            let mut i: usize = 0;
            while i < xs.len()
                invariant
                    i <= xs@.len(),
                    xs@.len() == ys@.len(),
                    *a == Json::Object(*xs),
                    *b == Json::Object(*ys),
                    forall|k: int|
                        0 <= k < i ==> (#[trigger] xs@[k]).key@ == ys@[k].key@ && json_same(
                            xs@[k].value,
                            ys@[k].value,
                        ),
                decreases xs@.len() - i,
            {
                proof {
                    assert((*a)->Object_0 == *xs);
                    assert(decreases_to!(*a => (*a)->Object_0));
                    assert(decreases_to!(*xs => xs@));
                    assert(decreases_to!(xs@ => xs@[i as int]));
                    assert(decreases_to!(xs@[i as int] => xs@[i as int].value));
                }
                if !(str_eq(xs[i].key.as_str(), ys[i].key.as_str()) && json_same_exec(&xs[i].value, &ys[i].value)) {
                    return false;
                }
                i = i + 1;
            }
            true
        },
        _ => false,
    }
}

fn members_same_exec(a: &Vec<JsonMember>, b: &Vec<JsonMember>) -> (r: bool)
    ensures
        r == members_same(a@, b@),
{
    if a.len() != b.len() {
        return false;
    }
    let mut i: usize = 0;
    while i < a.len()
        invariant
            i <= a@.len(),
            a@.len() == b@.len(),
            forall|k: int| 0 <= k < i ==> (#[trigger] a@[k]).key@ == b@[k].key@ && json_same(a@[k].value, b@[k].value),
        decreases a@.len() - i,
    {
        if !(str_eq(a[i].key.as_str(), b[i].key.as_str()) && json_same_exec(&a[i].value, &b[i].value)) {
            return false;
        }
        i = i + 1;
    }
    true
}

pub open spec fn opt_json_same(a: Option<Json>, b: Option<Json>) -> bool {
    match (a, b) {
        (None, None) => true,
        (Some(x), Some(y)) => json_same(x, y),
        _ => false,
    }
}

fn opt_json_same_exec(a: &Option<Json>, b: &Option<Json>) -> (r: bool)
    ensures
        r == opt_json_same(*a, *b),
{
    match (a, b) {
        (None, None) => true,
        (Some(x), Some(y)) => json_same_exec(x, y),
        _ => false,
    }
}

// ------------------------------------------------------------- text style

/// Whether two text styles are the same, every field compared: the read
/// style's fields, with the weight, hyperlink and OpenType flags as
/// authored.
pub open spec fn style_same(a: FigmaNode, b: FigmaNode) -> bool {
    match (a.style, b.style) {
        (None, None) => true,
        (Some(x), Some(y)) => {
            &&& x.font_family@ == y.font_family@
            &&& opt_str_same(x.font_style, y.font_style)
            &&& opt_f32_same(a.compared.style_font_weight, b.compared.style_font_weight)
            &&& f32_equal(x.font_size, y.font_size)
            &&& opt_str_same(x.text_align_horizontal, y.text_align_horizontal)
            &&& opt_str_same(x.text_align_vertical, y.text_align_vertical)
            &&& x.text_auto_resize@ == y.text_auto_resize@
            &&& opt_str_same(x.text_decoration, y.text_decoration)
            &&& opt_str_same(x.text_case, y.text_case)
            &&& opt_f32_same(x.letter_spacing, y.letter_spacing)
            &&& opt_str_same(x.line_height_unit, y.line_height_unit)
            &&& opt_f32_same(x.line_height_px, y.line_height_px)
            &&& opt_json_same(a.compared.style_hyperlink, b.compared.style_hyperlink)
            &&& members_same(a.compared.style_opentype_flags@, b.compared.style_opentype_flags@)
        },
        _ => false,
    }
}

fn style_fields_same(x: &FigmaTextStyle, y: &FigmaTextStyle) -> (r: bool)
    ensures
        r == (x.font_family@ == y.font_family@ && opt_str_same(x.font_style, y.font_style) && f32_equal(
            x.font_size,
            y.font_size,
        ) && opt_str_same(x.text_align_horizontal, y.text_align_horizontal) && opt_str_same(
            x.text_align_vertical,
            y.text_align_vertical,
        ) && x.text_auto_resize@ == y.text_auto_resize@ && opt_str_same(x.text_decoration, y.text_decoration)
            && opt_str_same(x.text_case, y.text_case) && opt_f32_same(x.letter_spacing, y.letter_spacing)
            && opt_str_same(x.line_height_unit, y.line_height_unit) && opt_f32_same(
            x.line_height_px,
            y.line_height_px,
        )),
{
    str_eq(x.font_family.as_str(), y.font_family.as_str()) && opt_str_same_exec(&x.font_style, &y.font_style)
        && f32_equal_exec(x.font_size, y.font_size) && opt_str_same_exec(
        &x.text_align_horizontal,
        &y.text_align_horizontal,
    ) && opt_str_same_exec(&x.text_align_vertical, &y.text_align_vertical) && str_eq(
        x.text_auto_resize.as_str(),
        y.text_auto_resize.as_str(),
    ) && opt_str_same_exec(&x.text_decoration, &y.text_decoration) && opt_str_same_exec(
        &x.text_case,
        &y.text_case,
    ) && opt_f32_same_exec(x.letter_spacing, y.letter_spacing) && opt_str_same_exec(
        &x.line_height_unit,
        &y.line_height_unit,
    ) && opt_f32_same_exec(x.line_height_px, y.line_height_px)
}

fn style_same_exec(a: &FigmaNode, b: &FigmaNode) -> (r: bool)
    ensures
        r == style_same(*a, *b),
{
    match (&a.style, &b.style) {
        (None, None) => true,
        (Some(x), Some(y)) => style_fields_same(x, y) && opt_f32_same_exec(
            a.compared.style_font_weight,
            b.compared.style_font_weight,
        ) && opt_json_same_exec(&a.compared.style_hyperlink, &b.compared.style_hyperlink) && members_same_exec(
            &a.compared.style_opentype_flags,
            &b.compared.style_opentype_flags,
        ),
        _ => false,
    }
}

// ------------------------------------------------------------- the comparison

/// Whether a transform carries its angle: absent, or upright.
pub open spec fn carries_its_angle(h: Option<Handedness>) -> bool {
    h is None || h == Some(Handedness::Upright)
}

/// Whether a transform encloses any area: absent, or not collapsed.
pub open spec fn has_area(h: Option<Handedness>) -> bool {
    h != Some(Handedness::Collapsed)
}

/// The first field, in the comparison's order, in which `a` and `b` differ
/// beyond what an override can carry, named for a finding; nothing when
/// they differ only in what an override carries. `same_orientation` says
/// whether their transforms face the same way once their magnitudes are
/// divided out; it decides only where one of them does not carry its
/// angle, and then a pair that both enclose area differs in its mirroring.
/// The vector geometry counts only on a `VECTOR`.
pub open spec fn first_structural_difference(a: FigmaNode, b: FigmaNode, same_orientation: bool) -> Option<
    Seq<char>,
> {
    let (x, y) = (a.compared, b.compared);
    let (la, lb) = (a.layout, b.layout);
    if a.kind@ != b.kind@ {
        Some("node type"@)
    } else if !(carries_its_angle(x.handedness) && carries_its_angle(y.handedness)) && !same_orientation {
        if has_area(x.handedness) && has_area(y.handedness) {
            Some("their mirroring"@)
        } else {
            Some("whether their transform has any area at all"@)
        }
    } else if !paints_same(a.strokes@, b.strokes@) {
        Some("their strokes"@)
    } else if a.kind@ == "VECTOR"@ && !geometry_same(x.fill_geometry@, y.fill_geometry@) {
        Some("their vector geometry"@)
    } else if a.kind@ == "VECTOR"@ && !geometry_same(x.stroke_geometry@, y.stroke_geometry@) {
        Some("their vector stroke geometry"@)
    } else if !effects_same(a.effects@, b.effects@) {
        Some("their effects"@)
    } else if !opt_f32_same(x.stroke_weight, y.stroke_weight) {
        Some("stroke weight"@)
    } else if !opt_str_same(a.stroke_align, b.stroke_align) {
        Some("stroke alignment"@)
    } else if !stroke_kind_same(a.complex_stroke_properties, b.complex_stroke_properties) {
        Some("stroke type"@)
    } else if !opt_words_same(a.stroke_dashes, b.stroke_dashes) {
        Some("their stroke dashes"@)
    } else if !opt_f32_same(x.corner_radius, y.corner_radius) {
        Some("corner radius"@)
    } else if !opt_radii_same(x.rectangle_corner_radii, y.rectangle_corner_radii) {
        Some("corner radius"@)
    } else if !opt_f32_same(a.corner_smoothing, b.corner_smoothing) {
        Some("corner smoothing"@)
    } else if !opt_arc_same(x.arc_data, y.arc_data) {
        Some("their arc parameters"@)
    } else if x.clips_content != y.clips_content {
        Some("clip"@)
    } else if !opt_str_same(a.blend_mode, b.blend_mode) {
        Some("blend mode"@)
    } else if !opt_f32_same(x.opacity, y.opacity) {
        Some("opacity"@)
    } else if !opt_str_same(la.layout_mode, lb.layout_mode) {
        Some("auto-layout mode"@)
    } else if !opt_str_same(la.layout_wrap, lb.layout_wrap) {
        Some("wrap mode"@)
    } else if !opt_f32_same(la.item_spacing, lb.item_spacing) {
        Some("gap"@)
    } else if !opt_f32_same(la.padding_left, lb.padding_left) || !opt_f32_same(la.padding_right, lb.padding_right)
        || !opt_f32_same(la.padding_top, lb.padding_top) || !opt_f32_same(la.padding_bottom, lb.padding_bottom) {
        Some("padding"@)
    } else if !opt_str_same(la.primary_axis_align_items, lb.primary_axis_align_items) {
        Some("main-axis alignment"@)
    } else if !opt_str_same(la.counter_axis_align_items, lb.counter_axis_align_items) {
        Some("cross-axis alignment"@)
    } else if !opt_f32_same(la.counter_axis_spacing, lb.counter_axis_spacing) {
        Some("wrap line gap"@)
    } else if !opt_str_same(la.counter_axis_align_content, lb.counter_axis_align_content) {
        Some("wrap line distribution"@)
    } else if !opt_str_same(la.layout_sizing_horizontal, lb.layout_sizing_horizontal) {
        Some("horizontal sizing"@)
    } else if !opt_str_same(la.layout_sizing_vertical, lb.layout_sizing_vertical) {
        Some("vertical sizing"@)
    } else if !opt_f32_same(la.min_width, lb.min_width) {
        Some("minimum width"@)
    } else if !opt_f32_same(la.max_width, lb.max_width) {
        Some("maximum width"@)
    } else if !opt_f32_same(la.min_height, lb.min_height) {
        Some("minimum height"@)
    } else if !opt_f32_same(la.max_height, lb.max_height) {
        Some("maximum height"@)
    } else if !opt_f32_same(la.grid_row_gap, lb.grid_row_gap) {
        Some("grid row gap"@)
    } else if !opt_f32_same(la.grid_column_gap, lb.grid_column_gap) {
        Some("grid column gap"@)
    } else if !opt_str_same(x.grid_columns_sizing, y.grid_columns_sizing) {
        Some("grid column tracks"@)
    } else if !opt_str_same(x.grid_rows_sizing, y.grid_rows_sizing) {
        Some("grid row tracks"@)
    } else if la.grid_row_anchor_index != lb.grid_row_anchor_index || la.grid_column_anchor_index
        != lb.grid_column_anchor_index {
        Some("grid placement"@)
    } else if la.grid_row_span != lb.grid_row_span || la.grid_column_span != lb.grid_column_span {
        Some("grid span"@)
    } else if !opt_str_same(a.layout_positioning, b.layout_positioning) {
        Some("layout positioning"@)
    } else if a.strokes_included_in_layout != b.strokes_included_in_layout {
        Some("strokes in layout"@)
    } else if a.item_reverse_z_index != b.item_reverse_z_index {
        Some("child paint order"@)
    } else if a.is_mask != b.is_mask {
        Some("mask membership"@)
    } else if !opt_str_same(a.mask_type, b.mask_type) {
        Some("mask type"@)
    } else if a.section_contents_hidden != b.section_contents_hidden {
        Some("hidden section contents"@)
    } else if !opt_str_same(a.characters, b.characters) {
        Some("their text"@)
    } else if !style_same(a, b) {
        Some("their text style"@)
    } else if !members_same(x.style_override_table@, y.style_override_table@) {
        Some("their per-character styles"@)
    } else {
        None
    }
}

/// The first field in which two members' matching layers differ beyond
/// what a variant override can express, named for the finding, as
/// `first_structural_difference` says; `same_orientation` is whether their
/// transforms face the same way once their magnitudes are divided out.
pub fn differs_beyond_overrides(a: &FigmaNode, b: &FigmaNode, same_orientation: bool) -> (r: Option<&'static str>)
    ensures
        match r {
            Some(w) => first_structural_difference(*a, *b, same_orientation) == Some(w@),
            None => first_structural_difference(*a, *b, same_orientation) is None,
        },
{
    let (x, y) = (&a.compared, &b.compared);
    let (la, lb) = (&a.layout, &b.layout);
    let carries_a = match x.handedness {
        None => true,
        Some(h) => h == Handedness::Upright,
    };
    let carries_b = match y.handedness {
        None => true,
        Some(h) => h == Handedness::Upright,
    };
    let area_a = x.handedness != Some(Handedness::Collapsed);
    let area_b = y.handedness != Some(Handedness::Collapsed);
    let vector = str_eq(a.kind.as_str(), "VECTOR");
    if !str_eq(a.kind.as_str(), b.kind.as_str()) {
        Some("node type")
    } else if !(carries_a && carries_b) && !same_orientation {
        if area_a && area_b {
            Some("their mirroring")
        } else {
            Some("whether their transform has any area at all")
        }
    } else if !paints_same_exec(&a.strokes, &b.strokes) {
        Some("their strokes")
    } else if vector && !geometry_same_exec(&x.fill_geometry, &y.fill_geometry) {
        Some("their vector geometry")
    } else if vector && !geometry_same_exec(&x.stroke_geometry, &y.stroke_geometry) {
        Some("their vector stroke geometry")
    } else if !effects_same_exec(&a.effects, &b.effects) {
        Some("their effects")
    } else if !opt_f32_same_exec(x.stroke_weight, y.stroke_weight) {
        Some("stroke weight")
    } else if !opt_str_same_exec(&a.stroke_align, &b.stroke_align) {
        Some("stroke alignment")
    } else if !stroke_kind_same_exec(&a.complex_stroke_properties, &b.complex_stroke_properties) {
        Some("stroke type")
    } else if !opt_words_same_exec(&a.stroke_dashes, &b.stroke_dashes) {
        Some("their stroke dashes")
    } else if !opt_f32_same_exec(x.corner_radius, y.corner_radius) {
        Some("corner radius")
    } else if !opt_radii_same_exec(&x.rectangle_corner_radii, &y.rectangle_corner_radii) {
        Some("corner radius")
    } else if !opt_f32_same_exec(a.corner_smoothing, b.corner_smoothing) {
        Some("corner smoothing")
    } else if !opt_arc_same_exec(x.arc_data, y.arc_data) {
        Some("their arc parameters")
    } else if x.clips_content != y.clips_content {
        Some("clip")
    } else if !opt_str_same_exec(&a.blend_mode, &b.blend_mode) {
        Some("blend mode")
    } else if !opt_f32_same_exec(x.opacity, y.opacity) {
        Some("opacity")
    } else if !opt_str_same_exec(&la.layout_mode, &lb.layout_mode) {
        Some("auto-layout mode")
    } else if !opt_str_same_exec(&la.layout_wrap, &lb.layout_wrap) {
        Some("wrap mode")
    } else if !opt_f32_same_exec(la.item_spacing, lb.item_spacing) {
        Some("gap")
    } else if !opt_f32_same_exec(la.padding_left, lb.padding_left) || !opt_f32_same_exec(
        la.padding_right,
        lb.padding_right,
    ) || !opt_f32_same_exec(la.padding_top, lb.padding_top) || !opt_f32_same_exec(
        la.padding_bottom,
        lb.padding_bottom,
    ) {
        Some("padding")
    } else if !opt_str_same_exec(&la.primary_axis_align_items, &lb.primary_axis_align_items) {
        Some("main-axis alignment")
    } else if !opt_str_same_exec(&la.counter_axis_align_items, &lb.counter_axis_align_items) {
        Some("cross-axis alignment")
    } else if !opt_f32_same_exec(la.counter_axis_spacing, lb.counter_axis_spacing) {
        Some("wrap line gap")
    } else if !opt_str_same_exec(&la.counter_axis_align_content, &lb.counter_axis_align_content) {
        Some("wrap line distribution")
    } else if !opt_str_same_exec(&la.layout_sizing_horizontal, &lb.layout_sizing_horizontal) {
        Some("horizontal sizing")
    } else if !opt_str_same_exec(&la.layout_sizing_vertical, &lb.layout_sizing_vertical) {
        Some("vertical sizing")
    } else if !opt_f32_same_exec(la.min_width, lb.min_width) {
        Some("minimum width")
    } else if !opt_f32_same_exec(la.max_width, lb.max_width) {
        Some("maximum width")
    } else if !opt_f32_same_exec(la.min_height, lb.min_height) {
        Some("minimum height")
    } else if !opt_f32_same_exec(la.max_height, lb.max_height) {
        Some("maximum height")
    } else if !opt_f32_same_exec(la.grid_row_gap, lb.grid_row_gap) {
        Some("grid row gap")
    } else if !opt_f32_same_exec(la.grid_column_gap, lb.grid_column_gap) {
        Some("grid column gap")
    } else if !opt_str_same_exec(&x.grid_columns_sizing, &y.grid_columns_sizing) {
        Some("grid column tracks")
    } else if !opt_str_same_exec(&x.grid_rows_sizing, &y.grid_rows_sizing) {
        Some("grid row tracks")
    } else if la.grid_row_anchor_index != lb.grid_row_anchor_index || la.grid_column_anchor_index
        != lb.grid_column_anchor_index {
        Some("grid placement")
    } else if la.grid_row_span != lb.grid_row_span || la.grid_column_span != lb.grid_column_span {
        Some("grid span")
    } else if !opt_str_same_exec(&a.layout_positioning, &b.layout_positioning) {
        Some("layout positioning")
    } else if a.strokes_included_in_layout != b.strokes_included_in_layout {
        Some("strokes in layout")
    } else if a.item_reverse_z_index != b.item_reverse_z_index {
        Some("child paint order")
    } else if a.is_mask != b.is_mask {
        Some("mask membership")
    } else if !opt_str_same_exec(&a.mask_type, &b.mask_type) {
        Some("mask type")
    } else if a.section_contents_hidden != b.section_contents_hidden {
        Some("hidden section contents")
    } else if !opt_str_same_exec(&a.characters, &b.characters) {
        Some("their text")
    } else if !style_same_exec(a, b) {
        Some("their text style")
    } else if !members_same_exec(&x.style_override_table, &y.style_override_table) {
        Some("their per-character styles")
    } else {
        None
    }
}

} // verus!
