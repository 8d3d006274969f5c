//! Shelf-packing baked vector fields into one atlas.
//!
//! Fields are placed in order, left to right along a shelf, with a
//! transparent one-texel gutter around each so no field's spread bleeds into
//! a neighbour under bilinear sampling. A field that does not fit on the
//! current shelf opens the next one, below the tallest field of the shelf it
//! leaves.
use vstd::prelude::*;

verus! {

/// Transparent gutter in texels between packed fields.
pub const ATLAS_GUTTER: u32 = 1;

/// A sub-rect inside the packed atlas, in atlas texels.
#[derive(Clone, Copy, Debug, PartialEq, Eq, Structural)]
pub struct AtlasRectU {
    pub x: u32,
    pub y: u32,
    pub width: u32,
    pub height: u32,
}

/// The extent of one baked field tile, in texels.
#[derive(Clone, Copy, Debug, PartialEq, Eq, Structural)]
pub struct FieldExtent {
    pub width: u32,
    pub height: u32,
}

/// The least multiple of four at or above `n`.
pub open spec fn round_up_4_spec(n: nat) -> nat {
    ((n + 3) / 4 * 4) as nat
}

/// Rounds `n` up to a multiple of four (texture-friendly atlas extents).
pub fn round_up_4(n: u32) -> (r: u32)
    requires
        n <= u32::MAX - 3,
    ensures
        r == round_up_4_spec(n as nat),
        r % 4 == 0,
        n <= r < n + 4,
{
    (n + 3) / 4 * 4
}

pub open spec fn max_nat(a: nat, b: nat) -> nat {
    if a >= b {
        a
    } else {
        b
    }
}

/// The widest of the fields (zero for none).
pub open spec fn widest(fs: Seq<FieldExtent>) -> nat
    decreases fs.len(),
{
    if fs.len() == 0 {
        0
    } else {
        max_nat(widest(fs.drop_last()), fs.last().width as nat)
    }
}

/// The fields' total area, each counted with one gutter on two sides.
pub open spec fn gutter_area(fs: Seq<FieldExtent>) -> nat
    decreases fs.len(),
{
    if fs.len() == 0 {
        0
    } else {
        gutter_area(fs.drop_last()) + ((fs.last().width + 1) * (fs.last().height + 1)) as nat
    }
}

/// Whether `t` is the least integer whose square reaches `n`.
pub open spec fn is_ceil_sqrt(n: nat, t: nat) -> bool {
    &&& t * t >= n
    &&& t == 0 || (t - 1) * (t - 1) < n
}

/// The atlas width: a roughly square sheet — the least side whose square
/// holds the gutter area — but never narrower than the widest field plus
/// its two gutters, rounded up to a multiple of four.
pub open spec fn atlas_width_for(fs: Seq<FieldExtent>, target: nat) -> nat {
    round_up_4_spec(max_nat(max_nat(widest(fs) + 2, target), 1))
}

/// The cursor after placing the first `i` fields on a sheet `w` wide: where
/// the next field would go on the current shelf, the shelf's top, and the
/// height of its tallest field so far.
pub open spec fn cursor(fs: Seq<FieldExtent>, w: nat, i: nat) -> (nat, nat, nat)
    decreases i,
{
    if i == 0 {
        (1, 1, 0)
    } else {
        let (x, y, shelf) = cursor(fs, w, (i - 1) as nat);
        let f = fs[i - 1];
        if x + f.width + 1 > w && x > 1 {
            ((1 + f.width + 1) as nat, y + shelf + 1, f.height as nat)
        } else {
            ((x + f.width + 1) as nat, y, max_nat(shelf, f.height as nat))
        }
    }
}

/// Whether field `i` opens a new shelf: it does not fit after the fields
/// already on the current one.
pub open spec fn opens_shelf(fs: Seq<FieldExtent>, w: nat, i: nat) -> bool {
    let (x, y, shelf) = cursor(fs, w, i);
    x + fs[i as int].width + 1 > w && x > 1
}

/// Where field `i` is placed: after the last field of the current shelf,
/// or at the start of the next shelf, one gutter below the current shelf's
/// tallest field.
pub open spec fn placement(fs: Seq<FieldExtent>, w: nat, i: nat) -> (nat, nat) {
    let (x, y, shelf) = cursor(fs, w, i);
    if opens_shelf(fs, w, i) {
        (1, y + shelf + 1)
    } else {
        (x, y)
    }
}

/// The atlas height: one gutter below the last shelf's tallest field,
/// rounded up to a multiple of four.
pub open spec fn atlas_height_for(fs: Seq<FieldExtent>, w: nat) -> nat {
    let (x, y, shelf) = cursor(fs, w, fs.len());
    round_up_4_spec(y + shelf + 1)
}

/// Whether every step of the packing stays within `u32`.
pub open spec fn pack_fits(fs: Seq<FieldExtent>) -> bool {
    &&& gutter_area(fs) <= u64::MAX
    &&& widest(fs) + 2 <= u32::MAX - 3
    &&& forall|t: nat| is_ceil_sqrt(gutter_area(fs), t) ==> t <= u32::MAX - 3
    &&& forall|t: nat, i: nat|
        is_ceil_sqrt(gutter_area(fs), t) && i < fs.len() ==> #[trigger] cursor(
            fs,
            atlas_width_for(fs, t),
            i,
        ).0 + fs[i as int].width + 1 <= u32::MAX
    &&& forall|t: nat, i: nat|
        is_ceil_sqrt(gutter_area(fs), t) && i <= fs.len() ==> #[trigger] cursor(
            fs,
            atlas_width_for(fs, t),
            i,
        ).1 + cursor(fs, atlas_width_for(fs, t), i).2 + 1 <= u32::MAX - 3
}

/// Two placed rects that keep at least one gutter texel between them.
pub open spec fn apart(a: AtlasRectU, b: AtlasRectU) -> bool {
    ||| a.x + a.width + 1 <= b.x
    ||| b.x + b.width + 1 <= a.x
    ||| a.y + a.height + 1 <= b.y
    ||| b.y + b.height + 1 <= a.y
}

/// The least `t` with `t * t >= n`, by bisection.
fn ceil_sqrt(n: u64) -> (t: u64)
    ensures
        is_ceil_sqrt(n as nat, t as nat),
        t <= 0x1_0000_0000,
{
    let mut lo: u64 = 0;
    let mut hi: u64 = 0x1_0000_0000;
    assert(0x1_0000_0000 * 0x1_0000_0000 >= n as nat) by (nonlinear_arith);
    while lo < hi
        invariant
            lo <= hi <= 0x1_0000_0000,
            hi * hi >= n,
            lo == 0 || (lo - 1) * (lo - 1) < n,
        decreases hi - lo,
    {
        let mid = lo + (hi - lo) / 2;
        assert(mid * mid <= 0x1_0000_0000 * 0x1_0000_0000) by (nonlinear_arith)
            requires
                mid <= 0x1_0000_0000,
        ;
        if (mid as u128) * (mid as u128) >= n as u128 {
            hi = mid;
        } else {
            lo = mid + 1;
        }
    }
    lo
}


/// The one least integer whose square reaches `n`.
pub open spec fn ceil_sqrt_of(n: nat) -> nat {
    choose|t: nat| is_ceil_sqrt(n, t)
}

proof fn lemma_ceil_sqrt_unique(n: nat, t1: nat, t2: nat)
    requires
        is_ceil_sqrt(n, t1),
        is_ceil_sqrt(n, t2),
    ensures
        t1 == t2,
{
    if t1 < t2 {
        assert(t1 * t1 <= (t2 - 1) * (t2 - 1)) by (nonlinear_arith)
            requires
                t1 <= t2 - 1,
                t2 >= 1,
        ;
    } else if t2 < t1 {
        assert(t2 * t2 <= (t1 - 1) * (t1 - 1)) by (nonlinear_arith)
            requires
                t2 <= t1 - 1,
                t1 >= 1,
        ;
    }
}

/// Every count has a least integer whose square reaches it.
proof fn lemma_ceil_sqrt_exists(n: nat)
    ensures
        is_ceil_sqrt(n, ceil_sqrt_of(n)),
    decreases n,
{
    if n == 0 {
        assert(is_ceil_sqrt(0, 0));
    } else {
        let m = (n - 1) as nat;
        lemma_ceil_sqrt_exists(m);
        let t = ceil_sqrt_of(m);
        if t * t >= n {
            assert(is_ceil_sqrt(n, t));
        } else {
            assert((t + 1) * (t + 1) == t * t + 2 * t + 1) by (nonlinear_arith);
            assert(is_ceil_sqrt(n, t + 1));
        }
    }
}

/// A side a sheet for `fs` can take: a multiple of four, room for the
/// widest field and its two gutters, and a square that holds the fields'
/// gutter area.
pub open spec fn holds_fields(fs: Seq<FieldExtent>, w: nat) -> bool {
    &&& w % 4 == 0
    &&& w >= widest(fs) + 2
    &&& w * w >= gutter_area(fs)
}

/// The atlas aims for a roughly square sheet: its width is the least side
/// that is a multiple of four, fits the widest field with its gutters, and
/// squares to at least the fields' total gutter area.
pub proof fn atlas_width_is_least_square_side(fs: Seq<FieldExtent>)
    ensures
        holds_fields(fs, atlas_width_for(fs, ceil_sqrt_of(gutter_area(fs)))),
        forall|w2: nat| #[trigger] holds_fields(fs, w2) ==> atlas_width_for(fs, ceil_sqrt_of(gutter_area(fs))) <= w2,
{
    let a = gutter_area(fs);
    lemma_ceil_sqrt_exists(a);
    let t = ceil_sqrt_of(a);
    let m = max_nat(max_nat(widest(fs) + 2, t), 1);
    let w = atlas_width_for(fs, t);
    assert(w == round_up_4_spec(m));
    assert(w >= m && w % 4 == 0 && w < m + 4) by {
        assert((m + 3) / 4 * 4 <= m + 3);
        assert((m + 3) / 4 * 4 + 4 > m + 3);
        assert(((m + 3) / 4 * 4) % 4 == 0) by (nonlinear_arith);
    }
    assert(w * w >= t * t) by (nonlinear_arith)
        requires
            w >= t,
    ;
    assert forall|w2: nat| #[trigger] holds_fields(fs, w2) implies w <= w2 by {
        if w2 < t {
            assert(w2 * w2 <= (t - 1) * (t - 1)) by (nonlinear_arith)
                requires
                    w2 <= t - 1,
                    t >= 1,
            ;
        }
        assert(w2 >= m);
        if w2 < w {
            // Between m and w, which is under m + 4, the only multiple of
            // four is w itself.
            assert(w2 + 4 > w);
            assert(w2 % 4 == 0 && w % 4 == 0);
            assert(w2 == w) by (nonlinear_arith)
                requires
                    w2 % 4 == 0,
                    w % 4 == 0,
                    w2 < w,
                    w2 + 4 > w,
                    w2 >= 0,
            ;
        }
    }
}

/// Field `i`'s rect on a sheet `w` wide.
pub open spec fn packed_rect(fs: Seq<FieldExtent>, w: nat, i: nat) -> AtlasRectU {
    AtlasRectU {
        x: placement(fs, w, i).0 as u32,
        y: placement(fs, w, i).1 as u32,
        width: fs[i as int].width,
        height: fs[i as int].height,
    }
}

proof fn lemma_widest_bounds(fs: Seq<FieldExtent>, k: int)
    requires
        0 <= k < fs.len(),
    ensures
        fs[k].width <= widest(fs),
    decreases fs.len(),
{
    if k < fs.len() - 1 {
        lemma_widest_bounds(fs.drop_last(), k);
    }
}

proof fn lemma_area_prefix(fs: Seq<FieldExtent>, i: int)
    requires
        0 <= i <= fs.len(),
    ensures
        gutter_area(fs.take(i)) <= gutter_area(fs),
    decreases fs.len() - i,
{
    if i < fs.len() {
        lemma_area_prefix(fs, i + 1);
        assert(fs.take(i + 1).drop_last() =~= fs.take(i));
    } else {
        assert(fs.take(i) =~= fs);
    }
}

/// The shelf invariant after `i` fields: the cursor stays on the sheet, and
/// every field placed so far sits on the sheet and either on an earlier
/// shelf, wholly above the current one, or on the current shelf, wholly left
/// of the cursor and no taller than the shelf.
proof fn lemma_shelf(fs: Seq<FieldExtent>, w: nat, i: nat)
    requires
        w >= widest(fs) + 2,
        i <= fs.len(),
    ensures
        1 <= cursor(fs, w, i).0 <= w,
        cursor(fs, w, i).1 >= 1,
        forall|k: nat|
            k < i ==> {
                let p = #[trigger] placement(fs, w, k);
                let c = cursor(fs, w, i);
                &&& p.0 >= 1
                &&& p.1 >= 1
                &&& p.0 + fs[k as int].width + 1 <= w
                &&& (p.1 + fs[k as int].height + 1 <= c.1 || (p.1 == c.1 && p.0
                    + fs[k as int].width + 1 <= c.0 && fs[k as int].height <= c.2))
            },
    decreases i,
{
    if i > 0 {
        let j = (i - 1) as nat;
        lemma_shelf(fs, w, j);
        lemma_widest_bounds(fs, j as int);
        let c0 = cursor(fs, w, j);
        let c1 = cursor(fs, w, i);
        assert forall|k: nat| k < i implies {
            let p = #[trigger] placement(fs, w, k);
            &&& p.0 >= 1
            &&& p.1 >= 1
            &&& p.0 + fs[k as int].width + 1 <= w
            &&& (p.1 + fs[k as int].height + 1 <= c1.1 || (p.1 == c1.1 && p.0
                + fs[k as int].width + 1 <= c1.0 && fs[k as int].height <= c1.2))
        } by {
            if k < j {
                let p = placement(fs, w, k);
                assert(p.1 + fs[k as int].height + 1 <= c0.1 || (p.1 == c0.1 && p.0
                    + fs[k as int].width + 1 <= c0.0 && fs[k as int].height <= c0.2));
            }
        }
    }
}

/// Every packed field lies on the sheet, inside its one-texel gutter.
pub proof fn packed_rects_inside_atlas(fs: Seq<FieldExtent>, t: nat, i: nat)
    requires
        is_ceil_sqrt(gutter_area(fs), t),
        i < fs.len(),
    ensures
        ({
            let w = atlas_width_for(fs, t);
            let r = packed_rect(fs, w, i);
            &&& placement(fs, w, i).0 >= 1
            &&& placement(fs, w, i).1 >= 1
            &&& placement(fs, w, i).0 + r.width + 1 <= w
            &&& placement(fs, w, i).1 + r.height + 1 <= atlas_height_for(fs, w)
        }),
{
    let w = atlas_width_for(fs, t);
    lemma_shelf(fs, w, fs.len());
    let p = placement(fs, w, i);
    assert(p.0 >= 1);
}

/// No two packed fields overlap, and a gutter texel separates any two.
pub proof fn packed_rects_apart(fs: Seq<FieldExtent>, t: nat, i: nat, j: nat)
    requires
        is_ceil_sqrt(gutter_area(fs), t),
        i < j < fs.len(),
    ensures
        ({
            let w = atlas_width_for(fs, t);
            let a = placement(fs, w, i);
            let b = placement(fs, w, j);
            ||| a.0 + fs[i as int].width + 1 <= b.0
            ||| a.1 + fs[i as int].height + 1 <= b.1
        }),
{
    let w = atlas_width_for(fs, t);
    lemma_shelf(fs, w, j);
    let a = placement(fs, w, i);
    assert(a.1 + fs[i as int].height + 1 <= cursor(fs, w, j).1 || (a.1 == cursor(fs, w, j).1
        && a.0 + fs[i as int].width + 1 <= cursor(fs, w, j).0 && fs[i as int].height <= cursor(
        fs,
        w,
        j,
    ).2));
}

/// Shelf-packs fields, in order, into one atlas with a one-texel gutter.
/// Returns the atlas width and height and one rect per field — or an empty
/// atlas for no fields.
pub fn shelf_pack(fields: &[FieldExtent]) -> (out: (u32, u32, Vec<AtlasRectU>))
    requires
        pack_fits(fields@),
    ensures
        out.2@.len() == fields@.len(),
        fields@.len() == 0 ==> out.0 == 0 && out.1 == 0,
        fields@.len() > 0 ==> {
            &&& out.0 == atlas_width_for(fields@, ceil_sqrt_of(gutter_area(fields@)))
            &&& holds_fields(fields@, out.0 as nat)
            &&& forall|w2: nat| #[trigger] holds_fields(fields@, w2) ==> out.0 <= w2
            &&& out.1 == atlas_height_for(fields@, out.0 as nat)
            &&& forall|i: int|
                0 <= i < fields@.len() ==> #[trigger] out.2@[i] == packed_rect(
                    fields@,
                    out.0 as nat,
                    i as nat,
                )
        },
{
    let n = fields.len();
    if n == 0 {
        return (0, 0, Vec::new());
    }
    let ghost fs = fields@;
    proof {
        atlas_width_is_least_square_side(fs);
    }
    let mut widest_w: u32 = 0;
    let mut area: u64 = 0;
    let mut i: usize = 0;
    while i < n
        invariant
            i <= n,
            n == fs.len(),
            fs == fields@,
            pack_fits(fs),
            widest_w == widest(fs.take(i as int)),
            area == gutter_area(fs.take(i as int)),
        decreases n - i,
    {
        let f = fields[i];
        proof {
            assert(fs.take(i + 1).drop_last() =~= fs.take(i as int));
            lemma_area_prefix(fs, i + 1);
            lemma_widest_bounds(fs, i as int);
            assert(widest(fs.take(i + 1)) <= widest(fs)) by {
                lemma_take_widest(fs, i + 1);
            }
            assert((f.width + 1) * (f.height + 1) <= 0x1_0000_0000u64 * 0x1_0000_0000u64)
                by (nonlinear_arith)
                requires
                    f.width + 1 <= 0x1_0000_0000u64,
                    f.height + 1 <= 0x1_0000_0000u64,
            ;
        }
        if f.width > widest_w {
            widest_w = f.width;
        }
        area = area + ((f.width as u64) + 1) * ((f.height as u64) + 1);
        i = i + 1;
    }
    proof {
        assert(fs.take(n as int) =~= fs);
    }
    let target = ceil_sqrt(area);
    proof {
        lemma_ceil_sqrt_unique(gutter_area(fs), target as nat, ceil_sqrt_of(gutter_area(fs)));
    }
    let target = target as u32;
    let mut width = widest_w + 2;
    if target > width {
        width = target;
    }
    let atlas_width = round_up_4(width);
    let ghost w = atlas_width as nat;
    proof {
        assert(w >= widest(fs) + 2);
    }
    let mut rects: Vec<AtlasRectU> = Vec::new();
    let mut x: u32 = ATLAS_GUTTER;
    let mut y: u32 = ATLAS_GUTTER;
    let mut shelf_height: u32 = 0;
    let mut i: usize = 0;
    while i < n
        invariant
            i <= n,
            n == fs.len(),
            fs == fields@,
            pack_fits(fs),
            is_ceil_sqrt(gutter_area(fs), target as nat),
            w == atlas_width_for(fs, target as nat),
            w == atlas_width,
            w >= widest(fs) + 2,
            (x as nat, y as nat, shelf_height as nat) == cursor(fs, w, i as nat),
            rects@.len() == i,
            forall|k: int| 0 <= k < i ==> #[trigger] rects@[k] == packed_rect(fs, w, k as nat),
        decreases n - i,
    {
        let f = fields[i];
        proof {
            lemma_widest_bounds(fs, i as int);
            assert(cursor(fs, w, i as nat).0 + fs[i as int].width + 1 <= u32::MAX);
            assert(cursor(fs, w, i as nat).1 + cursor(fs, w, i as nat).2 + 1 <= u32::MAX - 3);
        }
        if x + f.width + ATLAS_GUTTER > atlas_width && x > ATLAS_GUTTER {
            y = y + shelf_height + ATLAS_GUTTER;
            x = ATLAS_GUTTER;
            shelf_height = 0;
        }
        rects.push(AtlasRectU { x, y, width: f.width, height: f.height });
        x = x + f.width + ATLAS_GUTTER;
        if f.height > shelf_height {
            shelf_height = f.height;
        }
        i = i + 1;
    }
    proof {
        assert(cursor(fs, w, n as nat).1 + cursor(fs, w, n as nat).2 + 1 <= u32::MAX - 3);
    }
    let atlas_height = round_up_4(y + shelf_height + ATLAS_GUTTER);
    (atlas_width, atlas_height, rects)
}

proof fn lemma_take_widest(fs: Seq<FieldExtent>, i: int)
    requires
        0 <= i <= fs.len(),
    ensures
        widest(fs.take(i)) <= widest(fs),
    decreases fs.len() - i,
{
    if i < fs.len() {
        lemma_take_widest(fs, i + 1);
        assert(fs.take(i + 1).drop_last() =~= fs.take(i));
    } else {
        assert(fs.take(i) =~= fs);
    }
}

/// The shelf packing of fields, or nothing when some step of it would
/// leave `u32`: the packing runs exactly when it fits.
pub fn try_shelf_pack(fields: &[FieldExtent]) -> (out: Option<(u32, u32, Vec<AtlasRectU>)>)
    ensures
        out is Some <==> pack_fits(fields@),
        out matches Some(p) ==> {
            &&& p.2@.len() == fields@.len()
            &&& fields@.len() == 0 ==> p.0 == 0 && p.1 == 0
            &&& fields@.len() > 0 ==> {
                &&& p.0 == atlas_width_for(fields@, ceil_sqrt_of(gutter_area(fields@)))
                &&& holds_fields(fields@, p.0 as nat)
                &&& forall|w2: nat| #[trigger] holds_fields(fields@, w2) ==> p.0 <= w2
                &&& p.1 == atlas_height_for(fields@, p.0 as nat)
                &&& forall|i: int|
                    0 <= i < fields@.len() ==> #[trigger] p.2@[i] == packed_rect(fields@, p.0 as nat, i as nat)
            }
        },
{
    let ghost fs = fields@;
    let n = fields.len();
    let mut widest_w: u32 = 0;
    let mut area: u64 = 0;
    let mut i: usize = 0;
    proof {
        assert(fs.take(0) =~= Seq::<FieldExtent>::empty());
    }
    while i < n
        invariant
            i <= n,
            n == fs.len(),
            fs == fields@,
            widest_w == widest(fs.take(i as int)),
            area == gutter_area(fs.take(i as int)),
        decreases n - i,
    {
        let f = fields[i];
        proof {
            assert(fs.take(i + 1).drop_last() =~= fs.take(i as int));
            assert(fs.take(i + 1).last() == f);
            assert((f.width + 1) * (f.height + 1) <= 0x1_0000_0000u64 * 0x1_0000_0000u64) by (nonlinear_arith)
                requires
                    f.width + 1 <= 0x1_0000_0000u64,
                    f.height + 1 <= 0x1_0000_0000u64,
            ;
        }
        let cell: u128 = ((f.width as u128) + 1) * ((f.height as u128) + 1);
        if (area as u128) + cell > 0xffff_ffff_ffff_ffffu128 {
            proof {
                lemma_area_prefix(fs, i + 1);
            }
            return None;
        }
        if f.width > widest_w {
            widest_w = f.width;
        }
        area = ((area as u128) + cell) as u64;
        i = i + 1;
    }
    proof {
        assert(fs.take(n as int) =~= fs);
    }
    if (widest_w as u64) + 2 > 0xffff_fffc {
        return None;
    }
    let t = ceil_sqrt(area);
    let ghost a = gutter_area(fs);
    if t > 0xffff_fffc {
        proof {
            assert(is_ceil_sqrt(a, t as nat));
        }
        return None;
    }
    let target = t as u32;
    let mut width = widest_w + 2;
    if target > width {
        width = target;
    }
    let atlas_width = round_up_4(width);
    let ghost w = atlas_width as nat;
    proof {
        assert(w == atlas_width_for(fs, t as nat));
    }
    let mut x: u64 = 1;
    let mut y: u64 = 1;
    let mut shelf: u64 = 0;
    let mut i: usize = 0;
    while i < n
        invariant
            i <= n,
            n == fs.len(),
            fs == fields@,
            w == atlas_width_for(fs, t as nat),
            w == atlas_width,
            is_ceil_sqrt(a, t as nat),
            a == gutter_area(fs),
            (x as nat, y as nat, shelf as nat) == cursor(fs, w, i as nat),
            x <= 0x1_0000_0001,
            y <= 0xffff_ffff,
            shelf <= 0xffff_ffff,
            forall|k: nat| k < i ==> #[trigger] cursor(fs, w, k).0 + fs[k as int].width + 1 <= u32::MAX,
            forall|k: nat| k < i ==> #[trigger] cursor(fs, w, k).1 + cursor(fs, w, k).2 + 1 <= u32::MAX - 3,
        decreases n - i,
    {
        let f = fields[i];
        if x + (f.width as u64) + 1 > 0xffff_ffff {
            proof {
                assert(!(cursor(fs, w, i as nat).0 + fs[i as int].width + 1 <= u32::MAX));
            }
            return None;
        }
        if y + shelf + 1 > 0xffff_fffc {
            proof {
                assert(!(cursor(fs, w, i as nat).1 + cursor(fs, w, i as nat).2 + 1 <= u32::MAX - 3));
            }
            return None;
        }
        if x + (f.width as u64) + 1 > (atlas_width as u64) && x > 1 {
            y = y + shelf + 1;
            x = 1 + (f.width as u64) + 1;
            shelf = f.height as u64;
        } else {
            x = x + (f.width as u64) + 1;
            if (f.height as u64) > shelf {
                shelf = f.height as u64;
            }
        }
        proof {
            assert(cursor(fs, w, (i + 1) as nat) == (x as nat, y as nat, shelf as nat));
        }
        i = i + 1;
    }
    if y + shelf + 1 > 0xffff_fffc {
        proof {
            assert(!(cursor(fs, w, n as nat).1 + cursor(fs, w, n as nat).2 + 1 <= u32::MAX - 3));
        }
        return None;
    }
    proof {
        assert forall|t2: nat| is_ceil_sqrt(a, t2) implies t2 <= u32::MAX - 3 by {
            lemma_ceil_sqrt_unique(a, t2, t as nat);
        }
        assert forall|t2: nat, k: nat| is_ceil_sqrt(a, t2) && k < fs.len() implies #[trigger] cursor(
            fs,
            atlas_width_for(fs, t2),
            k,
        ).0 + fs[k as int].width + 1 <= u32::MAX by {
            lemma_ceil_sqrt_unique(a, t2, t as nat);
        }
        assert forall|t2: nat, k: nat| is_ceil_sqrt(a, t2) && k <= fs.len() implies #[trigger] cursor(
            fs,
            atlas_width_for(fs, t2),
            k,
        ).1 + cursor(fs, atlas_width_for(fs, t2), k).2 + 1 <= u32::MAX - 3 by {
            lemma_ceil_sqrt_unique(a, t2, t as nat);
        }
    }
    Some(shelf_pack(fields))
}

} // verus!
