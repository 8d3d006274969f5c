//! The in-memory dashscene document — what a producer lowers into.
//!
//! A flattened DFS node list whose array index is the rect-table index,
//! layout intent (never results), and the pools nodes reference by index.
//! Every length, offset, weight and colour component the document carries
//! is held as the bit pattern of its IEEE-754 single-precision value, so a
//! value travels through the library exactly as the producer wrote it.
use vstd::prelude::*;

use crate::wire::ImageFormat;

verus! {

/// A node's authored box (bit patterns of `x`, `y`, `width`, `height`).
#[derive(Clone, Copy, Debug, PartialEq, Eq, Structural)]
pub struct Box2D {
    pub x: u32,
    pub y: u32,
    pub width: u32,
    pub height: u32,
}

/// A flex container's direction.
#[derive(Clone, Copy, Debug, PartialEq, Eq, Structural)]
pub enum LayoutMode {
    Horizontal,
    Vertical,
    Wrap,
    Grid,
}

#[derive(Clone, Copy, Debug, PartialEq, Eq, Structural)]
pub enum MainAxisAlign {
    Start,
    Center,
    End,
    SpaceBetween,
}

#[derive(Clone, Copy, Debug, PartialEq, Eq, Structural)]
pub enum CrossAxisAlign {
    Start,
    Center,
    End,
    Baseline,
}

/// How one grid track sizes: a fixed length or a fractional weight (bit
/// patterns).
#[derive(Clone, Copy, Debug, PartialEq, Eq, Structural)]
pub enum GridTrack {
    Fixed(u32),
    Fraction(u32),
}

/// How a node sizes itself along one axis.
#[derive(Clone, Copy, Debug, PartialEq, Eq, Structural)]
pub enum AxisSizing {
    Fixed,
    Hug,
    Fill,
}

/// Insets named per edge (bit patterns).
#[derive(Clone, Copy, Debug, PartialEq, Eq, Structural)]
pub struct EdgeInsets {
    pub left: u32,
    pub top: u32,
    pub right: u32,
    pub bottom: u32,
}

/// Container-side flex intent.
#[derive(Clone, Debug)]
pub struct LayoutContainer {
    pub mode: LayoutMode,
    pub gap: u32,
    pub padding: EdgeInsets,
    pub main_align: MainAxisAlign,
    pub cross_align: CrossAxisAlign,
    pub cross_gap: Option<u32>,
    pub grid_rows: Vec<GridTrack>,
    pub grid_columns: Vec<GridTrack>,
}

/// Container-side flex intent by value.
pub struct LayoutContainerView {
    pub mode: LayoutMode,
    pub gap: u32,
    pub padding: EdgeInsets,
    pub main_align: MainAxisAlign,
    pub cross_align: CrossAxisAlign,
    pub cross_gap: Option<u32>,
    pub grid_rows: Seq<GridTrack>,
    pub grid_columns: Seq<GridTrack>,
}

impl View for LayoutContainer {
    type V = LayoutContainerView;

    open spec fn view(&self) -> LayoutContainerView {
        LayoutContainerView {
            mode: self.mode,
            gap: self.gap,
            padding: self.padding,
            main_align: self.main_align,
            cross_align: self.cross_align,
            cross_gap: self.cross_gap,
            grid_rows: self.grid_rows@,
            grid_columns: self.grid_columns@,
        }
    }
}

/// Child-side flex intent.
#[derive(Clone, Copy, Debug, PartialEq, Eq, Structural)]
pub struct LayoutConstraints {
    pub sizing_h: AxisSizing,
    pub sizing_v: AxisSizing,
    pub min_width: Option<u32>,
    pub max_width: Option<u32>,
    pub min_height: Option<u32>,
    pub max_height: Option<u32>,
    pub margin: EdgeInsets,
    pub grid_row: Option<u16>,
    pub grid_column: Option<u16>,
    pub grid_row_span: u16,
    pub grid_column_span: u16,
}

/// Horizontal text alignment within the node box.
#[derive(Clone, Copy, Debug, PartialEq, Eq, Structural)]
pub enum TextAlign {
    Left,
    Center,
    Right,
}

/// Vertical alignment of the text block within the node box.
#[derive(Clone, Copy, Debug, PartialEq, Eq, Structural)]
pub enum TextAlignV {
    Top,
    Center,
    Bottom,
}

/// A colour, non-premultiplied (bit patterns of the four components).
#[derive(Clone, Copy, Debug, PartialEq, Eq, Structural)]
pub struct Color {
    pub r: u32,
    pub g: u32,
    pub b: u32,
    pub a: u32,
}

/// A text node's authored style.
#[derive(Clone, Debug)]
pub struct TextStyle {
    pub family: String,
    pub size: u32,
    pub weight: u16,
    pub color: Color,
    pub line_height_px: Option<u32>,
    pub letter_spacing: u32,
    pub text_align: TextAlign,
    pub text_align_v: TextAlignV,
    pub ligatures_off: bool,
}

/// What fills a paint entry: a solid colour, a gradient, or an image-table
/// index.
#[derive(Clone, Copy, Debug, PartialEq, Eq, Structural)]
pub enum FillKind {
    Solid(Color),
    Gradient,
    Image(u32),
}

/// A node's style, as far as the library reads it: the bottom fill, the
/// clip intent pooled with it, and the baked-vector shape index.
#[derive(Clone, Debug)]
pub struct Paint {
    pub fill: Option<FillKind>,
    pub clip: bool,
    pub shape_field: Option<u32>,
}

/// One node of the document. `parent` is an index into `Document::nodes`,
/// and the array is in DFS order.
#[derive(Clone, Debug)]
pub struct Node {
    pub name: Option<String>,
    pub parent: Option<u32>,
    pub box2d: Box2D,
    pub paint: Option<Paint>,
    pub container: Option<LayoutContainer>,
    pub constraints: Option<LayoutConstraints>,
    pub text: Option<String>,
    pub text_style: Option<TextStyle>,
    pub opacity: u32,
    pub mask: bool,
    pub visible: bool,
}

/// One scalar prop slot a binding targets.
#[derive(Clone, Copy, Debug, PartialEq, Eq, Structural)]
pub enum BindingChannel {
    X,
    Y,
    Width,
    Height,
    Gap,
    FillR,
    FillG,
    FillB,
    FillA,
    Opacity,
}

/// A binding's transform (bit patterns), plus `Custom`: an opaque closure
/// id that cannot serialize.
#[derive(Clone, Copy, Debug, PartialEq, Eq, Structural)]
pub enum BindingTransform {
    Identity,
    Scale(u32),
    MapRange { in_lo: u32, in_hi: u32, out_lo: u32, out_hi: u32 },
    Clamp { lo: u32, hi: u32 },
    Custom(u32),
}

/// One declared signal: its lookup name and the initial value (bits) its
/// bindings seed from.
#[derive(Clone, Debug)]
pub struct SignalDecl {
    pub name: String,
    pub initial: u32,
}

/// A signal declaration by value.
pub struct SignalDeclView {
    pub name: Seq<char>,
    pub initial: u32,
}

impl View for SignalDecl {
    type V = SignalDeclView;

    open spec fn view(&self) -> SignalDeclView {
        SignalDeclView { name: self.name@, initial: self.initial }
    }
}

/// One binding row: `signal` drives `channel` on `node` through `transform`.
#[derive(Clone, Copy, Debug, PartialEq, Eq, Structural)]
pub struct Binding {
    pub signal: u32,
    pub node: u32,
    pub channel: BindingChannel,
    pub transform: BindingTransform,
}

/// What an asset's payload is, as opposed to how it is encoded.
#[derive(Clone, Copy, Debug, PartialEq, Eq, Structural)]
pub enum AssetKind {
    Image,
    DistanceField,
}

/// One asset the document references: the payload, plus its intrinsic
/// metadata.
#[derive(Clone, Debug)]
pub struct Asset {
    pub format: ImageFormat,
    pub kind: AssetKind,
    pub bytes: Vec<u8>,
    pub width: u32,
    pub height: u32,
}

/// One packed MSDF atlas: which asset holds it, and the two scalars (bits)
/// the painter's screen-pixel range needs.
#[derive(Clone, Copy, Debug, PartialEq, Eq, Structural)]
pub struct VectorAtlas {
    pub image: u32,
    pub px_per_em: u32,
    pub distance_range: u32,
}

/// One baked vector shape: its atlas, its sub-rect there, and its padded
/// field quad (bits).
#[derive(Clone, Copy, Debug)]
pub struct VectorShape {
    pub atlas: u32,
    pub atlas_rect: [u32; 4],
    pub plane_bounds: [u32; 4],
}

/// A value a variant member overrides on one node (bit patterns for the
/// scalars); a rotation turns about its anchor.
#[derive(Clone, Copy, Debug, PartialEq, Eq, Structural)]
pub enum VariantValue {
    X(u32),
    Y(u32),
    Width(u32),
    Height(u32),
    Fill(Color),
    Visible(bool),
    Rotation { angle: u32, anchor_x: u32, anchor_y: u32 },
}

/// One override of a variant member: the node and the value it takes.
#[derive(Clone, Copy, Debug, PartialEq, Eq, Structural)]
pub struct VariantOverride {
    pub node: u32,
    pub value: VariantValue,
}

/// How one channel moves: a tween of `duration` seconds (bits) on a curve.
#[derive(Clone, Copy, Debug, PartialEq, Eq, Structural)]
pub enum TransitionSpec {
    Tween { duration: u32, easing: crate::prototype::Easing },
}

/// One animated channel of a variant transition.
#[derive(Clone, Copy, Debug, PartialEq, Eq, Structural)]
pub struct PropTransition {
    pub node: u32,
    pub channel: BindingChannel,
    pub spec: TransitionSpec,
}

/// The motion a switch to a member plays: its tracks, started `stagger`
/// seconds (bits) apart.
#[derive(Clone, Debug)]
pub struct VariantTransition {
    pub tracks: Vec<PropTransition>,
    pub stagger: u32,
}

/// One member of a variant set: its name, the overrides that turn the
/// document's own state into it, and the transition a switch to it plays.
#[derive(Clone, Debug)]
pub struct VariantMember {
    pub name: Option<String>,
    pub overrides: Vec<VariantOverride>,
    pub transition: Option<VariantTransition>,
}

/// A variant table: the members a switch chooses among, and the one the
/// document's own state shows.
#[derive(Clone, Debug)]
pub struct VariantSet {
    pub members: Vec<VariantMember>,
    pub active_member: u32,
}

/// One dashscene document, ready to emit.
#[derive(Clone, Debug)]
pub struct Document {
    pub nodes: Vec<Node>,
    pub assets: Vec<Asset>,
    pub signals: Vec<SignalDecl>,
    pub bindings: Vec<Binding>,
    pub vector_atlases: Vec<VectorAtlas>,
    pub vector_shapes: Vec<VectorShape>,
    pub variant_sets: Vec<VariantSet>,
}


/// The BLAKE3-256 digest of `bytes`.
pub uninterp spec fn blake3_digest(bytes: Seq<u8>) -> Seq<u8>;

/// BLAKE3-256 over `bytes`, by `blake3::hash`; the 32-byte digest is a
/// function of the bytes alone.
#[verifier::external_body]
fn blake3_hash(bytes: &[u8]) -> (h: [u8; 32])
    ensures
        h@ == blake3_digest(bytes@),
{
    blake3::hash(bytes).into()
}

/// Whether two digests are the same bytes.
fn digest_eq(a: &[u8; 32], b: &[u8; 32]) -> (r: bool)
    ensures
        r == (a@ == b@),
{
    let mut i: usize = 0;
    while i < 32
        invariant
            i <= 32,
            a@.len() == 32,
            b@.len() == 32,
            forall|k: int| 0 <= k < i ==> a@[k] == b@[k],
        decreases 32 - i,
    {
        if a[i] != b[i] {
            return false;
        }
        i = i + 1;
    }
    assert(a@ =~= b@);
    true
}

/// The first asset of `assets` whose payload has digest `d`, if any.
pub open spec fn first_with_digest(assets: Seq<Asset>, d: Seq<u8>) -> Option<int>
    decreases assets.len(),
{
    if assets.len() == 0 {
        None
    } else {
        match first_with_digest(assets.drop_last(), d) {
            Some(i) => Some(i),
            None => if blake3_digest(assets.last().bytes@) == d {
                Some(assets.len() - 1)
            } else {
                None
            },
        }
    }
}

/// Whether no two assets of `assets` share a payload digest.
pub open spec fn digests_distinct(assets: Seq<Asset>) -> bool {
    forall|i: int, j: int|
        0 <= i < j < assets.len() ==> blake3_digest((#[trigger] assets[i]).bytes@) != blake3_digest(
            (#[trigger] assets[j]).bytes@,
        )
}

pub(crate) proof fn lemma_first_with_digest(assets: Seq<Asset>, d: Seq<u8>)
    ensures
        match first_with_digest(assets, d) {
            Some(i) => 0 <= i < assets.len() && blake3_digest(assets[i].bytes@) == d && forall|k: int|
                0 <= k < i ==> blake3_digest(#[trigger] assets[k].bytes@) != d,
            None => forall|k: int| 0 <= k < assets.len() ==> blake3_digest(#[trigger] assets[k].bytes@) != d,
        },
    decreases assets.len(),
{
    if assets.len() > 0 {
        lemma_first_with_digest(assets.drop_last(), d);
        match first_with_digest(assets.drop_last(), d) {
            Some(i) => {
                assert(assets.drop_last()[i] == assets[i]);
                assert forall|k: int| 0 <= k < i implies blake3_digest(#[trigger] assets[k].bytes@) != d by {
                    assert(assets.drop_last()[k] == assets[k]);
                }
            },
            None => {
                assert forall|k: int| 0 <= k < assets.len() - 1 implies blake3_digest(
                    #[trigger] assets[k].bytes@,
                ) != d by {
                    assert(assets.drop_last()[k] == assets[k]);
                }
            },
        }
    }
}

impl Asset {
    /// The asset's identity: BLAKE3-256 over the payload exactly as stored.
    pub fn hash(&self) -> (h: [u8; 32])
        ensures
            h@ == blake3_digest(self.bytes@),
    {
        blake3_hash(self.bytes.as_slice())
    }
}

impl Default for LayoutConstraints {
    /// Fully default constraints: fixed sizing, unconstrained min/max, zero
    /// margin, auto grid placement, unit spans.
    fn default() -> (c: Self)
        ensures
            c == default_constraints(),
    {
        LayoutConstraints {
            sizing_h: AxisSizing::Fixed,
            sizing_v: AxisSizing::Fixed,
            min_width: None,
            max_width: None,
            min_height: None,
            max_height: None,
            margin: EdgeInsets { left: 0, top: 0, right: 0, bottom: 0 },
            grid_row: None,
            grid_column: None,
            grid_row_span: 1,
            grid_column_span: 1,
        }
    }
}

/// Fixed sizing, no clamps, zero margin, auto placement, unit spans.
pub open spec fn default_constraints() -> LayoutConstraints {
    LayoutConstraints {
        sizing_h: AxisSizing::Fixed,
        sizing_v: AxisSizing::Fixed,
        min_width: None,
        max_width: None,
        min_height: None,
        max_height: None,
        margin: EdgeInsets { left: 0, top: 0, right: 0, bottom: 0 },
        grid_row: None,
        grid_column: None,
        grid_row_span: 1,
        grid_column_span: 1,
    }
}

/// The bit pattern of `1.0`, fully opaque.
pub const OPAQUE: u32 = 0x3f80_0000;

impl Default for Node {
    /// A node with nothing set: fully opaque, shown, unmasked.
    fn default() -> (n: Self)
        ensures
            n.name is None && n.parent is None && n.paint is None && n.container is None
                && n.constraints is None && n.text is None && n.text_style is None,
            n.box2d == (Box2D { x: 0, y: 0, width: 0, height: 0 }),
            n.opacity == OPAQUE,
            !n.mask,
            n.visible,
    {
        Node {
            name: None,
            parent: None,
            box2d: Box2D { x: 0, y: 0, width: 0, height: 0 },
            paint: None,
            container: None,
            constraints: None,
            text: None,
            text_style: None,
            opacity: OPAQUE,
            mask: false,
            visible: true,
        }
    }
}

impl Document {
    /// An empty document.
    pub fn new() -> (d: Self)
        ensures
            d.nodes@.len() == 0 && d.assets@.len() == 0 && d.signals@.len() == 0
                && d.bindings@.len() == 0 && d.vector_atlases@.len() == 0
                && d.vector_shapes@.len() == 0 && d.variant_sets@.len() == 0,
    {
        Document {
            nodes: Vec::new(),
            assets: Vec::new(),
            signals: Vec::new(),
            bindings: Vec::new(),
            vector_atlases: Vec::new(),
            vector_shapes: Vec::new(),
            variant_sets: Vec::new(),
        }
    }

    /// Appends a node and returns its index. The caller appends in DFS
    /// order.
    pub fn push(&mut self, node: Node) -> (index: u32)
        requires
            old(self).nodes@.len() < u32::MAX,
        ensures
            index == old(self).nodes@.len(),
            final(self).nodes@ == old(self).nodes@.push(node),
            final(self).assets@ == old(self).assets@,
            final(self).signals@ == old(self).signals@,
            final(self).bindings@ == old(self).bindings@,
            final(self).vector_atlases@ == old(self).vector_atlases@,
            final(self).vector_shapes@ == old(self).vector_shapes@,
            final(self).variant_sets@ == old(self).variant_sets@,
    {
        let index = self.nodes.len() as u32;
        self.nodes.push(node);
        index
    }

    /// Appends an asset and returns its index, or returns the index of the
    /// first existing entry whose payload has the same digest — content
    /// addressing: two references to the same bytes share one entry.
    pub fn push_asset(&mut self, asset: Asset) -> (index: u32)
        requires
            old(self).assets@.len() < u32::MAX,
        ensures
            match first_with_digest(old(self).assets@, blake3_digest(asset.bytes@)) {
                Some(i) => index == i && final(self).assets@ == old(self).assets@,
                None => index == old(self).assets@.len() && final(self).assets@ == old(
                    self,
                ).assets@.push(asset),
            },
            digests_distinct(old(self).assets@) ==> digests_distinct(final(self).assets@),
            final(self).nodes@ == old(self).nodes@,
            final(self).signals@ == old(self).signals@,
            final(self).bindings@ == old(self).bindings@,
            final(self).vector_atlases@ == old(self).vector_atlases@,
            final(self).vector_shapes@ == old(self).vector_shapes@,
            final(self).variant_sets@ == old(self).variant_sets@,
    {
        let hash = asset.hash();
        let ghost d = blake3_digest(asset.bytes@);
        proof {
            lemma_first_with_digest(self.assets@, d);
        }
        let mut i: usize = 0;
        while i < self.assets.len()
            invariant
                i <= self.assets@.len(),
                self.assets@.len() < u32::MAX,
                self.assets@ == old(self).assets@,
                hash@ == d,
                d == blake3_digest(asset.bytes@),
                forall|k: int| 0 <= k < i ==> blake3_digest(#[trigger] self.assets@[k].bytes@) != d,
            decreases self.assets@.len() - i,
        {
            let h = self.assets[i].hash();
            if digest_eq(&h, &hash) {
                proof {
                    lemma_first_with_digest(self.assets@, d);
                    assert(blake3_digest(self.assets@[i as int].bytes@) == d);
                    match first_with_digest(self.assets@, d) {
                        Some(j) => {
                            if j < i {
                                assert(blake3_digest(self.assets@[j].bytes@) != d);
                            } else if j > i {
                                assert(blake3_digest(self.assets@[i as int].bytes@) != d);
                            }
                            assert(j == i);
                        },
                        None => {
                            assert(blake3_digest(self.assets@[i as int].bytes@) != d);
                        },
                    }
                    assert(first_with_digest(old(self).assets@, blake3_digest(asset.bytes@)) == Some(i as int));
                }
                return i as u32;
            }
            i = i + 1;
        }
        let index = self.assets.len() as u32;
        self.assets.push(asset);
        proof {
            let old_assets = old(self).assets@;
            let new_assets = self.assets@;
            if digests_distinct(old_assets) {
                assert forall|a: int, b: int| 0 <= a < b < new_assets.len() implies blake3_digest(
                    (#[trigger] new_assets[a]).bytes@,
                ) != blake3_digest((#[trigger] new_assets[b]).bytes@) by {
                    if b == old_assets.len() {
                        assert(new_assets[a] == old_assets[a]);
                    } else {
                        assert(new_assets[a] == old_assets[a] && new_assets[b] == old_assets[b]);
                    }
                }
            }
        }
        index
    }
}

/// Content addressing: pushing the same payload again returns the index the
/// first push returned and leaves the table as it was.
pub proof fn push_asset_is_idempotent(assets: Seq<Asset>, first: Asset, again: Asset)
    requires
        digests_distinct(assets),
        first.bytes@ == again.bytes@,
    ensures
        ({
            let d = blake3_digest(first.bytes@);
            let after = match first_with_digest(assets, d) {
                Some(i) => assets,
                None => assets.push(first),
            };
            let index = match first_with_digest(assets, d) {
                Some(i) => i,
                None => assets.len() as int,
            };
            first_with_digest(after, blake3_digest(again.bytes@)) == Some(index)
        }),
{
    let d = blake3_digest(first.bytes@);
    lemma_first_with_digest(assets, d);
    match first_with_digest(assets, d) {
        Some(i) => {},
        None => {
            let after = assets.push(first);
            assert(after.drop_last() =~= assets);
        },
    }
}

} // verus!
