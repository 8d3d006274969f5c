//! How one Figma paint lowers to a fill: a solid colour, a gradient by its
//! three handles, or an image. An image fill's `imageRef` is resolved
//! against the images the caller supplied, the bytes are held to what their
//! own header says before they enter the document, and every later
//! reference to the same ref shares the entry they got.
use vstd::prelude::*;

use crate::diagnostics::{Diagnostic, DiagnosticView, Location, LocationView, NodePath, Severity};
use crate::document::{blake3_digest, first_with_digest, lemma_first_with_digest, Asset, AssetKind, Color, Document};
use crate::figma::{block, CompileError, CompileErrorView, FigmaNode, FigmaPaint, GradientStop, Point};
use crate::text::{decimal, push_decimal, push_str, str_eq, string_of, strings_view};
use crate::EmitPolicy;
use crate::wire::{ImageEntry, ImageFormat};

verus! {

/// The bytes an `imageRef` resolved to match no known image signature.
pub const IMAGE_UNKNOWN_SIGNATURE: &'static str = "figma.image-unknown-signature";

/// The bytes' own signature contradicts the format the caller tagged them
/// with.
pub const IMAGE_FORMAT_MISMATCH: &'static str = "figma.image-format-mismatch";

/// The signature matched, but the header is truncated or malformed.
pub const IMAGE_HEADER_MALFORMED: &'static str = "figma.image-header-malformed";

/// The header reads cleanly but reports a zero width or height.
pub const IMAGE_ZERO_DIMENSION: &'static str = "figma.image-zero-dimension";

/// The bit pattern of `1.0`.
pub const ONE_BITS: u32 = 0x3f80_0000;

/// How a gradient's colours spread from its handles.
#[derive(Clone, Copy, Debug, PartialEq, Eq, Structural)]
pub enum GradientKind {
    Linear,
    Radial,
    Angular,
    Diamond,
}

/// How an image fills its node's box.
#[derive(Clone, Copy, Debug, PartialEq, Eq, Structural)]
pub enum ScaleMode {
    Fill,
    Fit,
    Crop,
    Tile,
}

/// One lowered fill. Colours are as authored, and `opacity` is the paint's
/// own, which multiplies each colour's alpha where the paint entry is
/// built. An image's affine is in `a, b, c, d, tx, ty` order.
#[derive(Clone, Debug)]
pub enum FillSpec {
    Solid { color: Color, opacity: Option<u32> },
    Gradient {
        kind: GradientKind,
        origin: Point,
        primary: Point,
        secondary: Point,
        stops: Vec<GradientStop>,
        opacity: Option<u32>,
    },
    Image { image: u32, scale_mode: ScaleMode, transform: [u32; 6], tile_scale: u32 },
}

/// A lowered fill by value.
pub enum FillSpecView {
    Solid { color: Color, opacity: Option<u32> },
    Gradient {
        kind: GradientKind,
        origin: Point,
        primary: Point,
        secondary: Point,
        stops: Seq<GradientStop>,
        opacity: Option<u32>,
    },
    Image { image: u32, scale_mode: ScaleMode, transform: Seq<u32>, tile_scale: u32 },
}

impl View for FillSpec {
    type V = FillSpecView;

    open spec fn view(&self) -> FillSpecView {
        match self {
            FillSpec::Solid { color, opacity } => FillSpecView::Solid { color: *color, opacity: *opacity },
            FillSpec::Gradient { kind, origin, primary, secondary, stops, opacity } => FillSpecView::Gradient {
                kind: *kind,
                origin: *origin,
                primary: *primary,
                secondary: *secondary,
                stops: stops@,
                opacity: *opacity,
            },
            FillSpec::Image { image, scale_mode, transform, tile_scale } => FillSpecView::Image {
                image: *image,
                scale_mode: *scale_mode,
                transform: transform@,
                tile_scale: *tile_scale,
            },
        }
    }
}

/// What an image's own header says of its bytes, as the image identifier
/// reads them: the format and size it declares, or, in the identifier's
/// words, why it cannot be read.
#[derive(Clone, Debug)]
pub enum ImageHeader {
    Read { format: ImageFormat, width: u32, height: u32 },
    UnknownSignature(String),
    Malformed(String),
}

/// An image the caller resolved, and what its header says.
#[derive(Clone, Debug)]
pub struct IdentifiedImage {
    pub entry: ImageEntry,
    pub header: ImageHeader,
}

// ------------------------------------------------------------ plain fills

/// The gradient a paint kind names, if it names one.
pub open spec fn gradient_kind(k: Seq<char>) -> Option<GradientKind> {
    if k == "GRADIENT_LINEAR"@ {
        Some(GradientKind::Linear)
    } else if k == "GRADIENT_RADIAL"@ {
        Some(GradientKind::Radial)
    } else if k == "GRADIENT_ANGULAR"@ {
        Some(GradientKind::Angular)
    } else if k == "GRADIENT_DIAMOND"@ {
        Some(GradientKind::Diamond)
    } else {
        None
    }
}

/// Whether `p` is an image fill: the kind the dispatch reaches after the
/// solid and the gradients.
pub open spec fn is_image_fill(p: FigmaPaint) -> bool {
    p.kind@ != "SOLID"@ && gradient_kind(p.kind@) is None && p.kind@ == "IMAGE"@
}

/// What a paint that is not an image fill lowers to, or the construct its
/// refusal names.
pub open spec fn plain_fill(p: FigmaPaint) -> Result<FillSpecView, Seq<char>> {
    if p.kind@ == "SOLID"@ {
        match p.color {
            Some(c) => Ok(FillSpecView::Solid { color: c, opacity: p.opacity }),
            None => Err("a SOLID with no color"@),
        }
    } else if gradient_kind(p.kind@) is Some {
        let hs = p.gradient_handle_positions@;
        if hs.len() == 3 {
            Ok(
                FillSpecView::Gradient {
                    kind: gradient_kind(p.kind@)->0,
                    origin: hs[0],
                    primary: hs[1],
                    secondary: hs[2],
                    stops: p.gradient_stops@,
                    opacity: p.opacity,
                },
            )
        } else {
            Err("a gradient without three handles"@)
        }
    } else {
        Err("a "@ + p.kind@ + " paint"@)
    }
}

fn gradient_kind_of(kind: &str) -> (g: Option<GradientKind>)
    ensures
        g == gradient_kind(kind@),
{
    if str_eq(kind, "GRADIENT_LINEAR") {
        Some(GradientKind::Linear)
    } else if str_eq(kind, "GRADIENT_RADIAL") {
        Some(GradientKind::Radial)
    } else if str_eq(kind, "GRADIENT_ANGULAR") {
        Some(GradientKind::Angular)
    } else if str_eq(kind, "GRADIENT_DIAMOND") {
        Some(GradientKind::Diamond)
    } else {
        None
    }
}

fn unsupported(path: &str, what: String) -> (e: CompileError)
    ensures
        e@ == (CompileErrorView::Unsupported { path: path@, what: what@ }),
{
    CompileError::Unsupported { path: string_of(path), what }
}

fn copy_stops(stops: &Vec<GradientStop>) -> (out: Vec<GradientStop>)
    ensures
        out@ == stops@,
{
    let mut out: Vec<GradientStop> = Vec::new();
    let mut i: usize = 0;
    while i < stops.len()
        invariant
            i <= stops@.len(),
            out@ == stops@.take(i as int),
        decreases stops@.len() - i,
    {
        let s = stops[i];
        out.push(s);
        proof {
            assert(stops@.take(i + 1) =~= stops@.take(i as int).push(stops@[i as int]));
        }
        i = i + 1;
    }
    proof {
        assert(stops@.take(i as int) =~= stops@);
    }
    out
}

/// A paint that is not an image fill, lowered or refused by name.
fn plain_fill_of(paint: &FigmaPaint, path: &str) -> (r: Result<FillSpec, CompileError>)
    ensures
        match plain_fill(*paint) {
            Ok(f) => r matches Ok(s) && s@ == f,
            Err(w) => r matches Err(e) && e@ == (CompileErrorView::Unsupported { path: path@, what: w }),
        },
{
    if str_eq(paint.kind.as_str(), "SOLID") {
        match paint.color {
            Some(c) => Ok(FillSpec::Solid { color: c, opacity: paint.opacity }),
            None => Err(unsupported(path, string_of("a SOLID with no color"))),
        }
    } else {
        match gradient_kind_of(paint.kind.as_str()) {
            Some(kind) => {
                if paint.gradient_handle_positions.len() == 3 {
                    Ok(
                        FillSpec::Gradient {
                            kind,
                            origin: paint.gradient_handle_positions[0],
                            primary: paint.gradient_handle_positions[1],
                            secondary: paint.gradient_handle_positions[2],
                            stops: copy_stops(&paint.gradient_stops),
                            opacity: paint.opacity,
                        },
                    )
                } else {
                    Err(unsupported(path, string_of("a gradient without three handles")))
                }
            },
            None => {
                let mut what = string_of("a ");
                push_str(&mut what, paint.kind.as_str());
                push_str(&mut what, " paint");
                Err(unsupported(path, what))
            },
        }
    }
}

// ------------------------------------------------------------ images

/// The image cache by value: each `imageRef` and the document entry it got.
pub open spec fn cache_view(c: Seq<(String, u32)>) -> Seq<(Seq<char>, u32)> {
    c.map_values(|e: (String, u32)| (e.0@, e.1))
}

/// The entry the first record of `cache` for `r` holds.
pub open spec fn cached(cache: Seq<(Seq<char>, u32)>, r: Seq<char>) -> Option<u32>
    decreases cache.len(),
{
    if cache.len() == 0 {
        None
    } else if cache[0].0 == r {
        Some(cache[0].1)
    } else {
        cached(cache.drop_first(), r)
    }
}

/// The position of the first of `images` that resolves `r`.
pub open spec fn resolving(images: Seq<IdentifiedImage>, r: Seq<char>) -> Option<int>
    decreases images.len(),
{
    if images.len() == 0 {
        None
    } else if images[0].entry.image_ref@ == r {
        Some(0)
    } else {
        match resolving(images.drop_first(), r) {
            Some(k) => Some(k + 1),
            None => None,
        }
    }
}

/// An image finding: always an error, at the node the paint belongs to.
pub open spec fn image_finding(rule: Seq<char>, index: u32, path: Seq<char>, message: Seq<char>) -> DiagnosticView {
    DiagnosticView { rule, severity: Severity::Error, at: LocationView::Node(index, path), message }
}

/// A format's name, as a finding spells it.
pub open spec fn format_name(f: ImageFormat) -> Seq<char> {
    match f {
        ImageFormat::Png => "Png"@,
        ImageFormat::Jpeg => "Jpeg"@,
        ImageFormat::Gif => "Gif"@,
    }
}

/// The finding that refuses `image` as what `r` names, if its header
/// refuses it: unreadable bytes, a signature contradicting the caller's
/// tag, or a zero extent.
pub open spec fn header_finding(image: IdentifiedImage, r: Seq<char>, index: u32, path: Seq<char>) -> Option<
    DiagnosticView,
> {
    let lead = "imageRef "@ + r + ": "@;
    match image.header {
        ImageHeader::UnknownSignature(shown) => Some(
            image_finding(IMAGE_UNKNOWN_SIGNATURE@, index, path, lead + shown@),
        ),
        ImageHeader::Malformed(shown) => Some(image_finding(IMAGE_HEADER_MALFORMED@, index, path, lead + shown@)),
        ImageHeader::Read { format, width, height } => if format != image.entry.asset.format {
            Some(
                image_finding(
                    IMAGE_FORMAT_MISMATCH@,
                    index,
                    path,
                    lead + "the bytes' own signature is "@ + format_name(format)
                        + ", which contradicts the producer's tag "@ + format_name(image.entry.asset.format),
                ),
            )
        } else if width == 0 || height == 0 {
            Some(
                image_finding(
                    IMAGE_ZERO_DIMENSION@,
                    index,
                    path,
                    lead + "the header reports "@ + decimal(width as nat) + "x"@ + decimal(height as nat),
                ),
            )
        } else {
            None
        },
    }
}

/// Whether resolving `r` admits a new image: no earlier reference cached
/// it, the caller supplied it, and its header accepts it.
pub open spec fn admits(
    images: Seq<IdentifiedImage>,
    cache: Seq<(Seq<char>, u32)>,
    r: Seq<char>,
    index: u32,
    path: Seq<char>,
) -> bool {
    &&& cached(cache, r) is None
    &&& resolving(images, r) is Some
    &&& header_finding(images[resolving(images, r)->0], r, index, path) is None
}

/// The payload digests of an asset pool, in order: all that content
/// addressing reads of it.
pub open spec fn digests_of(assets: Seq<Asset>) -> Seq<Seq<u8>> {
    assets.map_values(|a: Asset| blake3_digest(a.bytes@))
}

/// The position of the first of `digests` equal to `d`.
pub open spec fn first_digest(digests: Seq<Seq<u8>>, d: Seq<u8>) -> Option<int>
    decreases digests.len(),
{
    if digests.len() == 0 {
        None
    } else {
        match first_digest(digests.drop_last(), d) {
            Some(i) => Some(i),
            None => if digests.last() == d {
                Some(digests.len() - 1)
            } else {
                None
            },
        }
    }
}

proof fn lemma_first_digest(assets: Seq<Asset>, d: Seq<u8>)
    ensures
        first_with_digest(assets, d) == first_digest(digests_of(assets), d),
        digests_of(assets).len() == assets.len(),
    decreases assets.len(),
{
    if assets.len() > 0 {
        assert(digests_of(assets).drop_last() =~= digests_of(assets.drop_last()));
        lemma_first_digest(assets.drop_last(), d);
    }
}

/// The entry an admitted payload gets in a pool with payload `digests`: the
/// first with the same digest, else a new one at the end.
pub open spec fn admitted_index(bytes: Seq<u8>, digests: Seq<Seq<u8>>) -> u32 {
    match first_digest(digests, blake3_digest(bytes)) {
        Some(i) => i as u32,
        None => digests.len() as u32,
    }
}

/// The payload digests of a pool after a payload is admitted into it.
pub open spec fn pool_after(bytes: Seq<u8>, digests: Seq<Seq<u8>>) -> Seq<Seq<u8>> {
    match first_digest(digests, blake3_digest(bytes)) {
        Some(_) => digests,
        None => digests.push(blake3_digest(bytes)),
    }
}

/// The document entry `r` resolves to, or the error resolving it raises.
pub open spec fn image_index(
    images: Seq<IdentifiedImage>,
    cache: Seq<(Seq<char>, u32)>,
    digests: Seq<Seq<u8>>,
    r: Seq<char>,
    index: u32,
    path: Seq<char>,
) -> Result<u32, CompileErrorView> {
    match cached(cache, r) {
        Some(i) => Ok(i),
        None => match resolving(images, r) {
            None => Err(CompileErrorView::UnresolvedImage { path, image_ref: r }),
            Some(k) => match header_finding(images[k], r, index, path) {
                Some(d) => Err(CompileErrorView::Diagnostics(seq![d])),
                None => Ok(admitted_index(images[k].entry.asset.bytes@, digests)),
            },
        },
    }
}

/// `after` is `before` with `image` admitted under content addressing: the
/// same pool when a payload with its digest is already there, else one new
/// entry carrying the caller's tag, the bytes and the header's extent.
pub open spec fn admitted(image: IdentifiedImage, before: Seq<Asset>, after: Seq<Asset>) -> bool {
    match image.header {
        ImageHeader::Read { format, width, height } => match first_with_digest(
            before,
            blake3_digest(image.entry.asset.bytes@),
        ) {
            Some(_) => after == before,
            None => {
                &&& after.len() == before.len() + 1
                &&& after.drop_last() == before
                &&& after.last().format == image.entry.asset.format
                &&& after.last().kind == AssetKind::Image
                &&& after.last().bytes@ == image.entry.asset.bytes@
                &&& after.last().width == width
                &&& after.last().height == height
            },
        },
        _ => false,
    }
}

/// `a` is `image` as admitted: the caller's format tag, an image, the
/// bytes, and the extent the header reads.
pub open spec fn admitted_form(image: IdentifiedImage, a: Asset) -> bool {
    &&& image.header matches ImageHeader::Read { format, width, height } && a.width == width && a.height == height
    &&& a.format == image.entry.asset.format
    &&& a.kind == AssetKind::Image
    &&& a.bytes@ == image.entry.asset.bytes@
}

/// `a` is one of `images` as admitted.
pub open spec fn admitted_from(images: Seq<IdentifiedImage>, a: Asset) -> bool {
    exists|i: int| 0 <= i < images.len() && admitted_form(#[trigger] images[i], a)
}

/// Every asset of `assets` is one of `images` as admitted.
pub open spec fn from_images(assets: Seq<Asset>, images: Seq<IdentifiedImage>) -> bool {
    forall|k: int| 0 <= k < assets.len() ==> admitted_from(images, #[trigger] assets[k])
}

/// A prefix of a pool of admitted images is one too.
pub proof fn lemma_from_images_take(assets: Seq<Asset>, images: Seq<IdentifiedImage>, n: int)
    requires
        from_images(assets, images),
        0 <= n <= assets.len(),
    ensures
        from_images(assets.take(n), images),
{
    let t = assets.take(n);
    assert forall|k: int| 0 <= k < t.len() implies admitted_from(images, #[trigger] t[k]) by {
        assert(t[k] == assets[k]);
    }
}

/// The pools of a document other than its assets are those of another.
pub open spec fn same_but_assets(a: Document, b: Document) -> bool {
    &&& a.nodes@ == b.nodes@
    &&& a.signals@ == b.signals@
    &&& a.bindings@ == b.bindings@
    &&& a.vector_atlases@ == b.vector_atlases@
    &&& a.vector_shapes@ == b.vector_shapes@
    &&& a.variant_sets@ == b.variant_sets@
}

proof fn lemma_admitted_digests(image: IdentifiedImage, before: Seq<Asset>, after: Seq<Asset>)
    requires
        admitted(image, before, after),
    ensures
        digests_of(after) == pool_after(image.entry.asset.bytes@, digests_of(before)),
{
    let d = blake3_digest(image.entry.asset.bytes@);
    lemma_first_digest(before, d);
    match first_with_digest(before, d) {
        Some(_) => {},
        None => {
            assert(after.drop_last() == before);
            assert(digests_of(after) =~= digests_of(before).push(d));
        },
    }
}

/// Every entry of the cache names an asset of a pool of `len` entries.
pub open spec fn cache_in_pool(cache: Seq<(Seq<char>, u32)>, len: nat) -> bool {
    forall|k: int| 0 <= k < cache.len() ==> ((#[trigger] cache[k]).1 as nat) < len
}

fn image_diagnostic(rule: &'static str, index: u32, path: &str, message: String) -> (e: CompileError)
    ensures
        e@ == CompileErrorView::Diagnostics(seq![image_finding(rule@, index, path@, message@)]),
{
    let mut ds: Vec<Diagnostic> = Vec::new();
    ds.push(
        Diagnostic {
            rule,
            severity: Severity::Error,
            at: Location::Node(NodePath::new(index, string_of(path))),
            message,
        },
    );
    let e = CompileError::Diagnostics(ds);
    assert(ds@.map_values(|d: Diagnostic| d@) =~= seq![image_finding(rule@, index, path@, message@)]);
    e
}

fn format_name_of(f: ImageFormat) -> (s: &'static str)
    ensures
        s@ == format_name(f),
{
    match f {
        ImageFormat::Png => "Png",
        ImageFormat::Jpeg => "Jpeg",
        ImageFormat::Gif => "Gif",
    }
}

/// The document entry for the image `image_ref` names. An entry an earlier
/// reference admitted is reused. Otherwise the first image the caller
/// supplied under that ref is held to its header, which must read, agree
/// with the caller's format tag and report a nonzero extent; then it enters
/// the document's asset pool, shared with any payload of the same digest,
/// and the cache records where. A ref the caller did not supply is an
/// unresolved image; a header that refuses is a finding at the node about
/// to be pushed.
pub fn admit_image(
    image_ref: &str,
    path: &str,
    images: &Vec<IdentifiedImage>,
    image_of: &mut Vec<(String, u32)>,
    doc: &mut Document,
) -> (r: Result<u32, CompileError>)
    requires
        old(doc).assets@.len() < u32::MAX,
    ensures
        ({
            let cache = cache_view(old(image_of)@);
            let index = #[verifier::truncate] (old(doc).nodes@.len() as u32);
            &&& match r {
                Ok(i) => image_index(images@, cache, digests_of(old(doc).assets@), image_ref@, index, path@) == Ok::<
                    u32,
                    CompileErrorView,
                >(i),
                Err(e) => image_index(images@, cache, digests_of(old(doc).assets@), image_ref@, index, path@) == Err::<
                    u32,
                    CompileErrorView,
                >(e@),
            }
            &&& if admits(images@, cache, image_ref@, index, path@) {
                &&& cache_view(final(image_of)@) == cache.push((image_ref@, r->Ok_0))
                &&& admitted(images@[resolving(images@, image_ref@)->0], old(doc).assets@, final(doc).assets@)
            } else {
                &&& final(image_of)@ == old(image_of)@
                &&& final(doc).assets@ == old(doc).assets@
            }
        }),
        same_but_assets(*final(doc), *old(doc)),
        cache_in_pool(cache_view(old(image_of)@), old(doc).assets@.len()) ==> cache_in_pool(
            cache_view(final(image_of)@),
            final(doc).assets@.len(),
        ),
        from_images(old(doc).assets@, images@) ==> from_images(final(doc).assets@, images@),
{
    let ghost cache = cache_view(image_of@);
    let mut i: usize = 0;
    assert(cache.skip(0) =~= cache);
    while i < image_of.len()
        invariant
            i <= image_of@.len(),
            cache == cache_view(image_of@),
            cached(cache, image_ref@) == cached(cache.skip(i as int), image_ref@),
        decreases image_of@.len() - i,
    {
        proof {
            assert(cache.skip(i as int)[0] == cache[i as int]);
            assert(cache.skip(i as int).drop_first() =~= cache.skip(i + 1));
        }
        if str_eq(image_of[i].0.as_str(), image_ref) {
            return Ok(image_of[i].1);
        }
        i = i + 1;
    }
    proof {
        assert(cache.skip(i as int) =~= Seq::<(Seq<char>, u32)>::empty());
    }
    let mut k: usize = 0;
    assert(images@.skip(0) =~= images@);
    while k < images.len()
        invariant
            k <= images@.len(),
            resolving(images@, image_ref@) == match resolving(images@.skip(k as int), image_ref@) {
                Some(j) => Some(j + k),
                None => None::<int>,
            },
        ensures
            k <= images@.len(),
            resolving(images@, image_ref@) == match resolving(images@.skip(k as int), image_ref@) {
                Some(j) => Some(j + k),
                None => None::<int>,
            },
            k < images@.len() ==> images@[k as int].entry.image_ref@ == image_ref@,
        decreases images@.len() - k,
    {
        proof {
            assert(images@.skip(k as int)[0] == images@[k as int]);
            assert(images@.skip(k as int).drop_first() =~= images@.skip(k + 1));
        }
        if str_eq(images[k].entry.image_ref.as_str(), image_ref) {
            break;
        }
        k = k + 1;
    }
    if k == images.len() {
        proof {
            assert(images@.skip(k as int) =~= Seq::<IdentifiedImage>::empty());
        }
        return Err(CompileError::UnresolvedImage { path: string_of(path), image_ref: string_of(image_ref) });
    }
    assert(resolving(images@, image_ref@) == Some(k as int));
    let image = &images[k];
    let index = #[verifier::truncate] (doc.nodes.len() as u32);
    let mut message = string_of("imageRef ");
    push_str(&mut message, image_ref);
    push_str(&mut message, ": ");
    match &image.header {
        ImageHeader::UnknownSignature(shown) => {
            push_str(&mut message, shown.as_str());
            Err(image_diagnostic(IMAGE_UNKNOWN_SIGNATURE, index, path, message))
        },
        ImageHeader::Malformed(shown) => {
            push_str(&mut message, shown.as_str());
            Err(image_diagnostic(IMAGE_HEADER_MALFORMED, index, path, message))
        },
        ImageHeader::Read { format, width, height } => {
            if *format != image.entry.asset.format {
                push_str(&mut message, "the bytes' own signature is ");
                push_str(&mut message, format_name_of(*format));
                push_str(&mut message, ", which contradicts the producer's tag ");
                push_str(&mut message, format_name_of(image.entry.asset.format));
                return Err(image_diagnostic(IMAGE_FORMAT_MISMATCH, index, path, message));
            }
            if *width == 0 || *height == 0 {
                push_str(&mut message, "the header reports ");
                push_decimal(&mut message, *width as u64);
                push_str(&mut message, "x");
                push_decimal(&mut message, *height as u64);
                return Err(image_diagnostic(IMAGE_ZERO_DIMENSION, index, path, message));
            }
            proof {
                lemma_first_with_digest(doc.assets@, blake3_digest(image.entry.asset.bytes@));
                lemma_first_digest(doc.assets@, blake3_digest(image.entry.asset.bytes@));
            }
            let bytes = image.entry.asset.bytes.clone();
            assert(bytes@ =~= image.entry.asset.bytes@);
            let at = doc.push_asset(
                Asset { format: image.entry.asset.format, kind: AssetKind::Image, bytes, width: *width, height: *height },
            );
            image_of.push((string_of(image_ref), at));
            proof {
                assert(doc.assets@ == old(doc).assets@ || doc.assets@.drop_last() =~= old(doc).assets@);
                if from_images(old(doc).assets@, images@) && doc.assets@ != old(doc).assets@ {
                    assert(admitted_form(images@[k as int], doc.assets@.last()));
                    let ghost a = doc.assets@;
                    assert forall|j: int| 0 <= j < a.len() implies admitted_from(images@, #[trigger] a[j]) by {
                        if j < old(doc).assets@.len() {
                            assert(a[j] == a.drop_last()[j]);
                            assert(old(doc).assets@[j] == a[j]);
                        } else {
                            assert(admitted_form(images@[k as int], a[j]));
                        }
                    }
                }
                assert(cache_view(image_of@) =~= cache.push((image_ref@, at)));
                assert((at as nat) < doc.assets@.len());
                if cache_in_pool(cache, old(doc).assets@.len()) {
                    assert forall|j: int| 0 <= j < cache_view(image_of@).len() implies ((#[trigger] cache_view(
                        image_of@,
                    )[j]).1 as nat) < doc.assets@.len() by {
                        if j < cache.len() {
                            assert(cache_view(image_of@)[j] == cache[j]);
                        }
                    }
                }
            }
            Ok(at)
        },
    }
}

// ------------------------------------------------------------ image fills

/// An image fill's scale mode, or the construct its refusal names.
pub open spec fn scale_mode(p: FigmaPaint) -> Result<ScaleMode, Seq<char>> {
    match p.scale_mode {
        None => Err("an IMAGE fill with no scaleMode"@),
        Some(m) => if m@ == "FILL"@ {
            Ok(ScaleMode::Fill)
        } else if m@ == "FIT"@ {
            Ok(ScaleMode::Fit)
        } else if m@ == "CROP"@ {
            Ok(ScaleMode::Crop)
        } else if m@ == "TILE"@ {
            Ok(ScaleMode::Tile)
        } else {
            Err("an image scaleMode "@ + m@)
        },
    }
}

/// An image fill's affine in `a, b, c, d, tx, ty` order; the identity where
/// the paint carries none.
pub open spec fn transform_of(p: FigmaPaint) -> Seq<u32> {
    match p.image_transform {
        Some(t) => seq![t@[0], t@[1], t@[3], t@[4], t@[2], t@[5]],
        None => seq![ONE_BITS, 0u32, 0u32, ONE_BITS, 0u32, 0u32],
    }
}

/// An image fill's tile magnification; one where the paint carries none.
pub open spec fn tile_of(p: FigmaPaint) -> u32 {
    match p.scaling_factor {
        Some(s) => s,
        None => ONE_BITS,
    }
}

fn scale_mode_of(paint: &FigmaPaint, path: &str) -> (r: Result<ScaleMode, CompileError>)
    ensures
        match scale_mode(*paint) {
            Ok(m) => r == Ok::<ScaleMode, CompileError>(m),
            Err(w) => r matches Err(e) && e@ == (CompileErrorView::Unsupported { path: path@, what: w }),
        },
{
    match &paint.scale_mode {
        None => Err(unsupported(path, string_of("an IMAGE fill with no scaleMode"))),
        Some(m) => {
            if str_eq(m.as_str(), "FILL") {
                Ok(ScaleMode::Fill)
            } else if str_eq(m.as_str(), "FIT") {
                Ok(ScaleMode::Fit)
            } else if str_eq(m.as_str(), "CROP") {
                Ok(ScaleMode::Crop)
            } else if str_eq(m.as_str(), "TILE") {
                Ok(ScaleMode::Tile)
            } else {
                let mut what = string_of("an image scaleMode ");
                push_str(&mut what, m.as_str());
                Err(unsupported(path, what))
            }
        },
    }
}

/// What `p` lowers to, or the error its lowering raises, given the images
/// the caller supplied, the cache of refs already admitted and the
/// document's assets; `index` is the node the paint belongs to.
pub open spec fn paint_outcome(
    p: FigmaPaint,
    path: Seq<char>,
    index: u32,
    images: Seq<IdentifiedImage>,
    cache: Seq<(Seq<char>, u32)>,
    digests: Seq<Seq<u8>>,
) -> Result<FillSpecView, CompileErrorView> {
    if !is_image_fill(p) {
        match plain_fill(p) {
            Ok(f) => Ok(f),
            Err(w) => Err(CompileErrorView::Unsupported { path, what: w }),
        }
    } else {
        match p.image_ref {
            None => Err(CompileErrorView::Unsupported { path, what: "an IMAGE fill with no imageRef"@ }),
            Some(r) => match image_index(images, cache, digests, r@, index, path) {
                Err(e) => Err(e),
                Ok(i) => match scale_mode(p) {
                    Ok(m) => Ok(
                        FillSpecView::Image {
                            image: i,
                            scale_mode: m,
                            transform: transform_of(p),
                            tile_scale: tile_of(p),
                        },
                    ),
                    Err(w) => Err(CompileErrorView::Unsupported { path, what: w }),
                },
            },
        }
    }
}

/// Whether lowering `p` admits a new image into the document.
pub open spec fn paint_admits(
    p: FigmaPaint,
    path: Seq<char>,
    index: u32,
    images: Seq<IdentifiedImage>,
    cache: Seq<(Seq<char>, u32)>,
) -> bool {
    &&& is_image_fill(p)
    &&& p.image_ref is Some
    &&& admits(images, cache, p.image_ref->0@, index, path)
}

/// The fill one paint lowers to. A solid needs its colour and a gradient
/// its three handles; any other kind but an image is refused by name. An
/// image fill needs its `imageRef`, which resolves as `admit_image` says,
/// and then its scale mode: the image is admitted before the scale mode is
/// read, so a missing or unknown mode refuses a fill whose image is already
/// in the document. An absent crop affine is the identity and an absent
/// tile magnification is one.
pub fn paint_kind(
    paint: &FigmaPaint,
    path: &str,
    images: &Vec<IdentifiedImage>,
    image_of: &mut Vec<(String, u32)>,
    doc: &mut Document,
) -> (r: Result<FillSpec, CompileError>)
    requires
        old(doc).assets@.len() < u32::MAX,
    ensures
        ({
            let cache = cache_view(old(image_of)@);
            let index = #[verifier::truncate] (old(doc).nodes@.len() as u32);
            &&& match r {
                Ok(f) => paint_outcome(*paint, path@, index, images@, cache, digests_of(old(doc).assets@)) == Ok::<
                    FillSpecView,
                    CompileErrorView,
                >(f@),
                Err(e) => paint_outcome(*paint, path@, index, images@, cache, digests_of(old(doc).assets@)) == Err::<
                    FillSpecView,
                    CompileErrorView,
                >(e@),
            }
            &&& if paint_admits(*paint, path@, index, images@, cache) {
                let r = paint.image_ref->0@;
                &&& cache_view(final(image_of)@) == cache.push(
                    (r, admitted_index(images@[resolving(images@, r)->0].entry.asset.bytes@, digests_of(old(doc).assets@))),
                )
                &&& admitted(images@[resolving(images@, r)->0], old(doc).assets@, final(doc).assets@)
                &&& digests_of(final(doc).assets@) == pool_after(
                    images@[resolving(images@, r)->0].entry.asset.bytes@,
                    digests_of(old(doc).assets@),
                )
            } else {
                &&& final(image_of)@ == old(image_of)@
                &&& final(doc).assets@ == old(doc).assets@
            }
        }),
        same_but_assets(*final(doc), *old(doc)),
        cache_in_pool(cache_view(old(image_of)@), old(doc).assets@.len()) ==> cache_in_pool(
            cache_view(final(image_of)@),
            final(doc).assets@.len(),
        ),
        from_images(old(doc).assets@, images@) ==> from_images(final(doc).assets@, images@),
{
    if str_eq(paint.kind.as_str(), "SOLID") || gradient_kind_of(paint.kind.as_str()).is_some() || !str_eq(
        paint.kind.as_str(),
        "IMAGE",
    ) {
        return plain_fill_of(paint, path);
    }
    let image_ref = match &paint.image_ref {
        Some(r) => r,
        None => {
            return Err(unsupported(path, string_of("an IMAGE fill with no imageRef")));
        },
    };
    let image = admit_image(image_ref.as_str(), path, images, image_of, doc);
    proof {
        let r = image_ref@;
        if admits(images@, cache_view(old(image_of)@), r, #[verifier::truncate] (old(doc).nodes@.len() as u32), path@) {
            lemma_admitted_digests(images@[resolving(images@, r)->0], old(doc).assets@, doc.assets@);
        }
    }
    let image = match image {
        Ok(i) => i,
        Err(e) => {
            return Err(e);
        },
    };
    let scale_mode = match scale_mode_of(paint, path) {
        Ok(m) => m,
        Err(e) => {
            return Err(e);
        },
    };
    let transform: [u32; 6] = match paint.image_transform {
        Some(t) => [t[0], t[1], t[3], t[4], t[2], t[5]],
        None => [ONE_BITS, 0, 0, ONE_BITS, 0, 0],
    };
    assert(transform@ =~= transform_of(*paint));
    let tile_scale = match paint.scaling_factor {
        Some(s) => s,
        None => ONE_BITS,
    };
    Ok(FillSpec::Image { image, scale_mode, transform, tile_scale })
}

// ------------------------------------------------------------ a node's fills

/// What lowering a node's shown fills, in order, has produced so far: the
/// lowered fills, the refusals, the unresolved refs set aside, the error
/// that ended it early if one did, and the image cache and payload digests
/// it leaves behind.
pub struct FillsRun {
    pub lowered: Seq<FillSpecView>,
    pub refused: Seq<Seq<char>>,
    pub unresolved: Seq<Seq<char>>,
    pub abort: Option<CompileErrorView>,
    pub cache: Seq<(Seq<char>, u32)>,
    pub digests: Seq<Seq<u8>>,
}

/// The lowering of each shown fill of `ps`, in order, each seeing the cache
/// and pool the ones before it left. A refusal is collected; an unresolved
/// image is set aside under `Partial` and ends the run under `Strict`; any
/// other error ends it.
pub open spec fn fills_run(
    ps: Seq<FigmaPaint>,
    path: Seq<char>,
    index: u32,
    images: Seq<IdentifiedImage>,
    cache: Seq<(Seq<char>, u32)>,
    digests: Seq<Seq<u8>>,
    policy: EmitPolicy,
) -> FillsRun
    decreases ps.len(),
{
    if ps.len() == 0 {
        FillsRun { lowered: seq![], refused: seq![], unresolved: seq![], abort: None, cache, digests }
    } else {
        let st = fills_run(ps.drop_last(), path, index, images, cache, digests, policy);
        let p = ps.last();
        if st.abort is Some || p.visible == Some(false) {
            st
        } else {
            let r = p.image_ref->0@;
            let bytes = images[resolving(images, r)->0].entry.asset.bytes@;
            let admits = paint_admits(p, path, index, images, st.cache);
            let next = FillsRun {
                cache: if admits {
                    st.cache.push((r, admitted_index(bytes, st.digests)))
                } else {
                    st.cache
                },
                digests: if admits {
                    pool_after(bytes, st.digests)
                } else {
                    st.digests
                },
                ..st
            };
            match paint_outcome(p, path, index, images, st.cache, st.digests) {
                Ok(f) => FillsRun { lowered: st.lowered.push(f), ..next },
                Err(CompileErrorView::Unsupported { path: _, what }) => FillsRun { refused: st.refused.push(what), ..next },
                Err(CompileErrorView::UnresolvedImage { path: q, image_ref }) => if policy == EmitPolicy::Partial {
                    FillsRun { unresolved: st.unresolved.push(image_ref), ..next }
                } else {
                    FillsRun { abort: Some(CompileErrorView::UnresolvedImage { path: q, image_ref }), ..next }
                },
                Err(e) => FillsRun { abort: Some(e), ..next },
            }
        }
    }
}

/// The blocker an unresolved ref becomes on a node that is skipped anyway.
pub open spec fn unresolved_text(r: Seq<char>) -> Seq<char> {
    "an IMAGE fill with an unresolved imageRef "@ + r
}

/// The error lowering a node's fills ends in, given the run and the number
/// of blockers the node had before: the error that ended the run early;
/// else, under `Partial`, the first unresolved ref when nothing else blocks
/// the node, since the node would reference that image once lowered.
pub open spec fn fills_error(run: FillsRun, had: nat, path: Seq<char>) -> Option<CompileErrorView> {
    match run.abort {
        Some(e) => Some(e),
        None => if run.unresolved.len() > 0 && had + run.refused.len() == 0 {
            Some(CompileErrorView::UnresolvedImage { path, image_ref: run.unresolved[0] })
        } else {
            None
        },
    }
}

/// The blockers lowering a node's fills adds: its refusals and, when it
/// does not end in an error, each unresolved ref set aside.
pub open spec fn fills_blockers(run: FillsRun, had: nat, path: Seq<char>) -> Seq<Seq<char>> {
    if fills_error(run, had, path) is Some {
        run.refused
    } else {
        run.refused + run.unresolved.map_values(|q: Seq<char>| unresolved_text(q))
    }
}

pub open spec fn fills_view(ks: Seq<FillSpec>) -> Seq<FillSpecView> {
    ks.map_values(|k: FillSpec| k@)
}

proof fn lemma_run_stops(
    ps: Seq<FigmaPaint>,
    n: int,
    path: Seq<char>,
    index: u32,
    images: Seq<IdentifiedImage>,
    cache: Seq<(Seq<char>, u32)>,
    digests: Seq<Seq<u8>>,
    policy: EmitPolicy,
)
    requires
        0 <= n <= ps.len(),
        fills_run(ps.take(n), path, index, images, cache, digests, policy).abort is Some,
    ensures
        fills_run(ps, path, index, images, cache, digests, policy) == fills_run(
            ps.take(n),
            path,
            index,
            images,
            cache,
            digests,
            policy,
        ),
    decreases ps.len() - n,
{
    if n < ps.len() {
        assert(ps.take(n + 1).drop_last() =~= ps.take(n));
        lemma_run_stops(ps, n + 1, path, index, images, cache, digests, policy);
    } else {
        assert(ps.take(n) =~= ps);
    }
}

/// Lowers every shown fill of `node`, in the order of its `fills`. A fill
/// whose kind has no lowering adds its refusal to `blockers`, and the
/// fills that lower come back in order, so the list is shorter than the
/// shown fills exactly where `blockers` grew. An image the caller did not
/// supply aborts under `Strict`; under `Partial` it waits for the whole
/// list: on a node with no other blocker the first such ref aborts, since
/// the node would reference it once lowered, and otherwise each joins the
/// node's skip as a named blocker. Any other error aborts at once.
pub fn fills_of(
    node: &FigmaNode,
    path: &str,
    policy: EmitPolicy,
    images: &Vec<IdentifiedImage>,
    image_of: &mut Vec<(String, u32)>,
    doc: &mut Document,
    blockers: &mut Vec<String>,
) -> (r: Result<Vec<FillSpec>, CompileError>)
    requires
        old(doc).assets@.len() + node.fills@.len() < u32::MAX,
    ensures
        ({
            let run = fills_run(
                node.fills@,
                path@,
                #[verifier::truncate] (old(doc).nodes@.len() as u32),
                images@,
                cache_view(old(image_of)@),
                digests_of(old(doc).assets@),
                policy,
            );
            &&& cache_view(final(image_of)@) == run.cache
            &&& digests_of(final(doc).assets@) == run.digests
            &&& strings_view(final(blockers)@) == strings_view(old(blockers)@) + fills_blockers(
                run,
                old(blockers)@.len(),
                path@,
            )
            &&& match fills_error(run, old(blockers)@.len(), path@) {
                Some(e) => r matches Err(x) && x@ == e,
                None => r matches Ok(ks) && fills_view(ks@) == run.lowered,
            }
        }),
        same_but_assets(*final(doc), *old(doc)),
        cache_in_pool(cache_view(old(image_of)@), old(doc).assets@.len()) ==> cache_in_pool(
            cache_view(final(image_of)@),
            final(doc).assets@.len(),
        ),
        from_images(old(doc).assets@, images@) ==> from_images(final(doc).assets@, images@),
{
    let ghost ps = node.fills@;
    let ghost index = #[verifier::truncate] (doc.nodes@.len() as u32);
    let ghost c0 = cache_view(image_of@);
    let ghost d0 = digests_of(doc.assets@);
    let ghost b0 = strings_view(blockers@);
    let ghost doc0 = *doc;
    let ghost pooled = cache_in_pool(c0, doc.assets@.len());
    let ghost imaged = from_images(doc.assets@, images@);
    let mut kinds: Vec<FillSpec> = Vec::new();
    let mut unresolved: Vec<String> = Vec::new();
    let mut i: usize = 0;
    proof {
        assert(ps.take(0) =~= Seq::<FigmaPaint>::empty());
        assert(b0 + Seq::<Seq<char>>::empty() =~= b0);
        assert(fills_view(kinds@) =~= Seq::<FillSpecView>::empty());
        assert(strings_view(unresolved@) =~= Seq::<Seq<char>>::empty());
    }
    while i < node.fills.len()
        invariant
            i <= ps.len(),
            ps == node.fills@,
            doc0 == *old(doc),
            c0 == cache_view(old(image_of)@),
            d0 == digests_of(old(doc).assets@),
            b0 == strings_view(old(blockers)@),
            pooled == cache_in_pool(c0, doc0.assets@.len()),
            doc0.assets@.len() + ps.len() < u32::MAX,
            doc.assets@.len() <= doc0.assets@.len() + i,
            same_but_assets(*doc, doc0),
            index == #[verifier::truncate] (doc0.nodes@.len() as u32),
            ({
                let run = fills_run(ps.take(i as int), path@, index, images@, c0, d0, policy);
                &&& run.abort is None
                &&& cache_view(image_of@) == run.cache
                &&& digests_of(doc.assets@) == run.digests
                &&& fills_view(kinds@) == run.lowered
                &&& strings_view(blockers@) == b0 + run.refused
                &&& strings_view(unresolved@) == run.unresolved
            }),
            pooled ==> cache_in_pool(cache_view(image_of@), doc.assets@.len()),
            imaged == from_images(doc0.assets@, images@),
            imaged ==> from_images(doc.assets@, images@),
        decreases ps.len() - i,
    {
        let ghost st = fills_run(ps.take(i as int), path@, index, images@, c0, d0, policy);
        proof {
            assert(ps.take(i + 1).drop_last() =~= ps.take(i as int));
            assert(ps.take(i + 1).last() == ps[i as int]);
        }
        let paint = &node.fills[i];
        if paint.visible == Some(false) {
            i = i + 1;
            continue;
        }
        let ghost kinds_before = fills_view(kinds@);
        let outcome = paint_kind(paint, path, images, image_of, doc);
        match outcome {
            Ok(kind) => {
                kinds.push(kind);
                proof {
                    assert(fills_view(kinds@) =~= kinds_before.push(kind@));
                }
            },
            Err(CompileError::Unsupported { path: _, what }) => {
                block(blockers, what);
            },
            Err(e) => {
                let is_unresolved = match &e {
                    CompileError::UnresolvedImage { .. } => true,
                    _ => false,
                };
                if is_unresolved && policy == EmitPolicy::Partial {
                    match e {
                        CompileError::UnresolvedImage { path: _, image_ref } => {
                            let ghost before = unresolved@;
                            unresolved.push(image_ref);
                            proof {
                                assert(strings_view(unresolved@) =~= strings_view(before).push(image_ref@));
                            }
                        },
                        _ => {},
                    }
                } else {
                    proof {
                        lemma_run_stops(ps, i + 1, path@, index, images@, c0, d0, policy);
                    }
                    return Err(e);
                }
            },
        }
        i = i + 1;
    }
    proof {
        assert(ps.take(i as int) =~= ps);
    }
    if unresolved.len() > 0 && blockers.len() == 0 {
        let first = string_of(unresolved[0].as_str());
        return Err(CompileError::UnresolvedImage { path: string_of(path), image_ref: first });
    }
    let ghost b1 = strings_view(blockers@);
    let ghost us = strings_view(unresolved@);
    let mut j: usize = 0;
    proof {
        assert(b1 + us.take(0).map_values(|q: Seq<char>| unresolved_text(q)) =~= b1);
    }
    while j < unresolved.len()
        invariant
            j <= us.len(),
            us == strings_view(unresolved@),
            strings_view(blockers@) == b1 + us.take(j as int).map_values(|q: Seq<char>| unresolved_text(q)),
        decreases us.len() - j,
    {
        let mut what = string_of("an IMAGE fill with an unresolved imageRef ");
        push_str(&mut what, unresolved[j].as_str());
        block(blockers, what);
        proof {
            assert(us.take(j + 1) =~= us.take(j as int).push(us[j as int]));
            assert(us.take(j + 1).map_values(|q: Seq<char>| unresolved_text(q)) =~= us.take(j as int).map_values(
                |q: Seq<char>| unresolved_text(q),
            ).push(unresolved_text(us[j as int])));
        }
        j = j + 1;
    }
    proof {
        assert(us.take(j as int) =~= us);
    }
    Ok(kinds)
}

// ------------------------------------------------------------ withdrawal

/// The entries of `cache` whose asset index is below `kept`, in order.
pub open spec fn entries_below(cache: Seq<(Seq<char>, u32)>, kept: int) -> Seq<(Seq<char>, u32)>
    decreases cache.len(),
{
    if cache.len() == 0 {
        seq![]
    } else if (cache.last().1 as int) < kept {
        entries_below(cache.drop_last(), kept).push(cache.last())
    } else {
        entries_below(cache.drop_last(), kept)
    }
}

proof fn lemma_entries_below(cache: Seq<(Seq<char>, u32)>, kept: int)
    ensures
        cache_in_pool(entries_below(cache, kept), if kept < 0 { 0 } else { kept as nat }),
    decreases cache.len(),
{
    if cache.len() > 0 {
        lemma_entries_below(cache.drop_last(), kept);
        let below = entries_below(cache.drop_last(), kept);
        if (cache.last().1 as int) < kept {
            assert forall|k: int| 0 <= k < below.push(cache.last()).len() implies ((#[trigger] below.push(
                cache.last(),
            )[k]).1 as nat) < (if kept < 0 { 0 } else { kept as nat }) by {
                if k < below.len() {
                    assert(below.push(cache.last())[k] == below[k]);
                }
            }
        }
    }
}

/// Takes back what a refused node's paints admitted: the asset pool keeps
/// its first `kept` entries, and the cache forgets every ref whose entry
/// went with them, so that a later fill naming the same ref admits its
/// image afresh instead of reusing an index that no longer names it. The
/// cache then names only pooled assets.
pub fn withdraw_assets(doc: &mut Document, image_of: &mut Vec<(String, u32)>, kept: usize)
    requires
        kept <= old(doc).assets@.len(),
    ensures
        final(doc).assets@ == old(doc).assets@.take(kept as int),
        same_but_assets(*final(doc), *old(doc)),
        cache_view(final(image_of)@) == entries_below(cache_view(old(image_of)@), kept as int),
        cache_in_pool(cache_view(final(image_of)@), final(doc).assets@.len()),
{
    doc.assets.truncate(kept);
    let ghost c0 = cache_view(image_of@);
    let mut remaining: Vec<(String, u32)> = Vec::new();
    let mut i: usize = 0;
    proof {
        assert(c0.take(0) =~= Seq::<(Seq<char>, u32)>::empty());
        assert(cache_view(remaining@) =~= Seq::<(Seq<char>, u32)>::empty());
    }
    while i < image_of.len()
        invariant
            i <= image_of@.len(),
            c0 == cache_view(image_of@),
            cache_view(remaining@) == entries_below(c0.take(i as int), kept as int),
        decreases image_of@.len() - i,
    {
        proof {
            assert(c0.take(i + 1).drop_last() =~= c0.take(i as int));
            assert(c0.take(i + 1).last() == c0[i as int]);
        }
        if (image_of[i].1 as usize) < kept {
            let ghost before = cache_view(remaining@);
            let entry = (string_of(image_of[i].0.as_str()), image_of[i].1);
            remaining.push(entry);
            proof {
                assert(cache_view(remaining@) =~= before.push(c0[i as int]));
            }
        }
        i = i + 1;
    }
    proof {
        assert(c0.take(i as int) =~= c0);
        lemma_entries_below(c0, kept as int);
    }
    *image_of = remaining;
}

// ------------------------------------------------------------ laws

proof fn lemma_cached_after_push(cache: Seq<(Seq<char>, u32)>, r: Seq<char>, i: u32)
    requires
        cached(cache, r) is None,
    ensures
        cached(cache.push((r, i)), r) == Some(i),
    decreases cache.len(),
{
    if cache.len() > 0 {
        assert(cache.push((r, i)).drop_first() =~= cache.drop_first().push((r, i)));
        lemma_cached_after_push(cache.drop_first(), r, i);
    }
}

/// Once an image fill has admitted its image, every later fill naming the
/// same `imageRef` lowers onto the same document entry and admits nothing:
/// whatever the images and the assets are by then, the ref resolves to the
/// entry the first fill got.
pub proof fn a_later_reference_shares_the_entry(
    images: Seq<IdentifiedImage>,
    cache: Seq<(Seq<char>, u32)>,
    digests: Seq<Seq<u8>>,
    r: Seq<char>,
    index: u32,
    path: Seq<char>,
    later_images: Seq<IdentifiedImage>,
    later_digests: Seq<Seq<u8>>,
    later_index: u32,
    later_path: Seq<char>,
)
    requires
        admits(images, cache, r, index, path),
    ensures
        ({
            let i = admitted_index(images[resolving(images, r)->0].entry.asset.bytes@, digests);
            let after = cache.push((r, i));
            &&& image_index(later_images, after, later_digests, r, later_index, later_path) == Ok::<
                u32,
                CompileErrorView,
            >(i)
            &&& !admits(later_images, after, r, later_index, later_path)
        }),
{
    let i = admitted_index(images[resolving(images, r)->0].entry.asset.bytes@, digests);
    lemma_cached_after_push(cache, r, i);
}

} // verus!
