//! The wasm ABI wire format.
//!
//! Little-endian, `u32` lengths, no padding: every field is a length
//! followed by exactly that many bytes. Nothing here panics — a malformed
//! request comes back as a value, `Err(String)`, which the caller turns into
//! a [`Status::MalformedRequest`] response.
use vstd::prelude::*;
use vstd::slice::*;
use vstd::string::*;
use vstd::utf8::*;

use crate::bindings::{BoundValue, BoundVariable, BoundVariableView};
use crate::diagnostics::Profile;
use crate::text::{decimal, push_decimal, push_str, string_of, utf8_decode, utf8_error_text};
use crate::EmitPolicy;

verus! {

broadcast use vstd::seq_lib::group_seq_properties;

/// The version of this wire format. The importer reads it at load and
/// refuses a module it does not understand. Version 2 appends the joined
/// variable-binding rows to the compile request.
pub const ABI_VERSION: u32 = 2;

/// The first field of every response.
#[derive(Clone, Copy, Debug, PartialEq, Eq, Structural)]
pub enum Status {
    Succeeded,
    CompileError,
    MalformedRequest,
}

/// The number a status travels as.
pub open spec fn status_code(s: Status) -> u32 {
    match s {
        Status::Succeeded => 0,
        Status::CompileError => 1,
        Status::MalformedRequest => 2,
    }
}

impl Status {
    /// The number this status travels as on the wire.
    pub fn code(self) -> (c: u32)
        ensures
            c == status_code(self),
    {
        match self {
            Status::Succeeded => 0,
            Status::CompileError => 1,
            Status::MalformedRequest => 2,
        }
    }
}

/// The encoding an image asset's bytes carry.
#[derive(Clone, Copy, Debug, PartialEq, Eq, Structural)]
pub enum ImageFormat {
    Png,
    Jpeg,
    Gif,
}

/// An image the caller resolved: its declared encoding and its bytes.
#[derive(Clone, Debug)]
pub struct ImageAsset {
    pub format: ImageFormat,
    pub bytes: Vec<u8>,
}

/// One resolved `imageRef`: the ref and the asset it names.
#[derive(Clone, Debug)]
pub struct ImageEntry {
    pub image_ref: String,
    pub asset: ImageAsset,
}

/// An image entry by the values of its fields.
pub struct ImageEntryView {
    pub image_ref: Seq<char>,
    pub format: ImageFormat,
    pub bytes: Seq<u8>,
}

impl View for ImageEntry {
    type V = ImageEntryView;

    open spec fn view(&self) -> ImageEntryView {
        ImageEntryView { image_ref: self.image_ref@, format: self.asset.format, bytes: self.asset.bytes@ }
    }
}

/// A decoded `dashc_compile_figma` request. The images keep the order they
/// arrived in, and no `imageRef` occurs twice.
#[derive(Clone, Debug)]
pub struct CompileRequest {
    pub profile: Profile,
    pub json: String,
    pub images: Vec<ImageEntry>,
    /// The importer's joined variable-binding rows; empty for an import
    /// without a vartable.
    pub bindings: Vec<BoundVariable>,
    /// The emit policy: an optional trailing flag whose absence decodes as
    /// [`EmitPolicy::Strict`].
    pub policy: EmitPolicy,
}

/// A compile request by the values of its fields.
pub struct CompileRequestView {
    pub profile: Profile,
    pub json: Seq<char>,
    pub images: Seq<ImageEntryView>,
    pub bindings: Seq<BoundVariableView>,
    pub policy: EmitPolicy,
}

pub open spec fn images_view(images: Seq<ImageEntry>) -> Seq<ImageEntryView> {
    images.map_values(|e: ImageEntry| e@)
}

pub open spec fn bindings_view(bindings: Seq<BoundVariable>) -> Seq<BoundVariableView> {
    bindings.map_values(|b: BoundVariable| b@)
}

impl View for CompileRequest {
    type V = CompileRequestView;

    open spec fn view(&self) -> CompileRequestView {
        CompileRequestView {
            profile: self.profile,
            json: self.json@,
            images: images_view(self.images@),
            bindings: bindings_view(self.bindings@),
            policy: self.policy,
        }
    }
}

// ---- the encoding ----------------------------------------------------------

/// Byte `k` (0 = least significant) of `v`.
#[verifier::opaque]
pub open spec fn byte_of(v: u32, k: u32) -> u8 {
    ((v >> (8 * k)) & 0xff) as u8
}

/// `v` as four little-endian bytes.
pub open spec fn le_bytes(v: u32) -> Seq<u8> {
    seq![byte_of(v, 0), byte_of(v, 1), byte_of(v, 2), byte_of(v, 3)]
}

/// The `u32` four little-endian bytes spell.
pub open spec fn le_value(b0: u8, b1: u8, b2: u8, b3: u8) -> u32 {
    (b0 as u32) | ((b1 as u32) << 8u32) | ((b2 as u32) << 16u32) | ((b3 as u32) << 24u32)
}

/// A length-prefixed byte field.
pub open spec fn field_bytes(b: Seq<u8>) -> Seq<u8> {
    le_bytes(b.len() as u32) + b
}

/// A length-prefixed UTF-8 text field.
pub open spec fn text_bytes(t: Seq<char>) -> Seq<u8> {
    field_bytes(encode_utf8(t))
}

/// Whether a field of this many bytes can be length-prefixed.
pub open spec fn fits(len: nat) -> bool {
    len <= u32::MAX
}

pub open spec fn profile_code(p: Profile) -> u32 {
    match p {
        Profile::Core => 0,
        Profile::Full => 1,
    }
}

pub open spec fn format_code(f: ImageFormat) -> u32 {
    match f {
        ImageFormat::Png => 0,
        ImageFormat::Jpeg => 1,
        ImageFormat::Gif => 2,
    }
}

/// One image entry: the ref, the format tag, the bytes.
pub open spec fn image_entry_bytes(e: ImageEntryView) -> Seq<u8> {
    text_bytes(e.image_ref) + le_bytes(format_code(e.format)) + field_bytes(e.bytes)
}

/// The image entries, in order.
pub open spec fn images_bytes(es: Seq<ImageEntryView>) -> Seq<u8>
    decreases es.len(),
{
    if es.len() == 0 {
        Seq::empty()
    } else {
        images_bytes(es.drop_last()) + image_entry_bytes(es.last())
    }
}

/// A bound value: tag 0 and one component, or tag 1 and four.
pub open spec fn value_bytes(v: BoundValue) -> Seq<u8> {
    match v {
        BoundValue::Float(bits) => le_bytes(0) + le_bytes(bits),
        BoundValue::Color { r, g, b, a } => le_bytes(1) + le_bytes(r) + le_bytes(g) + le_bytes(b)
            + le_bytes(a),
    }
}

/// One binding row: node id, property path, signal name, value.
pub open spec fn binding_bytes(b: BoundVariableView) -> Seq<u8> {
    text_bytes(b.node_id) + text_bytes(b.property) + text_bytes(b.signal) + value_bytes(b.value)
}

/// The binding rows, in order.
pub open spec fn bindings_bytes(bs: Seq<BoundVariableView>) -> Seq<u8>
    decreases bs.len(),
{
    if bs.len() == 0 {
        Seq::empty()
    } else {
        bindings_bytes(bs.drop_last()) + binding_bytes(bs.last())
    }
}

/// The optional trailing emit-policy flag.
pub open spec fn flag_bytes(flag: Option<u32>) -> Seq<u8> {
    match flag {
        Some(v) => le_bytes(v),
        None => Seq::empty(),
    }
}

/// What a trailing flag means: `0` is Partial; `1`, any other value, or no
/// flag at all is Strict, so a caller that predates the flag refuses hard.
pub open spec fn policy_of_flag(flag: Option<u32>) -> EmitPolicy {
    match flag {
        Some(v) => if v == 0 {
            EmitPolicy::Partial
        } else {
            EmitPolicy::Strict
        },
        None => EmitPolicy::Strict,
    }
}

/// A compile request's bytes, with the given trailing flag.
pub open spec fn request_bytes(r: CompileRequestView, flag: Option<u32>) -> Seq<u8> {
    le_bytes(profile_code(r.profile)) + text_bytes(r.json) + le_bytes(r.images.len() as u32)
        + images_bytes(r.images) + le_bytes(r.bindings.len() as u32) + bindings_bytes(r.bindings)
        + flag_bytes(flag)
}

/// Whether `name` is the ref of one of `es`.
pub open spec fn has_ref(es: Seq<ImageEntryView>, name: Seq<char>) -> bool {
    exists|i: int| 0 <= i < es.len() && es[i].image_ref == name
}

/// An image entry every field of which can be length-prefixed.
pub open spec fn image_fits(e: ImageEntryView) -> bool {
    fits(encode_utf8(e.image_ref).len()) && fits(e.bytes.len())
}

/// Image entries that can travel: each fits, and no ref occurs twice.
pub open spec fn images_well_formed(es: Seq<ImageEntryView>) -> bool {
    &&& forall|i: int| 0 <= i < es.len() ==> image_fits(#[trigger] es[i])
    &&& forall|i: int, j: int|
        0 <= i < j < es.len() ==> (#[trigger] es[i]).image_ref != (#[trigger] es[j]).image_ref
}

/// A binding row every text field of which can be length-prefixed.
pub open spec fn binding_fits(b: BoundVariableView) -> bool {
    fits(encode_utf8(b.node_id).len()) && fits(encode_utf8(b.property).len()) && fits(
        encode_utf8(b.signal).len(),
    )
}

pub open spec fn bindings_well_formed(bs: Seq<BoundVariableView>) -> bool {
    forall|i: int| 0 <= i < bs.len() ==> binding_fits(#[trigger] bs[i])
}

/// A request that can travel: every length fits its prefix, and no
/// `imageRef` occurs twice.
pub open spec fn request_well_formed(r: CompileRequestView) -> bool {
    &&& fits(encode_utf8(r.json).len())
    &&& fits(r.images.len())
    &&& images_well_formed(r.images)
    &&& fits(r.bindings.len())
    &&& bindings_well_formed(r.bindings)
}

/// Whether `bytes` are the encoding of `r`: `r` can travel, and with one
/// choice of trailing flag that agrees with `r`'s policy, its bytes are
/// exactly `bytes`.
pub open spec fn encodes(bytes: Seq<u8>, r: CompileRequestView) -> bool {
    &&& request_well_formed(r)
    &&& exists|flag: Option<u32>|
        policy_of_flag(flag) == r.policy && #[trigger] request_bytes(r, flag) == bytes
}

/// A response: a `u32` byte count of everything after it, the status, the
/// blob as a field, and the JSON as a text field.
pub open spec fn response_bytes(status: u32, blob: Seq<u8>, json: Seq<char>) -> Seq<u8> {
    le_bytes((12 + blob.len() + encode_utf8(json).len()) as u32) + le_bytes(status) + field_bytes(
        blob,
    ) + text_bytes(json)
}

// ---- the parse, step by step -----------------------------------------------

#[verifier::opaque]
pub open spec fn take_u32(s: Seq<u8>) -> Option<(u32, Seq<u8>)> {
    if s.len() >= 4 {
        Some((le_value(s[0], s[1], s[2], s[3]), s.skip(4)))
    } else {
        None
    }
}

#[verifier::opaque]
pub open spec fn take_field(s: Seq<u8>) -> Option<(Seq<u8>, Seq<u8>)> {
    match take_u32(s) {
        Some((n, r)) => if n <= r.len() {
            Some((r.take(n as int), r.skip(n as int)))
        } else {
            None
        },
        None => None,
    }
}

#[verifier::opaque]
pub open spec fn take_text(s: Seq<u8>) -> Option<(Seq<char>, Seq<u8>)> {
    match take_field(s) {
        Some((b, r)) => if valid_utf8(b) {
            Some((decode_utf8(b), r))
        } else {
            None
        },
        None => None,
    }
}

pub open spec fn take_profile(s: Seq<u8>) -> Option<(Profile, Seq<u8>)> {
    match take_u32(s) {
        Some((v, r)) => if v == 0 {
            Some((Profile::Core, r))
        } else if v == 1 {
            Some((Profile::Full, r))
        } else {
            None
        },
        None => None,
    }
}

pub open spec fn take_format(s: Seq<u8>) -> Option<(ImageFormat, Seq<u8>)> {
    match take_u32(s) {
        Some((v, r)) => if v == 0 {
            Some((ImageFormat::Png, r))
        } else if v == 1 {
            Some((ImageFormat::Jpeg, r))
        } else if v == 2 {
            Some((ImageFormat::Gif, r))
        } else {
            None
        },
        None => None,
    }
}

#[verifier::opaque]
pub open spec fn take_image(s: Seq<u8>) -> Option<(ImageEntryView, Seq<u8>)> {
    match take_text(s) {
        Some((name, r1)) => match take_format(r1) {
            Some((f, r2)) => match take_field(r2) {
                Some((b, r3)) => Some((ImageEntryView { image_ref: name, format: f, bytes: b }, r3)),
                None => None,
            },
            None => None,
        },
        None => None,
    }
}

pub open spec fn take_images(s: Seq<u8>, n: nat) -> Option<(Seq<ImageEntryView>, Seq<u8>)>
    decreases n,
{
    if n == 0 {
        Some((Seq::empty(), s))
    } else {
        match take_images(s, (n - 1) as nat) {
            Some((es, r)) => match take_image(r) {
                Some((e, r2)) => if has_ref(es, e.image_ref) {
                    None
                } else {
                    Some((es.push(e), r2))
                },
                None => None,
            },
            None => None,
        }
    }
}

pub open spec fn take_value(s: Seq<u8>) -> Option<(BoundValue, Seq<u8>)> {
    match take_u32(s) {
        Some((tag, r)) => if tag == 0 {
            match take_u32(r) {
                Some((bits, r1)) => Some((BoundValue::Float(bits), r1)),
                None => None,
            }
        } else if tag == 1 {
            match take_u32(r) {
                Some((cr, r1)) => match take_u32(r1) {
                    Some((cg, r2)) => match take_u32(r2) {
                        Some((cb, r3)) => match take_u32(r3) {
                            Some((ca, r4)) => Some(
                                (BoundValue::Color { r: cr, g: cg, b: cb, a: ca }, r4),
                            ),
                            None => None,
                        },
                        None => None,
                    },
                    None => None,
                },
                None => None,
            }
        } else {
            None
        },
        None => None,
    }
}

#[verifier::opaque]
pub open spec fn take_binding(s: Seq<u8>) -> Option<(BoundVariableView, Seq<u8>)> {
    match take_text(s) {
        Some((node_id, r1)) => match take_text(r1) {
            Some((property, r2)) => match take_text(r2) {
                Some((signal, r3)) => match take_value(r3) {
                    Some((value, r4)) => Some(
                        (BoundVariableView { node_id, property, signal, value }, r4),
                    ),
                    None => None,
                },
                None => None,
            },
            None => None,
        },
        None => None,
    }
}

pub open spec fn take_bindings(s: Seq<u8>, n: nat) -> Option<(Seq<BoundVariableView>, Seq<u8>)>
    decreases n,
{
    if n == 0 {
        Some((Seq::empty(), s))
    } else {
        match take_bindings(s, (n - 1) as nat) {
            Some((bs, r)) => match take_binding(r) {
                Some((b, r2)) => Some((bs.push(b), r2)),
                None => None,
            },
            None => None,
        }
    }
}

pub open spec fn take_flag(s: Seq<u8>) -> Option<Option<u32>> {
    if s.len() == 0 {
        Some(None)
    } else {
        match take_u32(s) {
            Some((v, r)) => if r.len() == 0 {
                Some(Some(v))
            } else {
                None
            },
            None => None,
        }
    }
}

pub open spec fn parse_request(s: Seq<u8>) -> Option<(CompileRequestView, Option<u32>)> {
    match take_profile(s) {
        Some((profile, r1)) => match take_text(r1) {
            Some((json, r2)) => match take_u32(r2) {
                Some((ni, r3)) => match take_images(r3, ni as nat) {
                    Some((images, r4)) => match take_u32(r4) {
                        Some((nb, r5)) => match take_bindings(r5, nb as nat) {
                            Some((bindings, r6)) => match take_flag(r6) {
                                Some(flag) => Some(
                                    (
                                        CompileRequestView {
                                            profile,
                                            json,
                                            images,
                                            bindings,
                                            policy: policy_of_flag(flag),
                                        },
                                        flag,
                                    ),
                                ),
                                None => None,
                            },
                            None => None,
                        },
                        None => None,
                    },
                    None => None,
                },
                None => None,
            },
            None => None,
        },
        None => None,
    }
}

// ---- what a refused request is told ------------------------------------------
//
// Each `*_error` is the sentence the decoder gives when the matching `take_*`
// finds nothing, for a request of `total` bytes of which `s` are left: the
// offset a sentence names is `total - s.len()`.

/// A `u32` that is not all there.
pub open spec fn u32_error(s: Seq<u8>, total: nat) -> Seq<char> {
    let at = total - s.len();
    if at + 4 > usize::MAX {
        "length overflow"@
    } else {
        shortfall_text(4, at as nat, s.len())
    }
}

/// A length-prefixed field that is not all there.
pub open spec fn field_error(s: Seq<u8>, total: nat) -> Seq<char> {
    match take_u32(s) {
        None => u32_error(s, total),
        Some((n, r)) => {
            let at = total - r.len();
            if at + n > usize::MAX {
                "length overflow"@
            } else {
                shortfall_text(n as nat, at as nat, r.len())
            }
        },
    }
}

/// A text field that is not all there or is not UTF-8.
pub open spec fn text_error(s: Seq<u8>, total: nat) -> Seq<char> {
    match take_field(s) {
        None => field_error(s, total),
        Some((b, r)) => "not UTF-8: "@ + utf8_error_text(b),
    }
}

/// A tag that is not all there or is outside its vocabulary.
pub open spec fn tag_error(s: Seq<u8>, total: nat, what: Seq<char>, legend: Seq<char>) -> Seq<char> {
    match take_u32(s) {
        None => u32_error(s, total),
        Some((v, r)) => unknown_text(what, v as nat, legend),
    }
}

pub open spec fn image_error(s: Seq<u8>, total: nat) -> Seq<char> {
    match take_text(s) {
        None => text_error(s, total),
        Some((name, r1)) => match take_format(r1) {
            None => tag_error(r1, total, "image format"@, "0 = png, 1 = jpeg, 2 = gif"@),
            Some((f, r2)) => field_error(r2, total),
        },
    }
}

/// The first of `n` image entries to fail, or the first `imageRef` to
/// repeat.
pub open spec fn images_error(s: Seq<u8>, n: nat, total: nat) -> Seq<char>
    decreases n,
{
    if n == 0 {
        Seq::empty()
    } else {
        match take_images(s, (n - 1) as nat) {
            None => images_error(s, (n - 1) as nat, total),
            Some((es, r)) => match take_image(r) {
                None => image_error(r, total),
                Some((e, r2)) => "imageRef "@ + e.image_ref + " appears twice"@,
            },
        }
    }
}

pub open spec fn value_error(s: Seq<u8>, total: nat) -> Seq<char> {
    match take_u32(s) {
        None => u32_error(s, total),
        Some((tag, r)) => if tag == 0 {
            u32_error(r, total)
        } else if tag == 1 {
            match take_u32(r) {
                None => u32_error(r, total),
                Some((x1, r1)) => match take_u32(r1) {
                    None => u32_error(r1, total),
                    Some((x2, r2)) => match take_u32(r2) {
                        None => u32_error(r2, total),
                        Some((x3, r3)) => u32_error(r3, total),
                    },
                },
            }
        } else {
            unknown_text("bound value type"@, tag as nat, "0 = float, 1 = color"@)
        },
    }
}

pub open spec fn binding_error(s: Seq<u8>, total: nat) -> Seq<char> {
    match take_text(s) {
        None => text_error(s, total),
        Some((t1, r1)) => match take_text(r1) {
            None => text_error(r1, total),
            Some((t2, r2)) => match take_text(r2) {
                None => text_error(r2, total),
                Some((t3, r3)) => value_error(r3, total),
            },
        },
    }
}

/// The first of `n` binding rows to fail.
pub open spec fn bindings_error(s: Seq<u8>, n: nat, total: nat) -> Seq<char>
    decreases n,
{
    if n == 0 {
        Seq::empty()
    } else {
        match take_bindings(s, (n - 1) as nat) {
            None => bindings_error(s, (n - 1) as nat, total),
            Some((bs, r)) => binding_error(r, total),
        }
    }
}

/// A trailing flag that is not all there, or bytes after it.
pub open spec fn flag_error(s: Seq<u8>, total: nat) -> Seq<char> {
    match take_u32(s) {
        None => u32_error(s, total),
        Some((v, r)) => decimal(r.len()) + " trailing byte(s) after the request"@,
    }
}

/// The sentence a refused request is answered with: the first field, in
/// reading order, that is not all there, not UTF-8, or outside its
/// vocabulary, the first `imageRef` to repeat, or the bytes left over.
pub open spec fn request_error(s: Seq<u8>) -> Seq<char> {
    let total = s.len();
    match take_u32(s) {
        None => u32_error(s, total),
        Some((p, r0)) => if p != 0 && p != 1 {
            unknown_text("profile"@, p as nat, "0 = core, 1 = full"@)
        } else {
            match take_text(r0) {
                None => text_error(r0, total),
                Some((json, r2)) => match take_u32(r2) {
                    None => u32_error(r2, total),
                    Some((ni, r3)) => match take_images(r3, ni as nat) {
                        None => images_error(r3, ni as nat, total),
                        Some((images, r4)) => match take_u32(r4) {
                            None => u32_error(r4, total),
                            Some((nb, r5)) => match take_bindings(r5, nb as nat) {
                                None => bindings_error(r5, nb as nat, total),
                                Some((bindings, r6)) => flag_error(r6, total),
                            },
                        },
                    },
                },
            }
        },
    }
}

// ---- the reader ------------------------------------------------------------

/// A cursor that runs out of bytes instead of panicking.
struct Reader<'a> {
    bytes: &'a [u8],
    at: usize,
}

impl<'a> Reader<'a> {
    spec fn rest(&self) -> Seq<u8> {
        self.bytes@.skip(self.at as int)
    }

    spec fn wf(&self) -> bool {
        self.at <= self.bytes@.len()
    }

    fn new(bytes: &'a [u8]) -> (r: Self)
        ensures
            r.wf(),
            r.rest() == bytes@,
            r.bytes@ == bytes@,
    {
        let r = Reader { bytes, at: 0 };
        assert(r.rest() =~= bytes@);
        r
    }

    /// How many bytes are left to read.
    fn remaining(&self) -> (n: usize)
        requires
            self.wf(),
        ensures
            n == self.rest().len(),
    {
        self.bytes.len() - self.at
    }

    /// The message for a field of `want` bytes that is not all there.
    fn shortfall(&self, want: u64) -> (m: String)
        requires
            self.wf(),
        ensures
            m@ == shortfall_text(want as nat, self.at as nat, self.rest().len()),
    {
        let mut m = string_of("want ");
        push_decimal(&mut m, want);
        push_str(&mut m, " bytes at offset ");
        push_decimal(&mut m, self.at as u64);
        push_str(&mut m, ", have ");
        push_decimal(&mut m, self.remaining() as u64);
        m
    }

    fn u32(&mut self) -> (r: Result<u32, String>)
        requires
            old(self).wf(),
        ensures
            final(self).wf(),
            final(self).bytes@ == old(self).bytes@,
            match r {
                Ok(v) => take_u32(old(self).rest()) == Some((v, final(self).rest())),
                Err(m) => take_u32(old(self).rest()) is None && m@ == u32_error(
                    old(self).rest(),
                    old(self).bytes@.len(),
                ),
            },
    {
        reveal(take_u32);
        let total = self.bytes.len();
        let end = match self.at.checked_add(4) {
            Some(end) => end,
            None => {
                assert(total - self.at < 4);
                return Err(string_of("length overflow"));
            },
        };
        if end > self.bytes.len() {
            return Err(self.shortfall(4));
        }
        let at = self.at;
        let v = (self.bytes[at] as u32) | ((self.bytes[at + 1] as u32) << 8u32) | ((self.bytes[at
            + 2] as u32) << 16u32) | ((self.bytes[at + 3] as u32) << 24u32);
        self.at = end;
        proof {
            let s = old(self).rest();
            assert(s[0] == self.bytes@[at as int]);
            assert(s[1] == self.bytes@[at + 1]);
            assert(s[2] == self.bytes@[at + 2]);
            assert(s[3] == self.bytes@[at + 3]);
            assert(s.skip(4) =~= self.rest());
        }
        Ok(v)
    }

    /// The bit pattern of one little-endian single-precision value.
    fn f32_bits(&mut self) -> (r: Result<u32, String>)
        requires
            old(self).wf(),
        ensures
            final(self).wf(),
            final(self).bytes@ == old(self).bytes@,
            match r {
                Ok(v) => take_u32(old(self).rest()) == Some((v, final(self).rest())),
                Err(m) => take_u32(old(self).rest()) is None && m@ == u32_error(
                    old(self).rest(),
                    old(self).bytes@.len(),
                ),
            },
    {
        self.u32()
    }

    fn bytes(&mut self) -> (r: Result<&'a [u8], String>)
        requires
            old(self).wf(),
        ensures
            final(self).wf(),
            final(self).bytes@ == old(self).bytes@,
            match r {
                Ok(f) => take_field(old(self).rest()) == Some((f@, final(self).rest())),
                Err(m) => take_field(old(self).rest()) is None && m@ == field_error(
                    old(self).rest(),
                    old(self).bytes@.len(),
                ),
            },
    {
        reveal(take_field);
        let len = self.u32()? as usize;
        let ghost mid = self.rest();
        let total = self.bytes.len();
        let end = match self.at.checked_add(len) {
            Some(end) => end,
            None => {
                assert(total - self.at < len);
                return Err(string_of("length overflow"));
            },
        };
        if end > self.bytes.len() {
            return Err(self.shortfall(len as u64));
        }
        let field = &self.bytes[self.at..end];
        proof {
            assert(field@ =~= mid.take(len as int));
        }
        self.at = end;
        proof {
            assert(mid.skip(len as int) =~= self.rest());
        }
        Ok(field)
    }

    fn string(&mut self) -> (r: Result<String, String>)
        requires
            old(self).wf(),
        ensures
            final(self).wf(),
            final(self).bytes@ == old(self).bytes@,
            match r {
                Ok(s) => take_text(old(self).rest()) == Some((s@, final(self).rest())),
                Err(m) => take_text(old(self).rest()) is None && m@ == text_error(
                    old(self).rest(),
                    old(self).bytes@.len(),
                ),
            },
    {
        reveal(take_text);
        let bytes = self.bytes()?;
        match utf8_decode(slice_to_vec(bytes)) {
            Ok(s) => Ok(s),
            Err(e) => {
                let mut m = string_of("not UTF-8: ");
                push_str(&mut m, e.as_str());
                Err(m)
            },
        }
    }

    /// A `u32` at the tail, or `None` at end of buffer; a partial (one to
    /// three byte) tail is a decode error like any other truncation.
    fn optional_u32(&mut self) -> (r: Result<Option<u32>, String>)
        requires
            old(self).wf(),
        ensures
            final(self).wf(),
            final(self).bytes@ == old(self).bytes@,
            match r {
                Ok(None) => old(self).rest().len() == 0 && final(self).rest() == old(self).rest(),
                Ok(Some(v)) => old(self).rest().len() != 0 && take_u32(old(self).rest()) == Some(
                    (v, final(self).rest()),
                ),
                Err(m) => old(self).rest().len() != 0 && take_u32(old(self).rest()) is None && m@
                    == u32_error(old(self).rest(), old(self).bytes@.len()),
            },
    {
        if self.remaining() == 0 {
            return Ok(None);
        }
        Ok(Some(self.u32()?))
    }

    /// Trailing bytes mean the two sides disagree about the format.
    fn finish(&self) -> (r: Result<(), String>)
        requires
            self.wf(),
        ensures
            r is Ok <==> self.rest().len() == 0,
            r matches Err(m) ==> m@ == decimal(self.rest().len()) + " trailing byte(s) after the request"@,
    {
        let n = self.remaining();
        if n == 0 {
            Ok(())
        } else {
            let mut m = String::new();
            push_decimal(&mut m, n as u64);
            push_str(&mut m, " trailing byte(s) after the request");
            assert(m@ =~= decimal(self.rest().len()) + " trailing byte(s) after the request"@);
            Err(m)
        }
    }
}


/// The message for a field of `want` bytes at offset `at` when `have` are
/// left.
pub open spec fn shortfall_text(want: nat, at: nat, have: nat) -> Seq<char> {
    "want "@ + decimal(want) + " bytes at offset "@ + decimal(at) + ", have "@ + decimal(have)
}

/// The message for a tag `other` outside the vocabulary of `what`, whose
/// known tags `legend` lists.
pub open spec fn unknown_text(what: Seq<char>, other: nat, legend: Seq<char>) -> Seq<char> {
    "unknown "@ + what + " "@ + decimal(other) + " ("@ + legend + ")"@
}

/// The message for a tag outside its vocabulary.
fn unknown(what: &str, other: u32, legend: &str) -> (m: String)
    ensures
        m@ == unknown_text(what@, other as nat, legend@),
{
    let mut m = string_of("unknown ");
    push_str(&mut m, what);
    push_str(&mut m, " ");
    push_decimal(&mut m, other as u64);
    push_str(&mut m, " (");
    push_str(&mut m, legend);
    push_str(&mut m, ")");
    m
}

/// Whether `image_ref` is the ref of one of `images`.
fn ref_taken(images: &Vec<ImageEntry>, image_ref: &String) -> (r: bool)
    ensures
        r == has_ref(images_view(images@), image_ref@),
{
    let mut j: usize = 0;
    while j < images.len()
        invariant
            j <= images@.len(),
            forall|k: int| 0 <= k < j ==> images@[k].image_ref@ != image_ref@,
        decreases images@.len() - j,
    {
        if images[j].image_ref == *image_ref {
            assert(images_view(images@)[j as int].image_ref == image_ref@);
            return true;
        }
        j = j + 1;
    }
    proof {
        if has_ref(images_view(images@), image_ref@) {
            let k = choose|k: int|
                0 <= k < images_view(images@).len() && images_view(images@)[k].image_ref
                    == image_ref@;
            assert(images@[k].image_ref@ == image_ref@);
        }
    }
    false
}

proof fn lemma_take_images_stays_failed(s: Seq<u8>, n: nat, m: nat)
    requires
        take_images(s, n) is None,
        n <= m,
    ensures
        take_images(s, m) is None,
    decreases m,
{
    if n < m {
        lemma_take_images_stays_failed(s, n, (m - 1) as nat);
    }
}

proof fn lemma_take_bindings_stays_failed(s: Seq<u8>, n: nat, m: nat)
    requires
        take_bindings(s, n) is None,
        n <= m,
    ensures
        take_bindings(s, m) is None,
    decreases m,
{
    if n < m {
        lemma_take_bindings_stays_failed(s, n, (m - 1) as nat);
    }
}

proof fn lemma_images_error_stays(s: Seq<u8>, n: nat, m: nat, total: nat)
    requires
        take_images(s, n) is None,
        n <= m,
    ensures
        images_error(s, m, total) == images_error(s, n, total),
    decreases m,
{
    if n < m {
        lemma_take_images_stays_failed(s, n, (m - 1) as nat);
        lemma_images_error_stays(s, n, (m - 1) as nat, total);
    }
}

proof fn lemma_bindings_error_stays(s: Seq<u8>, n: nat, m: nat, total: nat)
    requires
        take_bindings(s, n) is None,
        n <= m,
    ensures
        bindings_error(s, m, total) == bindings_error(s, n, total),
    decreases m,
{
    if n < m {
        lemma_take_bindings_stays_failed(s, n, (m - 1) as nat);
        lemma_bindings_error_stays(s, n, (m - 1) as nat, total);
    }
}

/// One image entry, step for step with `take_image`.
fn decode_image(reader: &mut Reader) -> (res: Result<ImageEntry, String>)
    requires
        old(reader).wf(),
    ensures
        final(reader).wf(),
        final(reader).bytes@ == old(reader).bytes@,
        match res {
            Ok(e) => take_image(old(reader).rest()) == Some((e@, final(reader).rest())),
            Err(m) => take_image(old(reader).rest()) is None && m@ == image_error(
                old(reader).rest(),
                old(reader).bytes@.len(),
            ),
        },
{
    reveal(take_image);
    let image_ref = reader.string()?;
    let ghost t1 = reader.rest();
    let format = match reader.u32()? {
        0 => ImageFormat::Png,
        1 => ImageFormat::Jpeg,
        2 => ImageFormat::Gif,
        other => return Err(unknown("image format", other, "0 = png, 1 = jpeg, 2 = gif")),
    };
    let ghost t2 = reader.rest();
    assert(take_format(t1) == Some((format, t2)));
    let field = reader.bytes()?;
    let asset_bytes = slice_to_vec(field);
    Ok(ImageEntry { image_ref, asset: ImageAsset { format, bytes: asset_bytes } })
}

/// `count` image entries, step for step with `take_images`.
fn decode_images(reader: &mut Reader, count: u32) -> (res: Result<Vec<ImageEntry>, String>)
    requires
        old(reader).wf(),
    ensures
        final(reader).wf(),
        final(reader).bytes@ == old(reader).bytes@,
        match res {
            Ok(es) => take_images(old(reader).rest(), count as nat) == Some(
                (images_view(es@), final(reader).rest()),
            ),
            Err(m) => take_images(old(reader).rest(), count as nat) is None && m@ == images_error(
                old(reader).rest(),
                count as nat,
                old(reader).bytes@.len(),
            ),
        },
{
    let ghost s = reader.rest();
    let mut images: Vec<ImageEntry> = Vec::new();
    let mut i: u32 = 0;
    assert(images_view(images@) =~= Seq::<ImageEntryView>::empty());
    while i < count
        invariant
            reader.wf(),
            reader.bytes@ == old(reader).bytes@,
            s == old(reader).rest(),
            i <= count,
            take_images(s, i as nat) == Some((images_view(images@), reader.rest())),
        decreases count - i,
    {
        proof {
            if take_images(s, (i + 1) as nat) is None {
                lemma_take_images_stays_failed(s, (i + 1) as nat, count as nat);
                lemma_images_error_stays(s, (i + 1) as nat, count as nat, old(reader).bytes@.len());
            }
        }
        let entry = decode_image(reader)?;
        if ref_taken(&images, &entry.image_ref) {
            let mut m = string_of("imageRef ");
            push_str(&mut m, entry.image_ref.as_str());
            push_str(&mut m, " appears twice");
            return Err(m);
        }
        let ghost old_view = images_view(images@);
        images.push(entry);
        assert(images_view(images@) =~= old_view.push(entry@));
        i = i + 1;
    }
    Ok(images)
}

/// One bound value, step for step with `take_value`.
fn decode_value(reader: &mut Reader) -> (res: Result<BoundValue, String>)
    requires
        old(reader).wf(),
    ensures
        final(reader).wf(),
        final(reader).bytes@ == old(reader).bytes@,
        match res {
            Ok(v) => take_value(old(reader).rest()) == Some((v, final(reader).rest())),
            Err(m) => take_value(old(reader).rest()) is None && m@ == value_error(
                old(reader).rest(),
                old(reader).bytes@.len(),
            ),
        },
{
    let value = match reader.u32()? {
        0 => BoundValue::Float(reader.f32_bits()?),
        1 => {
            let r = reader.f32_bits()?;
            let g = reader.f32_bits()?;
            let b = reader.f32_bits()?;
            let a = reader.f32_bits()?;
            BoundValue::Color { r, g, b, a }
        },
        other => return Err(unknown("bound value type", other, "0 = float, 1 = color")),
    };
    Ok(value)
}

/// One binding row, step for step with `take_binding`.
fn decode_binding(reader: &mut Reader) -> (res: Result<BoundVariable, String>)
    requires
        old(reader).wf(),
    ensures
        final(reader).wf(),
        final(reader).bytes@ == old(reader).bytes@,
        match res {
            Ok(b) => take_binding(old(reader).rest()) == Some((b@, final(reader).rest())),
            Err(m) => take_binding(old(reader).rest()) is None && m@ == binding_error(
                old(reader).rest(),
                old(reader).bytes@.len(),
            ),
        },
{
    reveal(take_binding);
    let node_id = reader.string()?;
    let property = reader.string()?;
    let signal = reader.string()?;
    let value = decode_value(reader)?;
    Ok(BoundVariable { node_id, property, signal, value })
}

/// `count` binding rows, step for step with `take_bindings`.
fn decode_bindings(reader: &mut Reader, count: u32) -> (res: Result<Vec<BoundVariable>, String>)
    requires
        old(reader).wf(),
    ensures
        final(reader).wf(),
        final(reader).bytes@ == old(reader).bytes@,
        match res {
            Ok(bs) => take_bindings(old(reader).rest(), count as nat) == Some(
                (bindings_view(bs@), final(reader).rest()),
            ),
            Err(m) => take_bindings(old(reader).rest(), count as nat) is None && m@ == bindings_error(
                old(reader).rest(),
                count as nat,
                old(reader).bytes@.len(),
            ),
        },
{
    let ghost s = reader.rest();
    let mut bindings: Vec<BoundVariable> = Vec::new();
    let mut i: u32 = 0;
    assert(bindings_view(bindings@) =~= Seq::<BoundVariableView>::empty());
    while i < count
        invariant
            reader.wf(),
            reader.bytes@ == old(reader).bytes@,
            s == old(reader).rest(),
            i <= count,
            take_bindings(s, i as nat) == Some((bindings_view(bindings@), reader.rest())),
        decreases count - i,
    {
        proof {
            if take_bindings(s, (i + 1) as nat) is None {
                lemma_take_bindings_stays_failed(s, (i + 1) as nat, count as nat);
                lemma_bindings_error_stays(s, (i + 1) as nat, count as nat, old(reader).bytes@.len());
            }
        }
        let row = decode_binding(reader)?;
        let ghost old_view = bindings_view(bindings@);
        bindings.push(row);
        assert(bindings_view(bindings@) =~= old_view.push(row@));
        i = i + 1;
    }
    Ok(bindings)
}

/// Decodes one request, step for step with `parse_request`.
fn decode_steps(bytes: &[u8]) -> (res: Result<CompileRequest, String>)
    ensures
        match res {
            Ok(r) => parse_request(bytes@) matches Some((v, _)) && v == r@,
            Err(m) => parse_request(bytes@) is None && m@ == request_error(bytes@),
        },
{
    let mut reader = Reader::new(bytes);
    let profile = match reader.u32()? {
        0 => Profile::Core,
        1 => Profile::Full,
        other => return Err(unknown("profile", other, "0 = core, 1 = full")),
    };
    let json = reader.string()?;
    let count = reader.u32()?;
    let images = decode_images(&mut reader, count)?;
    let count = reader.u32()?;
    let bindings = decode_bindings(&mut reader, count)?;
    let ghost s6 = reader.rest();
    let flag = reader.optional_u32()?;
    let policy = match flag {
        Some(0) => EmitPolicy::Partial,
        _ => EmitPolicy::Strict,
    };
    reader.finish()?;
    assert(take_flag(s6) == Some(flag));
    assert(policy == policy_of_flag(flag));
    Ok(CompileRequest { profile, json, images, bindings, policy })
}

// ---- the laws of the encoding --------------------------------------------

proof fn lemma_le_round(v: u32)
    ensures
        le_value(le_bytes(v)[0], le_bytes(v)[1], le_bytes(v)[2], le_bytes(v)[3]) == v,
{
    reveal(byte_of);
    assert(byte_of(v, 0) == (v & 0xff) as u8) by (bit_vector);
    assert(byte_of(v, 1) == ((v >> 8u32) & 0xff) as u8) by (bit_vector);
    assert(byte_of(v, 2) == ((v >> 16u32) & 0xff) as u8) by (bit_vector);
    assert(byte_of(v, 3) == ((v >> 24u32) & 0xff) as u8) by (bit_vector);
    let b0 = (v & 0xff) as u8;
    let b1 = ((v >> 8u32) & 0xff) as u8;
    let b2 = ((v >> 16u32) & 0xff) as u8;
    let b3 = ((v >> 24u32) & 0xff) as u8;
    assert(le_bytes(v)[0] == b0 && le_bytes(v)[1] == b1 && le_bytes(v)[2] == b2 && le_bytes(v)[3]
        == b3);
    assert((((v & 0xff) as u8) as u32) | (((((v >> 8u32) & 0xff) as u8) as u32) << 8u32) | (((((v
        >> 16u32) & 0xff) as u8) as u32) << 16u32) | (((((v >> 24u32) & 0xff) as u8) as u32)
        << 24u32) == v) by (bit_vector);
}

proof fn lemma_le_back(b0: u8, b1: u8, b2: u8, b3: u8)
    ensures
        le_bytes(le_value(b0, b1, b2, b3)) == seq![b0, b1, b2, b3],
{
    reveal(byte_of);
    let v = le_value(b0, b1, b2, b3);
    assert(byte_of(v, 0) == b0) by (bit_vector)
        requires
            v == (b0 as u32) | ((b1 as u32) << 8u32) | ((b2 as u32) << 16u32) | ((b3 as u32)
                << 24u32),
    ;
    assert(byte_of(v, 1) == b1) by (bit_vector)
        requires
            v == (b0 as u32) | ((b1 as u32) << 8u32) | ((b2 as u32) << 16u32) | ((b3 as u32)
                << 24u32),
    ;
    assert(byte_of(v, 2) == b2) by (bit_vector)
        requires
            v == (b0 as u32) | ((b1 as u32) << 8u32) | ((b2 as u32) << 16u32) | ((b3 as u32)
                << 24u32),
    ;
    assert(byte_of(v, 3) == b3) by (bit_vector)
        requires
            v == (b0 as u32) | ((b1 as u32) << 8u32) | ((b2 as u32) << 16u32) | ((b3 as u32)
                << 24u32),
    ;
    assert(le_bytes(v) =~= seq![b0, b1, b2, b3]);
}

proof fn lemma_take_u32_enc(v: u32, r: Seq<u8>)
    ensures
        take_u32(le_bytes(v) + r) == Some((v, r)),
{
    reveal(take_u32);
    let s = le_bytes(v) + r;
    lemma_le_round(v);
    assert(s[0] == le_bytes(v)[0] && s[1] == le_bytes(v)[1] && s[2] == le_bytes(v)[2] && s[3]
        == le_bytes(v)[3]);
    assert(s.skip(4) =~= r);
}

proof fn lemma_take_u32_dec(s: Seq<u8>)
    ensures
        take_u32(s) matches Some((v, r)) ==> s == le_bytes(v) + r,
{
    reveal(take_u32);
    if s.len() >= 4 {
        lemma_le_back(s[0], s[1], s[2], s[3]);
        assert(s =~= le_bytes(le_value(s[0], s[1], s[2], s[3])) + s.skip(4));
    }
}

proof fn lemma_take_field_enc(b: Seq<u8>, r: Seq<u8>)
    requires
        fits(b.len()),
    ensures
        take_field(field_bytes(b) + r) == Some((b, r)),
{
    reveal(take_field);
    lemma_take_u32_enc(b.len() as u32, b + r);
    assert(field_bytes(b) + r =~= le_bytes(b.len() as u32) + (b + r));
    assert((b + r).take(b.len() as int) =~= b);
    assert((b + r).skip(b.len() as int) =~= r);
}

proof fn lemma_take_field_dec(s: Seq<u8>)
    ensures
        take_field(s) matches Some((b, r)) ==> s == field_bytes(b) + r && fits(b.len()),
{
    reveal(take_field);
    lemma_take_u32_dec(s);
    if let Some((n, r0)) = take_u32(s) {
        if n <= r0.len() {
            let b = r0.take(n as int);
            assert(r0 =~= b + r0.skip(n as int));
            assert(b.len() == n);
            assert(field_bytes(b) + r0.skip(n as int) =~= le_bytes(n) + r0);
        }
    }
}

proof fn lemma_take_text_enc(t: Seq<char>, r: Seq<u8>)
    requires
        fits(encode_utf8(t).len()),
    ensures
        take_text(text_bytes(t) + r) == Some((t, r)),
{
    reveal(take_text);
    broadcast use encode_utf8_valid_utf8, encode_utf8_decode_utf8;

    lemma_take_field_enc(encode_utf8(t), r);
}

proof fn lemma_take_text_dec(s: Seq<u8>)
    ensures
        take_text(s) matches Some((t, r)) ==> s == text_bytes(t) + r && fits(encode_utf8(t).len()),
{
    reveal(take_text);
    broadcast use decode_utf8_encode_utf8;

    lemma_take_field_dec(s);
}

proof fn lemma_take_image_enc(e: ImageEntryView, r: Seq<u8>)
    requires
        image_fits(e),
    ensures
        take_image(image_entry_bytes(e) + r) == Some((e, r)),
{
    reveal(take_image);
    let a = text_bytes(e.image_ref);
    let b = le_bytes(format_code(e.format));
    let c = field_bytes(e.bytes);
    assert(image_entry_bytes(e) + r =~= a + (b + (c + r)));
    lemma_take_text_enc(e.image_ref, b + (c + r));
    lemma_take_u32_enc(format_code(e.format), c + r);
    lemma_take_field_enc(e.bytes, r);
}

#[verifier::rlimit(60)]
proof fn lemma_take_image_dec(s: Seq<u8>)
    ensures
        take_image(s) matches Some((e, r)) ==> s == image_entry_bytes(e) + r && image_fits(e),
{
    reveal(take_image);
    lemma_take_text_dec(s);
    if let Some((name, r1)) = take_text(s) {
        lemma_take_u32_dec(r1);
        if let Some((f, r2)) = take_format(r1) {
            lemma_take_field_dec(r2);
            if let Some((b, r3)) = take_field(r2) {
                let e = ImageEntryView { image_ref: name, format: f, bytes: b };
                let t = text_bytes(name);
                let l = le_bytes(format_code(f));
                let fb = field_bytes(b);
                assert(l + r2 == r1);
                assert(s == t + (l + (fb + r3)));
                assert(((t + l) + fb) + r3 =~= t + (l + (fb + r3)));
            }
        }
    }
}

proof fn lemma_take_images_enc(es: Seq<ImageEntryView>, r: Seq<u8>)
    requires
        images_well_formed(es),
    ensures
        take_images(images_bytes(es) + r, es.len()) == Some((es, r)),
    decreases es.len(),
{
    if es.len() > 0 {
        let init = es.drop_last();
        let last = es.last();
        assert(images_well_formed(init)) by {
            assert forall|i: int| 0 <= i < init.len() implies image_fits(#[trigger] init[i]) by {
                assert(init[i] == es[i]);
            }
            assert forall|i: int, j: int| 0 <= i < j < init.len() implies (#[trigger] init[i]).image_ref
                != (#[trigger] init[j]).image_ref by {
                assert(init[i] == es[i] && init[j] == es[j]);
            }
        }
        assert(images_bytes(es) + r =~= images_bytes(init) + (image_entry_bytes(last) + r));
        lemma_take_images_enc(init, image_entry_bytes(last) + r);
        assert(image_fits(es[es.len() - 1]));
        lemma_take_image_enc(last, r);
        assert(!has_ref(init, last.image_ref)) by {
            if has_ref(init, last.image_ref) {
                let i = choose|i: int| 0 <= i < init.len() && init[i].image_ref == last.image_ref;
                assert(es[i].image_ref != es[es.len() - 1].image_ref);
            }
        }
        assert(init.push(last) =~= es);
    } else {
        assert(images_bytes(es) + r =~= r);
    }
}

proof fn lemma_take_images_dec(s: Seq<u8>, n: nat)
    ensures
        take_images(s, n) matches Some((es, r)) ==> s == images_bytes(es) + r && es.len() == n
            && images_well_formed(es),
    decreases n,
{
    if n == 0 {
        assert(s =~= images_bytes(Seq::<ImageEntryView>::empty()) + s);
    } else {
        lemma_take_images_dec(s, (n - 1) as nat);
        if let Some((es, r)) = take_images(s, (n - 1) as nat) {
            lemma_take_image_dec(r);
            if let Some((e, r2)) = take_image(r) {
                if !has_ref(es, e.image_ref) {
                    let es2 = es.push(e);
                    assert(es2.drop_last() =~= es);
                    assert(s =~= images_bytes(es2) + r2);
                    assert forall|i: int| 0 <= i < es2.len() implies image_fits(#[trigger] es2[i]) by {
                        if i < es.len() {
                            assert(es2[i] == es[i]);
                        }
                    }
                    assert forall|i: int, j: int| 0 <= i < j < es2.len() implies (
                    #[trigger] es2[i]).image_ref != (#[trigger] es2[j]).image_ref by {
                        assert(es2[i] == es[i]);
                        if j == es.len() {
                            assert(es2[j] == e);
                            if es[i].image_ref == e.image_ref {
                                assert(has_ref(es, e.image_ref));
                            }
                        } else {
                            assert(es2[j] == es[j]);
                        }
                    }
                }
            }
        }
    }
}

proof fn lemma_take_value_enc(v: BoundValue, r: Seq<u8>)
    ensures
        take_value(value_bytes(v) + r) == Some((v, r)),
{
    match v {
        BoundValue::Float(bits) => {
            assert(value_bytes(v) + r =~= le_bytes(0) + (le_bytes(bits) + r));
            lemma_take_u32_enc(0, le_bytes(bits) + r);
            lemma_take_u32_enc(bits, r);
        },
        BoundValue::Color { r: cr, g: cg, b: cb, a: ca } => {
            assert(value_bytes(v) + r =~= le_bytes(1) + (le_bytes(cr) + (le_bytes(cg) + (le_bytes(
                cb,
            ) + (le_bytes(ca) + r)))));
            lemma_take_u32_enc(1, le_bytes(cr) + (le_bytes(cg) + (le_bytes(cb) + (le_bytes(ca) + r))));
            lemma_take_u32_enc(cr, le_bytes(cg) + (le_bytes(cb) + (le_bytes(ca) + r)));
            lemma_take_u32_enc(cg, le_bytes(cb) + (le_bytes(ca) + r));
            lemma_take_u32_enc(cb, le_bytes(ca) + r);
            lemma_take_u32_enc(ca, r);
        },
    }
}

proof fn lemma_take_value_dec(s: Seq<u8>)
    ensures
        take_value(s) matches Some((v, r)) ==> s == value_bytes(v) + r,
{
    lemma_take_u32_dec(s);
    if let Some((tag, r0)) = take_u32(s) {
        lemma_take_u32_dec(r0);
        if let Some((x1, r1)) = take_u32(r0) {
            lemma_take_u32_dec(r1);
            if tag == 0 {
                assert(s =~= value_bytes(BoundValue::Float(x1)) + r1);
            } else if tag == 1 {
                if let Some((x2, r2)) = take_u32(r1) {
                    lemma_take_u32_dec(r2);
                    if let Some((x3, r3)) = take_u32(r2) {
                        lemma_take_u32_dec(r3);
                        if let Some((x4, r4)) = take_u32(r3) {
                            assert(s =~= value_bytes(BoundValue::Color { r: x1, g: x2, b: x3, a: x4 })
                                + r4);
                        }
                    }
                }
            }
        }
    }
}

proof fn lemma_take_binding_enc(b: BoundVariableView, r: Seq<u8>)
    requires
        binding_fits(b),
    ensures
        take_binding(binding_bytes(b) + r) == Some((b, r)),
{
    reveal(take_binding);
    let p1 = text_bytes(b.node_id);
    let p2 = text_bytes(b.property);
    let p3 = text_bytes(b.signal);
    let p4 = value_bytes(b.value);
    assert(binding_bytes(b) + r =~= p1 + (p2 + (p3 + (p4 + r))));
    lemma_take_text_enc(b.node_id, p2 + (p3 + (p4 + r)));
    lemma_take_text_enc(b.property, p3 + (p4 + r));
    lemma_take_text_enc(b.signal, p4 + r);
    lemma_take_value_enc(b.value, r);
}

#[verifier::rlimit(60)]
proof fn lemma_take_binding_dec(s: Seq<u8>)
    ensures
        take_binding(s) matches Some((b, r)) ==> s == binding_bytes(b) + r && binding_fits(b),
{
    reveal(take_binding);
    lemma_take_text_dec(s);
    if let Some((t1, r1)) = take_text(s) {
        lemma_take_text_dec(r1);
        if let Some((t2, r2)) = take_text(r1) {
            lemma_take_text_dec(r2);
            if let Some((t3, r3)) = take_text(r2) {
                lemma_take_value_dec(r3);
                if let Some((v, r4)) = take_value(r3) {
                    let b = BoundVariableView { node_id: t1, property: t2, signal: t3, value: v };
                    let a1 = text_bytes(t1);
                    let a2 = text_bytes(t2);
                    let a3 = text_bytes(t3);
                    let a4 = value_bytes(v);
                    assert(s == a1 + (a2 + (a3 + (a4 + r4))));
                    assert((((a1 + a2) + a3) + a4) + r4 =~= a1 + (a2 + (a3 + (a4 + r4))));
                }
            }
        }
    }
}

proof fn lemma_take_bindings_enc(bs: Seq<BoundVariableView>, r: Seq<u8>)
    requires
        bindings_well_formed(bs),
    ensures
        take_bindings(bindings_bytes(bs) + r, bs.len()) == Some((bs, r)),
    decreases bs.len(),
{
    if bs.len() > 0 {
        let init = bs.drop_last();
        let last = bs.last();
        assert(bindings_well_formed(init)) by {
            assert forall|i: int| 0 <= i < init.len() implies binding_fits(#[trigger] init[i]) by {
                assert(init[i] == bs[i]);
            }
        }
        assert(bindings_bytes(bs) + r =~= bindings_bytes(init) + (binding_bytes(last) + r));
        lemma_take_bindings_enc(init, binding_bytes(last) + r);
        assert(binding_fits(bs[bs.len() - 1]));
        lemma_take_binding_enc(last, r);
        assert(init.push(last) =~= bs);
    } else {
        assert(bindings_bytes(bs) + r =~= r);
    }
}

proof fn lemma_take_bindings_dec(s: Seq<u8>, n: nat)
    ensures
        take_bindings(s, n) matches Some((bs, r)) ==> s == bindings_bytes(bs) + r && bs.len() == n
            && bindings_well_formed(bs),
    decreases n,
{
    if n == 0 {
        assert(s =~= bindings_bytes(Seq::<BoundVariableView>::empty()) + s);
    } else {
        lemma_take_bindings_dec(s, (n - 1) as nat);
        if let Some((bs, r)) = take_bindings(s, (n - 1) as nat) {
            lemma_take_binding_dec(r);
            if let Some((b, r2)) = take_binding(r) {
                let bs2 = bs.push(b);
                assert(bs2.drop_last() =~= bs);
                assert(s =~= bindings_bytes(bs2) + r2);
                assert forall|i: int| 0 <= i < bs2.len() implies binding_fits(#[trigger] bs2[i]) by {
                    if i < bs.len() {
                        assert(bs2[i] == bs[i]);
                    }
                }
            }
        }
    }
}

proof fn lemma_take_flag_enc(flag: Option<u32>)
    ensures
        take_flag(flag_bytes(flag)) == Some(flag),
{
    if let Some(v) = flag {
        lemma_take_u32_enc(v, Seq::empty());
        assert(le_bytes(v) + Seq::<u8>::empty() =~= le_bytes(v));
    }
}

proof fn lemma_take_flag_dec(s: Seq<u8>)
    ensures
        take_flag(s) matches Some(flag) ==> s == flag_bytes(flag),
{
    reveal(take_u32);
    lemma_take_u32_dec(s);
    if let Some((v, r)) = take_u32(s) {
        if r.len() == 0 {
            assert(s =~= le_bytes(v));
        }
    }
}

/// Serializing then parsing gives the request back.
proof fn lemma_parse_request_enc(r: CompileRequestView, flag: Option<u32>)
    requires
        request_well_formed(r),
        policy_of_flag(flag) == r.policy,
    ensures
        parse_request(request_bytes(r, flag)) == Some((r, flag)),
{
    let a = le_bytes(profile_code(r.profile));
    let b = text_bytes(r.json);
    let c = le_bytes(r.images.len() as u32);
    let d = images_bytes(r.images);
    let e = le_bytes(r.bindings.len() as u32);
    let f = bindings_bytes(r.bindings);
    let g = flag_bytes(flag);
    assert(request_bytes(r, flag) =~= a + (b + (c + (d + (e + (f + g))))));
    lemma_take_u32_enc(profile_code(r.profile), b + (c + (d + (e + (f + g)))));
    lemma_take_text_enc(r.json, c + (d + (e + (f + g))));
    lemma_take_u32_enc(r.images.len() as u32, d + (e + (f + g)));
    lemma_take_images_enc(r.images, e + (f + g));
    lemma_take_u32_enc(r.bindings.len() as u32, f + g);
    lemma_take_bindings_enc(r.bindings, g);
    lemma_take_flag_enc(flag);
}

/// What parses is the serialization of what it parses to.
#[verifier::rlimit(60)]
proof fn lemma_parse_request_dec(s: Seq<u8>)
    ensures
        parse_request(s) matches Some((r, flag)) ==> request_well_formed(r) && policy_of_flag(flag)
            == r.policy && s == request_bytes(r, flag),
{
    lemma_take_u32_dec(s);
    if let Some((profile, r1)) = take_profile(s) {
        lemma_take_text_dec(r1);
        if let Some((json, r2)) = take_text(r1) {
            lemma_take_u32_dec(r2);
            if let Some((ni, r3)) = take_u32(r2) {
                lemma_take_images_dec(r3, ni as nat);
                if let Some((images, r4)) = take_images(r3, ni as nat) {
                    lemma_take_u32_dec(r4);
                    if let Some((nb, r5)) = take_u32(r4) {
                        lemma_take_bindings_dec(r5, nb as nat);
                        if let Some((bindings, r6)) = take_bindings(r5, nb as nat) {
                            lemma_take_flag_dec(r6);
                            if let Some(flag) = take_flag(r6) {
                                let r = CompileRequestView {
                                    profile,
                                    json,
                                    images,
                                    bindings,
                                    policy: policy_of_flag(flag),
                                };
                                let a = le_bytes(profile_code(profile));
                                let b = text_bytes(json);
                                let c = le_bytes(ni);
                                let d = images_bytes(images);
                                let e = le_bytes(nb);
                                let f = bindings_bytes(bindings);
                                let g = flag_bytes(flag);
                                assert(s == a + r1);
                                assert(s == a + (b + (c + (d + (e + (f + g))))));
                                assert(((((((a + b) + c) + d) + e) + f) + g) =~= a + (b + (c + (d
                                    + (e + (f + g))))));
                            }
                        }
                    }
                }
            }
        }
    }
}

/// Decodes one `dashc_compile_figma` request.
///
/// Success is exactly the case where `bytes` are the encoding of a request
/// that can travel: then that request comes back. Anything else — a
/// truncated field, an unknown tag, text that is not UTF-8, an `imageRef`
/// that occurs twice, trailing bytes — is an `Err` carrying a sentence.
pub fn decode_compile_request(bytes: &[u8]) -> (res: Result<CompileRequest, String>)
    ensures
        match res {
            Ok(r) => encodes(bytes@, r@),
            Err(m) => (forall|r: CompileRequestView| !encodes(bytes@, r)) && m@ == request_error(bytes@),
        },
{
    let res = decode_steps(bytes);
    proof {
        lemma_parse_request_dec(bytes@);
        match &res {
            Ok(r) => {
                let (v, flag) = parse_request(bytes@)->0;
                assert(request_bytes(r@, flag) == bytes@);
            },
            Err(_) => {
                assert forall|r: CompileRequestView| !encodes(bytes@, r) by {
                    if encodes(bytes@, r) {
                        let flag = choose|flag: Option<u32>|
                            policy_of_flag(flag) == r.policy && #[trigger] request_bytes(r, flag)
                                == bytes@;
                        lemma_parse_request_enc(r, flag);
                    }
                }
            },
        }
    }
    res
}

/// The file JSON an image-refs request carries, or the sentence a request
/// whose bytes are not UTF-8 is refused with.
pub fn image_refs_request_text(request: &[u8]) -> (r: Result<String, String>)
    ensures
        match r {
            Ok(t) => valid_utf8(request@) && t@ == decode_utf8(request@),
            Err(m) => !valid_utf8(request@) && m@ == "the file JSON is not UTF-8: "@ + utf8_error_text(
                request@,
            ),
        },
{
    match utf8_decode(slice_to_vec(request)) {
        Ok(t) => Ok(t),
        Err(e) => {
            let mut m = string_of("the file JSON is not UTF-8: ");
            push_str(&mut m, e.as_str());
            Err(m)
        },
    }
}

/// A byte string is the encoding of at most one request: the format leaves
/// a decoder no choice.
pub proof fn encoding_determines_request(bytes: Seq<u8>, r1: CompileRequestView, r2: CompileRequestView)
    requires
        encodes(bytes, r1),
        encodes(bytes, r2),
    ensures
        r1 == r2,
{
    let f1 = choose|flag: Option<u32>|
        policy_of_flag(flag) == r1.policy && #[trigger] request_bytes(r1, flag) == bytes;
    let f2 = choose|flag: Option<u32>|
        policy_of_flag(flag) == r2.policy && #[trigger] request_bytes(r2, flag) == bytes;
    lemma_parse_request_enc(r1, f1);
    lemma_parse_request_enc(r2, f2);
}

/// Parsing a request that carries no flag, followed by `tail`, comes down
/// to reading `tail` as the flag.
proof fn lemma_parse_request_tail(r: CompileRequestView, tail: Seq<u8>)
    requires
        request_well_formed(r),
    ensures
        parse_request(request_bytes(r, None) + tail) == (match take_flag(tail) {
            Some(fl) => Some(
                (
                    CompileRequestView {
                        profile: r.profile,
                        json: r.json,
                        images: r.images,
                        bindings: r.bindings,
                        policy: policy_of_flag(fl),
                    },
                    fl,
                ),
            ),
            None => None,
        }),
{
    let a = le_bytes(profile_code(r.profile));
    let b = text_bytes(r.json);
    let c = le_bytes(r.images.len() as u32);
    let d = images_bytes(r.images);
    let e = le_bytes(r.bindings.len() as u32);
    let f = bindings_bytes(r.bindings);
    assert(request_bytes(r, None) + tail =~= a + (b + (c + (d + (e + (f + tail))))));
    lemma_take_u32_enc(profile_code(r.profile), b + (c + (d + (e + (f + tail)))));
    lemma_take_text_enc(r.json, c + (d + (e + (f + tail))));
    lemma_take_u32_enc(r.images.len() as u32, d + (e + (f + tail)));
    lemma_take_images_enc(r.images, e + (f + tail));
    lemma_take_u32_enc(r.bindings.len() as u32, f + tail);
    lemma_take_bindings_enc(r.bindings, tail);
}

/// Bytes after a request that carries no flag leave no request at all,
/// unless they are exactly one four-byte flag: a single stray byte, or a
/// flag with anything after it, is refused.
pub proof fn trailing_bytes_are_refused(r: CompileRequestView, tail: Seq<u8>)
    requires
        request_well_formed(r),
        tail.len() != 0,
        tail.len() != 4,
    ensures
        forall|r2: CompileRequestView| !encodes(request_bytes(r, None) + tail, r2),
{
    reveal(take_u32);
    lemma_parse_request_tail(r, tail);
    assert(take_flag(tail) is None);
    assert forall|r2: CompileRequestView| !encodes(request_bytes(r, None) + tail, r2) by {
        if encodes(request_bytes(r, None) + tail, r2) {
            let flag = choose|flag: Option<u32>|
                policy_of_flag(flag) == r2.policy && #[trigger] request_bytes(r2, flag)
                    == request_bytes(r, None) + tail;
            lemma_parse_request_enc(r2, flag);
        }
    }
}

/// No proper prefix of a request that carries no flag is a request: a
/// truncated request is refused wherever it was cut.
pub proof fn proper_prefixes_are_refused(r: CompileRequestView, cut: int)
    requires
        request_well_formed(r),
        0 <= cut < request_bytes(r, None).len(),
    ensures
        forall|r2: CompileRequestView| !encodes(request_bytes(r, None).take(cut), r2),
{
    let full = request_bytes(r, None);
    let p = full.take(cut);
    let e = full.skip(cut);
    assert(full =~= p + e);
    lemma_parse_request_enc(CompileRequestView {
        profile: r.profile,
        json: r.json,
        images: r.images,
        bindings: r.bindings,
        policy: EmitPolicy::Strict,
    }, None);
    assert(request_bytes(CompileRequestView {
        profile: r.profile,
        json: r.json,
        images: r.images,
        bindings: r.bindings,
        policy: EmitPolicy::Strict,
    }, None) == full);
    assert forall|r2: CompileRequestView| !encodes(p, r2) by {
        if encodes(p, r2) {
            let flag2 = choose|flag: Option<u32>|
                policy_of_flag(flag) == r2.policy && #[trigger] request_bytes(r2, flag) == p;
            let t = flag_bytes(flag2) + e;
            assert(request_bytes(r2, flag2) =~= request_bytes(r2, None) + flag_bytes(flag2));
            assert(full =~= request_bytes(r2, None) + t);
            lemma_parse_request_tail(r2, t);
            assert(t.len() != 0);
        }
    }
}

/// Every request that can travel has an encoding under each trailing flag
/// that agrees with its policy, and that encoding decodes to it.
pub proof fn request_round_trip(r: CompileRequestView, flag: Option<u32>)
    requires
        request_well_formed(r),
        policy_of_flag(flag) == r.policy,
    ensures
        encodes(request_bytes(r, flag), r),
{
}

/// Appends `v` as four little-endian bytes.
fn push_u32_le(out: &mut Vec<u8>, v: u32)
    ensures
        final(out)@ == old(out)@ + le_bytes(v),
{
    reveal(byte_of);
    assert(byte_of(v, 0) == (v & 0xff) as u8) by (bit_vector);
    assert(byte_of(v, 1) == ((v >> 8u32) & 0xff) as u8) by (bit_vector);
    assert(byte_of(v, 2) == ((v >> 16u32) & 0xff) as u8) by (bit_vector);
    assert(byte_of(v, 3) == ((v >> 24u32) & 0xff) as u8) by (bit_vector);
    out.push((v & 0xff) as u8);
    out.push(((v >> 8u32) & 0xff) as u8);
    out.push(((v >> 16u32) & 0xff) as u8);
    out.push(((v >> 24u32) & 0xff) as u8);
    assert(final(out)@ =~= old(out)@ + le_bytes(v));
}

/// Appends `b`.
fn push_bytes(out: &mut Vec<u8>, b: &[u8])
    ensures
        final(out)@ == old(out)@ + b@,
{
    let mut i: usize = 0;
    while i < b.len()
        invariant
            i <= b@.len(),
            out@ == old(out)@ + b@.take(i as int),
        decreases b@.len() - i,
    {
        out.push(b[i]);
        i = i + 1;
        assert(out@ =~= old(out)@ + b@.take(i as int));
    }
    assert(b@.take(b@.len() as int) =~= b@);
}

/// Frames one response: a `u32` byte count, then the status, the blob and
/// the JSON. The count is what lets the caller release the buffer with one
/// `dashc_free(ptr, 4 + count)`.
pub fn encode_response(status: u32, blob: &[u8], json: &str) -> (out: Vec<u8>)
    requires
        fits(12 + blob@.len() + encode_utf8(json@).len()),
    ensures
        out@ == response_bytes(status, blob@, json@),
{
    let text = json.as_bytes();
    let body_len = 4 + 4 + blob.len() + 4 + text.len();
    let mut out: Vec<u8> = Vec::new();
    push_u32_le(&mut out, body_len as u32);
    push_u32_le(&mut out, status);
    push_u32_le(&mut out, blob.len() as u32);
    push_bytes(&mut out, blob);
    push_u32_le(&mut out, text.len() as u32);
    push_bytes(&mut out, text);
    assert(out@ =~= response_bytes(status, blob@, json@));
    out
}

/// A response's prefix counts everything after itself, and the status
/// follows it.
pub proof fn response_counts_its_tail(status: u32, blob: Seq<u8>, json: Seq<char>)
    requires
        fits(12 + blob.len() + encode_utf8(json).len()),
    ensures
        ({
            let b = response_bytes(status, blob, json);
            let k = blob.len() as int;
            &&& le_value(b[0], b[1], b[2], b[3]) == b.len() - 4
            &&& le_value(b[4], b[5], b[6], b[7]) == status
            &&& le_value(b[8], b[9], b[10], b[11]) == blob.len()
            &&& b.subrange(12, 12 + k) == blob
            &&& le_value(b[12 + k], b[13 + k], b[14 + k], b[15 + k]) == encode_utf8(json).len()
            &&& b.skip(16 + k) == encode_utf8(json)
        }),
{
    let n = (12 + blob.len() + encode_utf8(json).len()) as u32;
    lemma_le_round(n);
    lemma_le_round(status);
    lemma_le_round(blob.len() as u32);
    lemma_le_round(encode_utf8(json).len() as u32);
    let b = response_bytes(status, blob, json);
    let k = blob.len() as int;
    assert(b.subrange(12, 12 + k) =~= blob);
    assert(b.skip(16 + k) =~= encode_utf8(json));
}

} // verus!
