//! What refuses a document before it is written: a binding whose transform
//! is a producer-side closure, which does not serialize, and an asset with
//! no payload, which no section can hold. Each is named by position, and
//! either kind of finding withholds the bytes.
use vstd::prelude::*;

use crate::diagnostics::{diagnostics_view, Diagnostic, DiagnosticView, Location, LocationView, Severity};
use crate::document::{Asset, Binding, BindingTransform, Document};
use crate::text::{decimal, push_decimal, push_str, string_of};

verus! {

/// A binding carries a `Custom` transform.
pub const CUSTOM_TRANSFORM: &'static str = "binding.custom-transform";

/// An asset carries no bytes.
pub const IMAGE_NO_BYTES: &'static str = "asset.image-no-bytes";

pub open spec fn custom_text(i: nat, id: u32) -> Seq<char> {
    "binding "@ + decimal(i) + " carries a Custom transform (closure "@ + decimal(id as nat)
        + "), which does not serialize; keep Custom bindings producer-side or use the declarative vocabulary (Identity, Scale, MapRange, Clamp)"@
}

/// The refusal of each binding among `bs` with a `Custom` transform, in
/// order.
pub open spec fn custom_findings(bs: Seq<Binding>) -> Seq<DiagnosticView>
    decreases bs.len(),
{
    if bs.len() == 0 {
        seq![]
    } else {
        let i = bs.len() - 1;
        custom_findings(bs.drop_last()) + match bs.last().transform {
            BindingTransform::Custom(id) => seq![
                DiagnosticView {
                    rule: CUSTOM_TRANSFORM@,
                    severity: Severity::Error,
                    at: LocationView::Binding(i as u32),
                    message: custom_text(i as nat, id),
                },
            ],
            _ => seq![],
        }
    }
}

pub open spec fn no_bytes_text() -> Seq<char> {
    "asset carries no bytes; a painter cannot decode it, and the file format                       has no empty section"@
}

/// The refusal of each asset among `assets` with an empty payload, in
/// order.
pub open spec fn empty_asset_findings(assets: Seq<Asset>) -> Seq<DiagnosticView>
    decreases assets.len(),
{
    if assets.len() == 0 {
        seq![]
    } else {
        let i = assets.len() - 1;
        empty_asset_findings(assets.drop_last()) + if assets.last().bytes@.len() == 0 {
            seq![
                DiagnosticView {
                    rule: IMAGE_NO_BYTES@,
                    severity: Severity::Error,
                    at: LocationView::ImageAsset(i as u32),
                    message: no_bytes_text(),
                },
            ]
        } else {
            seq![]
        }
    }
}

fn custom_exec(bindings: &Vec<Binding>) -> (out: Vec<Diagnostic>)
    ensures
        diagnostics_view(out@) == custom_findings(bindings@),
{
    let mut out: Vec<Diagnostic> = Vec::new();
    let mut i: usize = 0;
    proof {
        assert(bindings@.take(0) =~= Seq::<Binding>::empty());
        assert(diagnostics_view(out@) =~= Seq::<DiagnosticView>::empty());
    }
    while i < bindings.len()
        invariant
            i <= bindings@.len(),
            diagnostics_view(out@) == custom_findings(bindings@.take(i as int)),
        decreases bindings@.len() - i,
    {
        let ghost before = out@;
        proof {
            assert(bindings@.take(i + 1).drop_last() =~= bindings@.take(i as int));
            assert(bindings@.take(i + 1).last() == bindings@[i as int]);
        }
        match bindings[i].transform {
            BindingTransform::Custom(id) => {
                let mut message = string_of("binding ");
                push_decimal(&mut message, i as u64);
                push_str(&mut message, " carries a Custom transform (closure ");
                push_decimal(&mut message, id as u64);
                push_str(
                    &mut message,
                    "), which does not serialize; keep Custom bindings producer-side or use the declarative vocabulary (Identity, Scale, MapRange, Clamp)",
                );
                out.push(
                    Diagnostic {
                        rule: CUSTOM_TRANSFORM,
                        severity: Severity::Error,
                        at: Location::Binding(i as u32),
                        message,
                    },
                );
                proof {
                    assert(diagnostics_view(out@) =~= diagnostics_view(before) + seq![out@[before.len() as int]@]);
                }
            },
            _ => {
                proof {
                    assert(diagnostics_view(before) + Seq::<DiagnosticView>::empty() =~= diagnostics_view(before));
                }
            },
        }
        i = i + 1;
    }
    proof {
        assert(bindings@.take(i as int) =~= bindings@);
    }
    out
}

fn empty_assets_exec(assets: &Vec<Asset>) -> (out: Vec<Diagnostic>)
    ensures
        diagnostics_view(out@) == empty_asset_findings(assets@),
{
    let mut out: Vec<Diagnostic> = Vec::new();
    let mut i: usize = 0;
    proof {
        assert(assets@.take(0) =~= Seq::<Asset>::empty());
        assert(diagnostics_view(out@) =~= Seq::<DiagnosticView>::empty());
    }
    while i < assets.len()
        invariant
            i <= assets@.len(),
            diagnostics_view(out@) == empty_asset_findings(assets@.take(i as int)),
        decreases assets@.len() - i,
    {
        let ghost before = out@;
        proof {
            assert(assets@.take(i + 1).drop_last() =~= assets@.take(i as int));
            assert(assets@.take(i + 1).last() == assets@[i as int]);
        }
        if assets[i].bytes.len() == 0 {
            out.push(
                Diagnostic {
                    rule: IMAGE_NO_BYTES,
                    severity: Severity::Error,
                    at: Location::ImageAsset(i as u32),
                    message: string_of(
                        "asset carries no bytes; a painter cannot decode it, and the file format                       has no empty section",
                    ),
                },
            );
            proof {
                assert(diagnostics_view(out@) =~= diagnostics_view(before) + seq![out@[before.len() as int]@]);
            }
        } else {
            proof {
                assert(diagnostics_view(before) + Seq::<DiagnosticView>::empty() =~= diagnostics_view(before));
            }
        }
        i = i + 1;
    }
    proof {
        assert(assets@.take(i as int) =~= assets@);
    }
    out
}

/// What withholds `doc`'s bytes before they are written: every binding
/// with a `Custom` transform when there is one; otherwise every asset with
/// no payload when there is one; otherwise nothing, and the document may be
/// written.
pub fn refusals(doc: &Document) -> (r: Option<Vec<Diagnostic>>)
    ensures
        match r {
            Some(ds) => {
                if custom_findings(doc.bindings@).len() > 0 {
                    diagnostics_view(ds@) == custom_findings(doc.bindings@)
                } else {
                    &&& empty_asset_findings(doc.assets@).len() > 0
                    &&& diagnostics_view(ds@) == empty_asset_findings(doc.assets@)
                }
            },
            None => custom_findings(doc.bindings@).len() == 0 && empty_asset_findings(doc.assets@).len() == 0,
        },
{
    let custom = custom_exec(&doc.bindings);
    if custom.len() > 0 {
        return Some(custom);
    }
    let empty = empty_assets_exec(&doc.assets);
    if empty.len() > 0 {
        return Some(empty);
    }
    None
}

} // verus!
