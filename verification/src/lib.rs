//! dashc: the dashscene compiler's verified core.
//!
//! The wasm ABI's wire format (`wire`) and the JSON it carries (`json`); the
//! in-memory document's pools (`document`, and the plain node-and-image
//! document `dsb`) and the shapes findings are written in (`diagnostics`);
//! the Figma front end's decisions on a file (`figma`), its triage of
//! out-of-profile constructs (`triage`), the lowering walk itself (`lower`),
//! its per-node verdicts (`walk`), fill lowering (`paints`) and paint
//! entries (`lowering`), its prototype
//! interactions (`prototype`), where a variant switch travels and what a
//! switch can put on screen (`hosts`), the transitions a variant table
//! declares (`tweens`), the echo collapse of repeated findings (`echo`) and
//! the variable-binding rows (`bindings`), how a component set's members
//! line up (`members`) and what they may not differ in (`structure`), and
//! what withholds a document's bytes before they are written (`emission`)
//! and the pools they share entries through (`pools`);
//! vector path tokens and refusals (`vector`), the path grammar over them
//! (`path`) and the vector atlas shelf packer (`pack`). `text` and `seqs`
//! hold the string and sequence building blocks.
use vstd::prelude::*;

pub mod bindings;
pub mod diagnostics;
pub mod document;
pub mod dsb;
pub mod echo;
pub mod emission;
pub mod figma;
pub mod hosts;
pub mod json;
pub mod lower;
pub mod lowering;
pub mod members;
pub mod pack;
pub mod pools;
pub mod paints;
pub mod path;
pub mod prototype;
pub mod seqs;
pub mod structure;
pub mod text;
pub mod triage;
pub mod tweens;
pub mod variants;
pub mod vector;
pub mod walk;
pub mod wire;

verus! {

/// How the Figma front end treats a construct the document cannot express.
#[derive(Clone, Copy, Debug, PartialEq, Eq, Structural)]
pub enum EmitPolicy {
    /// All-or-nothing: any vocabulary gap refuses the whole file.
    Strict,
    /// Skip an unsupported node with a warning, still emit. Never
    /// approximates: a construct that could only ship approximately still
    /// refuses.
    Partial,
}

} // verus!
