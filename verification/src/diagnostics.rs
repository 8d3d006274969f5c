//! The shapes a verdict about a document is written in: a severity, a
//! location, a rule and a message, and the profile a build targets.
use vstd::prelude::*;

verus! {

/// The capability profile a document is validated against.
#[derive(Clone, Copy, Debug, PartialEq, Eq, Structural)]
pub enum Profile {
    Core,
    Full,
}

/// How much a finding weighs: an error blocks emission, a warning rides
/// back with the bytes.
#[derive(Clone, Copy, Debug, PartialEq, Eq, Structural)]
pub enum Severity {
    Warning,
    Error,
}

/// A node of the document, by rect-table index and by its name path.
#[derive(Clone, Debug)]
pub struct NodePath {
    pub index: u32,
    pub path: String,
}

/// Where a finding sits: a node, or an entry of one of the pools a node
/// references by index.
#[derive(Clone, Debug)]
pub enum Location {
    Node(NodePath),
    PaintEntry(u32),
    ImageAsset(u32),
    VariantSet(u32),
    TextStyle(u32),
    Signal(u32),
    Binding(u32),
}

/// One finding: the rule that raised it, how much it weighs, where it sits,
/// and the sentence that explains it.
#[derive(Clone, Debug)]
pub struct Diagnostic {
    pub rule: &'static str,
    pub severity: Severity,
    pub at: Location,
    pub message: String,
}

/// The out-of-profile constructs the import gate triages.
#[derive(Clone, Copy, Debug, PartialEq, Eq, Structural)]
pub enum Construct {
    NoiseOrTextureEffect,
    ProgressiveBlur,
    LayerBlur,
    BackdropBlur,
    AdvancedBlendMode,
    CornerSmoothing,
}

impl NodePath {
    /// A node path at `index`.
    pub fn new(index: u32, path: String) -> (p: NodePath)
        ensures
            p.index == index,
            p.path@ == path@,
    {
        NodePath { index, path }
    }
}

/// A location by value: a node by index and name path, or a pool entry.
pub enum LocationView {
    Node(u32, Seq<char>),
    PaintEntry(u32),
    ImageAsset(u32),
    VariantSet(u32),
    TextStyle(u32),
    Signal(u32),
    Binding(u32),
}

impl View for Location {
    type V = LocationView;

    open spec fn view(&self) -> LocationView {
        match self {
            Location::Node(p) => LocationView::Node(p.index, p.path@),
            Location::PaintEntry(i) => LocationView::PaintEntry(*i),
            Location::ImageAsset(i) => LocationView::ImageAsset(*i),
            Location::VariantSet(i) => LocationView::VariantSet(*i),
            Location::TextStyle(i) => LocationView::TextStyle(*i),
            Location::Signal(i) => LocationView::Signal(*i),
            Location::Binding(i) => LocationView::Binding(*i),
        }
    }
}

/// A finding by value.
pub struct DiagnosticView {
    pub rule: Seq<char>,
    pub severity: Severity,
    pub at: LocationView,
    pub message: Seq<char>,
}

impl View for Diagnostic {
    type V = DiagnosticView;

    open spec fn view(&self) -> DiagnosticView {
        DiagnosticView { rule: self.rule@, severity: self.severity, at: self.at@, message: self.message@ }
    }
}

/// Findings by value, in order.
pub open spec fn diagnostics_view(ds: Seq<Diagnostic>) -> Seq<DiagnosticView> {
    ds.map_values(|d: Diagnostic| d@)
}

} // verus!
