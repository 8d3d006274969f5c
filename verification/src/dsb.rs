//! The plain in-memory document: a flattened DFS node list and the image
//! assets its fills reference by index, with no layout, binding or vector
//! pools.
use vstd::prelude::*;

use crate::document::{Box2D, FillKind};
use crate::wire::ImageAsset;

verus! {

/// A node's style: its bottom fill, and the clip intent pooled with it.
#[derive(Clone, Copy, Debug, PartialEq, Eq, Structural)]
pub struct Paint {
    pub fill: Option<FillKind>,
    pub clip: bool,
}

/// One node of the document. `parent` is an index into `Dsb::nodes`, and
/// the array is in DFS order, so a parent's index is below its children's.
#[derive(Clone, Debug)]
pub struct DsbNode {
    pub name: Option<String>,
    pub parent: Option<u32>,
    pub box2d: Box2D,
    /// `None` draws nothing: a layout-only container.
    pub paint: Option<Paint>,
}

/// One document, ready to emit.
#[derive(Clone, Debug)]
pub struct Dsb {
    pub nodes: Vec<DsbNode>,
    pub images: Vec<ImageAsset>,
}

impl Dsb {
    /// An empty document.
    pub fn new() -> (d: Self)
        ensures
            d.nodes@.len() == 0,
            d.images@.len() == 0,
    {
        Dsb { nodes: Vec::new(), images: Vec::new() }
    }

    /// Appends a node and returns its index. The caller appends in DFS
    /// order.
    pub fn push(&mut self, node: DsbNode) -> (index: u32)
        requires
            old(self).nodes@.len() < u32::MAX,
        ensures
            index == old(self).nodes@.len(),
            final(self).nodes@ == old(self).nodes@.push(node),
            final(self).images@ == old(self).images@,
    {
        let index = self.nodes.len() as u32;
        self.nodes.push(node);
        index
    }

    /// Appends an image asset and returns its index. Unlike the document's
    /// content-addressed pool, every call appends.
    pub fn push_image(&mut self, asset: ImageAsset) -> (index: u32)
        requires
            old(self).images@.len() < u32::MAX,
        ensures
            index == old(self).images@.len(),
            final(self).images@ == old(self).images@.push(asset),
            final(self).nodes@ == old(self).nodes@,
    {
        let index = self.images.len() as u32;
        self.images.push(asset);
        index
    }
}

} // verus!
