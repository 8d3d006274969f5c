use dashc::document::{Box2D, FillKind};
use dashc::dsb::{Dsb, DsbNode, Paint};
use dashc::wire::{ImageAsset, ImageFormat};

fn node(parent: Option<u32>) -> DsbNode {
    DsbNode {
        name: None,
        parent,
        box2d: Box2D { x: 0, y: 0, width: 0, height: 0 },
        paint: Some(Paint { fill: Some(FillKind::Image(0)), clip: false }),
    }
}

#[test]
fn nodes_and_images_append_in_order() {
    let mut dsb = Dsb::new();
    assert_eq!(dsb.push(node(None)), 0);
    assert_eq!(dsb.push(node(Some(0))), 1);
    assert_eq!(dsb.nodes[1].parent, Some(0));
    let asset = ImageAsset { format: ImageFormat::Png, bytes: vec![1, 2] };
    assert_eq!(dsb.push_image(asset.clone()), 0);
    // Every call appends, even for the same bytes.
    assert_eq!(dsb.push_image(asset), 1);
    assert_eq!(dsb.images.len(), 2);
}
