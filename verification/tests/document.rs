use dashc::document::{Asset, AssetKind, Document, Node, OPAQUE};
use dashc::pack::{round_up_4, shelf_pack, AtlasRectU, FieldExtent, ATLAS_GUTTER};
use dashc::wire::ImageFormat;

fn asset(bytes: &[u8]) -> Asset {
    Asset {
        format: ImageFormat::Png,
        kind: AssetKind::Image,
        bytes: bytes.to_vec(),
        width: 1,
        height: 1,
    }
}

#[test]
fn pushing_the_same_payload_twice_returns_the_first_index() {
    let mut doc = Document::new();
    assert_eq!(doc.push_asset(asset(&[1, 2, 3])), 0);
    assert_eq!(doc.push_asset(asset(&[4, 5])), 1);
    assert_eq!(doc.push_asset(asset(&[1, 2, 3])), 0);
    assert_eq!(doc.assets.len(), 2);
}

#[test]
fn the_asset_hash_is_blake3() {
    let a = asset(b"abc");
    let expected: [u8; 32] = blake3::hash(b"abc").into();
    assert_eq!(a.hash(), expected);
    assert_ne!(a.hash(), asset(b"abd").hash());
}

#[test]
fn nodes_append_in_order() {
    let mut doc = Document::new();
    assert_eq!(doc.push(Node::default()), 0);
    assert_eq!(doc.push(Node::default()), 1);
    assert_eq!(doc.nodes[1].opacity, OPAQUE);
    assert_eq!(OPAQUE, 1.0f32.to_bits());
    assert!(doc.nodes[0].visible && !doc.nodes[0].mask);
}

#[test]
fn round_up_4_rounds_to_the_next_multiple() {
    assert_eq!(round_up_4(0), 0);
    assert_eq!(round_up_4(1), 4);
    assert_eq!(round_up_4(12), 12);
    assert_eq!(round_up_4(13), 16);
}

#[test]
fn an_empty_bake_packs_nothing() {
    assert_eq!(shelf_pack(&[]), (0, 0, vec![]));
}

#[test]
fn one_field_packs_inside_its_gutters() {
    let (w, h, rects) = shelf_pack(&[FieldExtent { width: 10, height: 10 }]);
    assert_eq!((w, h), (12, 12));
    assert_eq!(rects, vec![AtlasRectU { x: ATLAS_GUTTER, y: ATLAS_GUTTER, width: 10, height: 10 }]);
}

#[test]
fn fields_fill_a_shelf_then_open_the_next() {
    let fields = [
        FieldExtent { width: 20, height: 20 },
        FieldExtent { width: 40, height: 40 },
        FieldExtent { width: 60, height: 30 },
    ];
    let (w, h, rects) = shelf_pack(&fields);
    assert_eq!((w, h), (64, 76));
    assert_eq!(
        rects,
        vec![
            AtlasRectU { x: 1, y: 1, width: 20, height: 20 },
            AtlasRectU { x: 22, y: 1, width: 40, height: 40 },
            AtlasRectU { x: 1, y: 42, width: 60, height: 30 },
        ]
    );
    for (i, a) in rects.iter().enumerate() {
        assert!(a.x + a.width + ATLAS_GUTTER <= w && a.y + a.height + ATLAS_GUTTER <= h);
        for b in &rects[i + 1..] {
            let apart = a.x + a.width + ATLAS_GUTTER <= b.x
                || b.x + b.width + ATLAS_GUTTER <= a.x
                || a.y + a.height + ATLAS_GUTTER <= b.y
                || b.y + b.height + ATLAS_GUTTER <= a.y;
            assert!(apart, "{a:?} and {b:?} overlap");
        }
    }
}

#[test]
fn a_wide_field_widens_the_sheet() {
    let (w, _, rects) = shelf_pack(&[FieldExtent { width: 100, height: 2 }]);
    assert_eq!(w, 104);
    assert_eq!(rects[0].x, 1);
}

#[test]
fn packer_places_shapes_without_overlap() {
    // Five distinct fields at different sizes.
    let fields: Vec<FieldExtent> =
        [20u32, 40, 60, 30, 80].iter().map(|&s| FieldExtent { width: s, height: s }).collect();
    let (w, h, rects) = shelf_pack(&fields);
    assert_eq!(rects.len(), 5);
    for r in &rects {
        assert!(r.x + r.width <= w, "rect within atlas width");
        assert!(r.y + r.height <= h, "rect within atlas height");
    }
    for (i, a) in rects.iter().enumerate() {
        for b in rects.iter().skip(i + 1) {
            let disjoint =
                a.x + a.width <= b.x || b.x + b.width <= a.x || a.y + a.height <= b.y || b.y + b.height <= a.y;
            assert!(disjoint, "packed rects must not overlap: {a:?} vs {b:?}");
        }
    }
}

#[test]
fn the_checked_packer_packs_many_small_fields_and_refuses_only_what_leaves_u32() {
    let many = vec![FieldExtent { width: 2, height: 3 }; 20_000];
    let (w, h, rects) = dashc::pack::try_shelf_pack(&many).expect("small fields pack");
    assert_eq!(rects.len(), 20_000);
    assert_eq!((w, h, rects.clone()), shelf_pack(&many));
    assert_eq!(rects[0], AtlasRectU { x: 1, y: 1, width: 2, height: 3 });
    let huge = [FieldExtent { width: u32::MAX - 4, height: 1 }];
    assert!(dashc::pack::try_shelf_pack(&huge).is_none());
    assert!(dashc::pack::try_shelf_pack(&[]).is_some());
}
