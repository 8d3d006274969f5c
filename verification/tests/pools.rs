use dashc::document::{Color, Document, FillKind, Node, Paint, TextAlign, TextAlignV, TextStyle};
use dashc::pools::pools;

fn solid(r: f32) -> Paint {
    Paint {
        fill: Some(FillKind::Solid(Color { r: r.to_bits(), g: 0, b: 0, a: 1.0f32.to_bits() })),
        clip: false,
        shape_field: None,
    }
}

fn style(size: f32) -> TextStyle {
    TextStyle {
        family: "Inter".to_string(),
        size: size.to_bits(),
        weight: 400,
        color: Color { r: 0, g: 0, b: 0, a: 1.0f32.to_bits() },
        line_height_px: None,
        letter_spacing: 0,
        text_align: TextAlign::Left,
        text_align_v: TextAlignV::Top,
        ligatures_off: false,
    }
}

fn node(paint: Option<Paint>, text: Option<&str>, text_style: Option<TextStyle>) -> Node {
    let mut n = Node::default();
    n.paint = paint;
    n.text = text.map(str::to_string);
    n.text_style = text_style;
    n
}

#[test]
fn pools_intern_in_first_use_order() {
    let mut doc = Document::new();
    doc.push(node(Some(solid(1.0)), None, None));
    doc.push(node(None, Some("Buy"), Some(style(14.0))));
    doc.push(node(Some(solid(0.5)), Some("Sell"), Some(style(14.0))));
    doc.push(node(Some(solid(1.0)), Some("Buy"), Some(style(16.0))));
    let mut clipped = solid(1.0);
    clipped.clip = true;
    doc.push(node(Some(clipped), None, None));

    let p = pools(&doc);
    assert_eq!(p.paints, vec![0, 2, 4]);
    assert_eq!(p.paint_of, vec![Some(0), None, Some(1), Some(0), Some(2)]);
    assert_eq!(p.strings, vec![1, 2]);
    assert_eq!(p.string_of, vec![None, Some(0), Some(1), Some(0), None]);
    assert_eq!(p.styles, vec![1, 3]);
    assert_eq!(p.style_of, vec![None, Some(0), Some(0), Some(1), None]);
}

#[test]
fn an_empty_document_pools_nothing() {
    let p = pools(&Document::new());
    assert!(p.paints.is_empty() && p.strings.is_empty() && p.styles.is_empty());
    assert!(p.paint_of.is_empty() && p.string_of.is_empty() && p.style_of.is_empty());
}
