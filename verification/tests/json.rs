use dashc::json::image_refs_json;

#[test]
fn image_refs_serialize_as_an_array() {
    assert_eq!(
        image_refs_json(&["a".to_string(), "b".to_string()]),
        r#"["a","b"]"#
    );
}

#[test]
fn no_image_refs_serialize_as_an_empty_array() {
    assert_eq!(image_refs_json(&[]), "[]");
}

#[test]
fn an_image_ref_needing_escapes_is_escaped() {
    assert_eq!(image_refs_json(&["a\"b\\c\n".to_string()]), r#"["a\"b\\c\n"]"#);
}

#[test]
fn a_control_character_is_written_as_a_unicode_escape() {
    assert_eq!(
        image_refs_json(&["x\u{1}y\u{1f}".to_string(), "\u{8}\u{c}\r\t".to_string()]),
        r#"["x\u0001y\u001f","\b\f\r\t"]"#
    );
}
