use dreki::debug_text::{compact_preview, parse_debug_fields, parse_one_field};

fn pairs(v: Vec<(String, String)>) -> Vec<(String, String)> {
    v
}

#[test]
fn parses_named_fields() {
    let fields = parse_debug_fields("Position { x: 1.0, y: 2.0 }");
    assert_eq!(
        pairs(fields),
        vec![("x".to_string(), "1.0".to_string()), ("y".to_string(), "2.0".to_string())]
    );
}

#[test]
fn nested_values_stay_whole() {
    let fields = parse_debug_fields("Sprite { color: Color { r: 1, g: 0 }, size: (2, 3), tags: [a, b] }");
    assert_eq!(fields.len(), 3);
    assert_eq!(fields[0], ("color".to_string(), "Color { r: 1, g: 0 }".to_string()));
    assert_eq!(fields[1], ("size".to_string(), "(2, 3)".to_string()));
    assert_eq!(fields[2], ("tags".to_string(), "[a, b]".to_string()));
}

#[test]
fn non_struct_texts_give_nothing() {
    assert!(parse_debug_fields("Health(10)").is_empty());
    assert!(parse_debug_fields("42").is_empty());
    assert!(parse_debug_fields("Marker").is_empty());
    assert!(parse_debug_fields("Empty {}").is_empty());
    assert!(parse_debug_fields("Open { a: 1").is_empty());
}

#[test]
fn trailing_whitespace_and_comma() {
    let fields = parse_debug_fields("P { a: 1, }  ");
    assert_eq!(fields, vec![("a".to_string(), "1".to_string())]);
}

#[test]
fn one_field() {
    assert_eq!(parse_one_field(" name : value "), Some(("name".to_string(), "value".to_string())));
    assert_eq!(parse_one_field("a b: 1"), None);
    assert_eq!(parse_one_field(": 1"), None);
    assert_eq!(parse_one_field("no colon"), None);
    assert_eq!(parse_one_field("m: (a: b)"), Some(("m".to_string(), "(a: b)".to_string())));
    assert_eq!(parse_one_field("(a: b): c"), None);
}

#[test]
fn previews() {
    assert_eq!(compact_preview("Position { x: 1.0, y: 2.0 }", 100), "{ x: 1.0, y: 2.0 }");
    assert_eq!(compact_preview("Position { x: 1.0, y: 2.0 }", 5), "{ x: \u{2026}");
    assert_eq!(compact_preview("Health(10)", 20), "Health(10)");
    assert_eq!(compact_preview("Health(10)", 6), "Health\u{2026}");
    assert_eq!(compact_preview("", 0), "");
    assert_eq!(compact_preview("Name { x: \u{e9}\u{e9}\u{e9} }", 6), "{ x: \u{e9}\u{2026}");
}
