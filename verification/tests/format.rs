use ambient_engine::format::{
    escape_string, format_value, format_value_colored, format_value_display,
};
use ambient_engine::digest::Digest;
use ambient_engine::value::{Closure, EnumValue, HandlerValue, Number, SuspendedAbility, Value};

fn number(n: f64) -> Value {
    Value::Number(Number { bits: n.to_bits(), text: n.to_string() })
}

fn text(s: &str) -> Value {
    Value::String(s.to_string())
}

#[test]
fn test_format_plain_primitives() {
    assert_eq!(format_value(&Value::Unit), "()");
    assert_eq!(format_value(&Value::Bool(true)), "true");
    assert_eq!(format_value(&Value::Bool(false)), "false");
    assert_eq!(format_value(&number(42.0)), "42");
    assert_eq!(format_value(&number(3.14)), "3.14");
    assert_eq!(format_value(&text("hello")), "hello");
}

#[test]
fn test_format_display_primitives() {
    assert_eq!(format_value_display(&Value::Unit), "()");
    assert_eq!(format_value_display(&Value::Bool(true)), "true");
    assert_eq!(format_value_display(&text("hello")), "\"hello\"");
}

#[test]
fn test_format_string_escapes() {
    assert_eq!(format_value_display(&text("line1\nline2")), "\"line1\\nline2\"");
    assert_eq!(format_value_display(&text("tab\there")), "\"tab\\there\"");
    assert_eq!(format_value_display(&text("quote\"here")), "\"quote\\\"here\"");
}

#[test]
fn test_format_collections() {
    assert_eq!(
        format_value(&Value::list(vec![number(1.0), number(2.0), number(3.0)])),
        "[1, 2, 3]"
    );
    assert_eq!(
        format_value(&Value::tuple(vec![number(1.0), Value::Bool(true)])),
        "(1, true)"
    );
}

#[test]
fn test_colored_output_has_escape_codes() {
    let colored = format_value_colored(&number(42.0));
    assert!(colored.contains("\x1b["));
    assert!(colored.contains("42"));
    let colored = format_value_colored(&text("test"));
    assert!(colored.contains("\x1b[32m"));
    assert!(colored.contains("\"test\""));
}

#[test]
fn whole_numbers_have_no_fraction() {
    for n in [0.0, -0.0, 1.0, -7.0, 1e9, -999999999999999.0, 123456789.0] {
        assert_eq!(format_value(&number(n)), format!("{n:.0}"));
    }
    for n in [0.5, -2.25, 1e15, -1e15, 4503599627370496.0, 1e300, f64::INFINITY, 0.1] {
        assert_eq!(format_value(&number(n)), format!("{n}"));
    }
}

#[test]
fn entries_are_shown_in_order() {
    let a = Value::Record(vec![
        ("y".to_string(), number(2.0)),
        ("x".to_string(), number(1.0)),
    ]);
    let b = Value::Record(vec![
        ("x".to_string(), number(1.0)),
        ("y".to_string(), number(2.0)),
    ]);
    assert_eq!(format_value(&a), format_value(&b));
    assert_eq!(format_value(&a), "{ x: 1, y: 2 }");
    let m = Value::MapValue(vec![
        ("b".to_string(), text("two")),
        ("a".to_string(), text("one")),
    ]);
    assert_eq!(format_value_display(&m), "Map { a: \"one\", b: \"two\" }");
}

#[test]
fn values_without_a_literal_are_described() {
    let hash = Digest::of(b"f");
    let hex = hash.to_hex();
    assert_eq!(format_value(&Value::FunctionRef(hash)), format!("<fn {}>", &hex[..8]));
    let closure = Value::Closure(Closure { function_hash: hash, environment: vec![Value::Unit] });
    assert_eq!(format_value(&closure), format!("<closure {} [1 captures]>", &hex[..8]));
    let handler = Value::Handler(HandlerValue { ability_id: 3, methods: vec![hash, hash] });
    assert_eq!(format_value(&handler), "<handler #3 [2 methods]>");
    let ability = Value::SuspendedAbility(SuspendedAbility {
        ability_id: 1,
        method_id: 2,
        args: vec![],
    });
    assert_eq!(format_value(&ability), "<ability 1:2 with 0 args>");
    assert_eq!(format_value(&Value::Continuation), "<continuation>");
    let some = Value::Enum(EnumValue {
        enum_name: "Option".to_string(),
        variant_name: "Some".to_string(),
        payload: Some(Box::new(number(1.0))),
    });
    assert_eq!(format_value(&some), "Option::Some(1)");
    assert_eq!(format_value(&Value::SetValue(vec![number(2.0), number(1.0)])), "Set { 2, 1 }");
}

/// Text without the escape codes in it.
fn uncolored(s: &str) -> String {
    let chars: Vec<char> = s.chars().collect();
    let mut out = String::new();
    let mut i = 0;
    while i < chars.len() {
        let mut end = i + 2;
        while end < chars.len() && chars[end].is_ascii_digit() {
            end += 1;
        }
        let opens = chars[i] == '\x1b' && i + 1 < chars.len() && chars[i + 1] == '[';
        if opens && end < chars.len() && chars[end] == 'm' {
            i = end + 1;
        } else {
            out.push(chars[i]);
            i += 1;
        }
    }
    out
}

#[test]
fn colors_can_be_taken_away_from_what_is_shown() {
    let value = Value::tuple(vec![
        Value::Unit,
        Value::list(vec![number(1.5), number(-2.0), Value::Bool(false)]),
        text("a\x1b[0m\"b\n"),
        Value::Record(vec![
            ("y".to_string(), text("two")),
            ("x".to_string(), Value::FunctionRef(Digest::of(b"f"))),
        ]),
        Value::MapValue(vec![("k".to_string(), Value::Continuation)]),
        Value::SetValue(vec![]),
        Value::Enum(EnumValue {
            enum_name: "Option".to_string(),
            variant_name: "Some".to_string(),
            payload: Some(Box::new(text("in"))),
        }),
    ]);
    let colored = format_value_colored(&value);
    assert_ne!(colored, format_value_display(&value));
    assert_eq!(uncolored(&colored), format_value_display(&value));
}

/// A name that begins another comes before it with a colour code behind it, and
/// behind it with a colon.
#[test]
fn colors_can_change_the_order_of_entries() {
    let value = Value::Record(vec![
        ("a".to_string(), number(1.0)),
        ("a!".to_string(), number(2.0)),
    ]);
    assert_eq!(format_value_display(&value), "{ a!: 2, a: 1 }");
    assert_eq!(uncolored(&format_value_colored(&value)), "{ a: 1, a!: 2 }");
}

#[test]
fn different_text_is_shown_differently() {
    let all = ["", "n", "\n", "\\n", "\\\n", "\"", "\\\"", "\x01", "\\x01", "x01", "\u{9f}", "\u{7f}"];
    for (i, a) in all.iter().enumerate() {
        let shown = format_value_display(&text(a));
        assert!(!shown.chars().any(char::is_control));
        for b in &all[i + 1..] {
            assert_ne!(shown, format_value_display(&text(b)));
        }
    }
    assert_eq!(format_value_display(&text("\x01\\\"\r")), "\"\\x01\\\\\\\"\\r\"");
    assert_eq!(format_value_display(&text("plain text, ünchanged")), "\"plain text, ünchanged\"");
}

#[test]
fn text_is_escaped_character_by_character() {
    assert_eq!(escape_string("plain é"), "plain é");
    assert_eq!(escape_string("a\nb\rc\td"), "a\\nb\\rc\\td");
    assert_eq!(escape_string("\\ \""), "\\\\ \\\"");
    assert_eq!(escape_string("\u{1b}\u{7f}\u{9f}"), "\\x1b\\x7f\\x9f");
    assert_eq!(escape_string(""), "");
}
