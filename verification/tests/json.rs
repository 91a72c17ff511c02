use ush::json::{escape_json_string, parse_exec_result, parse_json_string, parse_json_value, JsonValue};

#[test]
fn test_escape_json_string() {
    assert_eq!(escape_json_string("hello"), "\"hello\"");
    assert_eq!(escape_json_string("he\"llo"), "\"he\\\"llo\"");
    assert_eq!(escape_json_string("he\nllo"), "\"he\\nllo\"");
}

#[test]
fn escape_control_characters_as_unicode() {
    assert_eq!(escape_json_string("a\u{1}b\\"), "\"a\\u0001b\\\\\"");
    assert_eq!(escape_json_string("tab\there\r"), "\"tab\\there\\r\"");
    assert_eq!(escape_json_string("µ"), "\"µ\"");
}

#[test]
fn test_parse_surrogate_pairs() {
    let (v, _) = parse_json_value("\"\\uD83D\\uDE00\"").unwrap();
    assert_eq!(v.as_str().unwrap(), "\u{1F600}");

    let (v, _) = parse_json_value("\"\\uD83D\\uDCA9\"").unwrap();
    assert_eq!(v.as_str().unwrap(), "\u{1F4A9}");

    let (v, _) = parse_json_value("\"\\u0041\"").unwrap();
    assert_eq!(v.as_str().unwrap(), "A");
}

#[test]
fn test_parse_json_value() {
    let (v, _) = parse_json_value("\"hello\"").unwrap();
    assert_eq!(v.as_str().unwrap(), "hello");

    let (v, _) = parse_json_value("42").unwrap();
    match v {
        JsonValue::Number(ref t) => {
            assert_eq!(t, "42");
            assert_eq!(t.parse::<f64>().unwrap() as i32, 42);
        },
        _ => panic!("expected number"),
    }

    let (v, _) = parse_json_value("{\"a\":1,\"b\":\"c\"}").unwrap();
    if let JsonValue::Object(fields) = v {
        assert_eq!(fields.len(), 2);
    } else {
        panic!("expected object");
    }
}

#[test]
fn parse_json_value_returns_the_rest() {
    let (v, rest) = parse_json_value("  null , 1").unwrap();
    assert!(matches!(v, JsonValue::Null));
    assert_eq!(rest, " , 1");
    let (v, rest) = parse_json_value("[1, \"x\", [], {}]tail").unwrap();
    assert_eq!(rest, "tail");
    match v {
        JsonValue::Array(items) => {
            assert_eq!(items.len(), 4);
            assert!(matches!(&items[0], JsonValue::Number(t) if t == "1"));
            assert_eq!(items[1].as_str(), Some("x"));
            assert!(matches!(&items[2], JsonValue::Array(a) if a.is_empty()));
            assert!(matches!(&items[3], JsonValue::Object(f) if f.is_empty()));
        },
        _ => panic!("expected array"),
    }
}

#[test]
fn parse_json_value_numbers_follow_f64_syntax() {
    for ok in ["-1.5e3", "1.", ".5", "+2", "inf", "-Infinity", "NaN", "1E+2"] {
        let (v, rest) = parse_json_value(ok).unwrap();
        assert!(matches!(v, JsonValue::Number(ref t) if t == ok), "{}", ok);
        assert_eq!(rest, "");
        assert!(ok.parse::<f64>().is_ok());
    }
    for bad in ["1.2.3", ".", "e5", "1e", "-", "12ab", "nul"] {
        assert!(parse_json_value(bad).is_none(), "{}", bad);
        assert!(bad == "nul" || bad.parse::<f64>().is_err());
    }
}

#[test]
fn parse_json_value_rejects_malformed_containers() {
    assert!(parse_json_value("").is_none());
    assert!(parse_json_value("   ").is_none());
    assert!(parse_json_value("{\"a\" 1}").is_none());
    assert!(parse_json_value("{\"a\":1 \"b\":2}").is_none());
    assert!(parse_json_value("[1 2]").is_none());
    assert!(parse_json_value("[1,").is_none());
    assert!(parse_json_value("{1:2}").is_none());
}

#[test]
fn parse_json_string_reads_escapes() {
    let (s, rest) = parse_json_string(" \"a\\tb\\/c\" x").unwrap();
    assert_eq!(s, "a\tb/c");
    assert_eq!(rest, " x");
    assert!(parse_json_string("\"unterminated").is_none());
    assert!(parse_json_string("\"bad \\q escape\"").is_none());
    let (s, _) = parse_json_string("\"\\uD83D alone\"").unwrap();
    assert_eq!(s, " alone");
}

#[test]
fn escape_then_parse_gives_back_the_text() {
    for s in ["", "plain", "q\"uote", "back\\slash", "nl\n\r\t", "\u{1}\u{1f}", "é€😀"] {
        let quoted = escape_json_string(s);
        let (back, rest) = parse_json_string(&quoted).unwrap();
        assert_eq!(back, s);
        assert_eq!(rest, "");
        let (v, _) = parse_json_value(&quoted).unwrap();
        assert_eq!(v.as_str(), Some(s));
    }
}

#[test]
fn parse_exec_result_keeps_last_value_per_key() {
    let (v, _) = parse_json_value("{\"target\":\"a\",\"exit_status\":1,\"target\":\"b\"}").unwrap();
    let fields = parse_exec_result(&v).unwrap();
    assert_eq!(fields.len(), 2);
    assert_eq!(fields[0].0, "exit_status");
    assert_eq!(fields[1].0, "target");
    assert_eq!(fields[1].1.as_str(), Some("b"));
    let (n, _) = parse_json_value("7").unwrap();
    assert!(parse_exec_result(&n).is_none());
}
