use fleur_lib::json::JsonValue;

fn obj(pairs: Vec<(&str, JsonValue)>) -> JsonValue {
    let mut fields: Vec<(String, JsonValue)> = Vec::new();
    for (k, v) in pairs {
        fields.push((k.to_string(), v));
    }
    JsonValue::Obj(fields)
}

#[test]
fn test_parse_simple_document() {
    let doc = fleur_lib::json::parse_json("{\n  \"mcpServers\": {}\n}").unwrap();
    let expected = obj(vec![("mcpServers", obj(vec![]))]);
    assert_eq!(doc, expected);
}

#[test]
fn test_parse_values() {
    assert_eq!(fleur_lib::json::parse_json("null").unwrap(), JsonValue::Null);
    assert_eq!(fleur_lib::json::parse_json("true").unwrap(), JsonValue::Bool(true));
    assert_eq!(fleur_lib::json::parse_json("false").unwrap(), JsonValue::Bool(false));
    assert_eq!(fleur_lib::json::parse_json(" 42 ").unwrap(), JsonValue::Int(42));
    assert_eq!(fleur_lib::json::parse_json("-7").unwrap(), JsonValue::Int(-7));
    assert_eq!(
        fleur_lib::json::parse_json("9223372036854775807").unwrap(),
        JsonValue::Int(i64::MAX)
    );
    assert_eq!(
        fleur_lib::json::parse_json("-9223372036854775808").unwrap(),
        JsonValue::Int(i64::MIN)
    );
    assert_eq!(
        fleur_lib::json::parse_json("\"hi\"").unwrap(),
        JsonValue::Str("hi".to_string())
    );
    assert_eq!(
        fleur_lib::json::parse_json("[1, 2]").unwrap(),
        JsonValue::Arr(vec![JsonValue::Int(1), JsonValue::Int(2)])
    );
}

#[test]
fn test_parse_escapes() {
    assert_eq!(
        fleur_lib::json::parse_json("\"a\\n\\t\\\"b\\\\c\\u0041\"").unwrap(),
        JsonValue::Str("a\n\t\"b\\cA".to_string())
    );
}

#[test]
fn test_parse_rejects_malformed() {
    assert!(fleur_lib::json::parse_json("").is_none());
    assert!(fleur_lib::json::parse_json("{").is_none());
    assert!(fleur_lib::json::parse_json("{\"a\": }").is_none());
    assert!(fleur_lib::json::parse_json("[1,]").is_none());
    assert!(fleur_lib::json::parse_json("nul").is_none());
    assert!(fleur_lib::json::parse_json("{} extra").is_none());
    // Malformed number lexemes are refused.
    assert!(fleur_lib::json::parse_json("+1").is_none());
    assert!(fleur_lib::json::parse_json("1.").is_none());
    assert!(fleur_lib::json::parse_json("1..5").is_none());
    assert!(fleur_lib::json::parse_json("1e").is_none());
    assert!(fleur_lib::json::parse_json("-").is_none());
}

#[test]
fn test_uninterpreted_numbers_are_carried_verbatim() {
    // Fractional, exponent and out-of-range numbers are not interpreted;
    // their lexemes are kept and written back exactly.
    assert_eq!(
        fleur_lib::json::parse_json("1.5").unwrap(),
        JsonValue::NumLit("1.5".to_string())
    );
    assert_eq!(
        fleur_lib::json::parse_json("-2.75e-10").unwrap(),
        JsonValue::NumLit("-2.75e-10".to_string())
    );
    assert_eq!(
        fleur_lib::json::parse_json("9223372036854775808").unwrap(),
        JsonValue::NumLit("9223372036854775808".to_string())
    );
    let doc = fleur_lib::json::parse_json(
        "{\"mcpServers\": {}, \"ratio\": 0.25, \"big\": 18446744073709551616}",
    )
    .unwrap();
    let rendered = doc.to_pretty_string();
    assert!(rendered.contains("0.25"));
    assert!(rendered.contains("18446744073709551616"));
    let back = fleur_lib::json::parse_json(&rendered).unwrap();
    assert!(doc.deep_eq(&back));
    assert_eq!(doc, back);
}

#[test]
fn test_render_pretty_shape() {
    let doc = obj(vec![(
        "mcpServers",
        obj(vec![(
            "time",
            obj(vec![
                ("command", JsonValue::Str("npx".to_string())),
                (
                    "args",
                    JsonValue::Arr(vec![
                        JsonValue::Str("-y".to_string()),
                        JsonValue::Str("mcp-server-time".to_string()),
                    ]),
                ),
            ]),
        )]),
    )]);
    let rendered = doc.to_pretty_string();
    let expected = "{\n  \"mcpServers\": {\n    \"time\": {\n      \"command\": \"npx\",\n      \"args\": [\n        \"-y\",\n        \"mcp-server-time\"\n      ]\n    }\n  }\n}";
    assert_eq!(rendered, expected);
}

#[test]
fn test_render_parse_round_trip() {
    let doc = obj(vec![
        (
            "mcpServers",
            obj(vec![(
                "puppeteer",
                obj(vec![
                    ("command", JsonValue::Str("/bin/npx".to_string())),
                    ("args", JsonValue::Arr(vec![JsonValue::Str("-y".to_string())])),
                    (
                        "env",
                        obj(vec![
                            ("N", JsonValue::Int(-3)),
                            ("B", JsonValue::Bool(false)),
                            ("S", JsonValue::Str("a \"quoted\"\nline\ttab".to_string())),
                        ]),
                    ),
                ]),
            )]),
        ),
        ("unrelatedKey", JsonValue::Arr(vec![JsonValue::Null, JsonValue::Int(0)])),
        ("empty", JsonValue::Arr(vec![])),
    ]);
    let rendered = doc.to_pretty_string();
    let back = fleur_lib::json::parse_json(&rendered).expect("rendered document parses");
    assert!(doc.deep_eq(&back));
    assert_eq!(doc, back);
}

#[test]
fn test_deep_clone_and_eq() {
    let doc = obj(vec![("k", JsonValue::Arr(vec![JsonValue::Str("v".to_string())]))]);
    let copy = doc.deep_clone();
    assert!(doc.deep_eq(&copy));
    let other = obj(vec![("k", JsonValue::Arr(vec![JsonValue::Str("w".to_string())]))]);
    assert!(!doc.deep_eq(&other));
}

#[test]
fn test_object_operations() {
    let doc = obj(vec![("a", JsonValue::Int(1))]);
    let doc = doc.obj_set("b", JsonValue::Int(2));
    assert!(doc.obj_has("a"));
    assert!(doc.obj_has("b"));
    let doc = doc.obj_set("a", JsonValue::Int(3));
    match doc.obj_get("a") {
        Some(JsonValue::Int(n)) => assert_eq!(*n, 3),
        _ => panic!("a should hold 3"),
    }
    let (doc, removed) = doc.obj_remove("a");
    assert!(removed);
    assert!(!doc.obj_has("a"));
    let (doc, removed) = doc.obj_remove("a");
    assert!(!removed);
    assert!(doc.obj_has("b"));
}
