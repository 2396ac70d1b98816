use fleur_lib::json::JsonValue;
use fleur_lib::template::substitute;

fn env_obj(pairs: Vec<(&str, JsonValue)>) -> JsonValue {
    let mut fields: Vec<(String, JsonValue)> = Vec::new();
    for (k, v) in pairs {
        fields.push((k.to_string(), v));
    }
    JsonValue::Obj(fields)
}

#[test]
fn test_substitute_two_placeholders() {
    let env = env_obj(vec![
        ("X", JsonValue::Str("1".to_string())),
        ("Y", JsonValue::Str("2".to_string())),
    ]);
    assert_eq!(substitute("--a=${X}-${Y}", &env), "--a=1-2");
}

#[test]
fn test_substitute_missing_name_untouched() {
    let env = env_obj(vec![]);
    assert_eq!(substitute("${MISSING}", &env), "${MISSING}");
}

#[test]
fn test_substitute_numeric_and_boolean() {
    let env = env_obj(vec![
        ("N", JsonValue::Int(42)),
        ("F", JsonValue::Bool(true)),
    ]);
    assert_eq!(substitute("${N}", &env), "42");
    assert_eq!(substitute("${F}", &env), "true");
}

#[test]
fn test_substitute_repeated_placeholder() {
    let env = env_obj(vec![("A", JsonValue::Str("x".to_string()))]);
    assert_eq!(substitute("${A}/${A}", &env), "x/x");
}

#[test]
fn test_substitute_no_recursive_rescan() {
    // A substituted value that itself looks like a placeholder is not
    // scanned again.
    let env = env_obj(vec![
        ("A", JsonValue::Str("${B}".to_string())),
        ("B", JsonValue::Str("no".to_string())),
    ]);
    assert_eq!(substitute("${A}", &env), "${B}");
}

#[test]
fn test_substitute_unclosed_placeholder() {
    let env = env_obj(vec![("A", JsonValue::Str("x".to_string()))]);
    assert_eq!(substitute("tail ${A", &env), "tail ${A");
}

#[test]
fn test_substitute_embedded_and_negative() {
    let env = env_obj(vec![
        ("E", JsonValue::Str("mid".to_string())),
        ("N", JsonValue::Int(-7)),
    ]);
    assert_eq!(substitute("pre_${E}_post", &env), "pre_mid_post");
    assert_eq!(substitute("${N}", &env), "-7");
}

#[test]
fn test_substitute_uninterpreted_number() {
    // A number the store carries opaquely substitutes as its own lexeme.
    let env = env_obj(vec![("R", JsonValue::NumLit("2.5".to_string()))]);
    assert_eq!(substitute("ratio=${R}", &env), "ratio=2.5");
}

#[test]
fn test_substitute_non_renderable_value_untouched() {
    // An array value has no textual form; the placeholder stays.
    let env = env_obj(vec![("A", JsonValue::Arr(vec![JsonValue::Int(1)]))]);
    assert_eq!(substitute("${A}", &env), "${A}");
}
