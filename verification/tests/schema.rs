use misanthropic::{contains_ref, sanitize_for_anthropic, JsonMap, JsonNumber, JsonValue};

fn from_serde(v: &serde_json::Value) -> JsonValue {
    match v {
        serde_json::Value::Null => JsonValue::Null,
        serde_json::Value::Bool(b) => JsonValue::Bool(*b),
        serde_json::Value::Number(n) => JsonValue::Number(if let Some(u) = n.as_u64() {
            JsonNumber::PosInt(u)
        } else if let Some(i) = n.as_i64() {
            JsonNumber::NegInt(i)
        } else {
            JsonNumber::Float(n.as_f64().unwrap().to_bits())
        }),
        serde_json::Value::String(s) => JsonValue::String(s.clone()),
        serde_json::Value::Array(items) => JsonValue::Array(items.iter().map(from_serde).collect()),
        serde_json::Value::Object(map) => {
            let mut out = JsonMap::new();
            for (k, v) in map {
                out.insert(k.clone(), from_serde(v));
            }
            JsonValue::Object(out)
        }
    }
}

fn to_serde(v: &JsonValue) -> serde_json::Value {
    match v {
        JsonValue::Null => serde_json::Value::Null,
        JsonValue::Bool(b) => serde_json::Value::Bool(*b),
        JsonValue::Number(JsonNumber::PosInt(u)) => serde_json::Value::from(*u),
        JsonValue::Number(JsonNumber::NegInt(i)) => serde_json::Value::from(*i),
        JsonValue::Number(JsonNumber::Float(bits)) => serde_json::Value::from(f64::from_bits(*bits)),
        JsonValue::String(s) => serde_json::Value::String(s.clone()),
        JsonValue::Array(items) => serde_json::Value::Array(items.iter().map(to_serde).collect()),
        JsonValue::Object(map) => {
            let mut out = serde_json::Map::new();
            for (k, v) in map.entries() {
                out.insert(k.clone(), to_serde(v));
            }
            serde_json::Value::Object(out)
        }
    }
}

fn parse(text: &str) -> JsonValue {
    from_serde(&serde_json::from_str::<serde_json::Value>(text).unwrap())
}

fn render(v: &JsonValue) -> String {
    serde_json::to_string(&to_serde(v)).unwrap()
}

/// Assert `keys` appear in `json` in the given order.
fn assert_key_order(json: &str, keys: &[&str]) {
    let offsets: Vec<usize> = keys
        .iter()
        .map(|k| {
            json.find(&format!("\"{k}\":"))
                .unwrap_or_else(|| panic!("key {k:?} missing in {json}"))
        })
        .collect();
    assert!(
        offsets.windows(2).all(|w| w[0] < w[1]),
        "expected key order {keys:?}, got offsets {offsets:?} in {json}"
    );
}

fn keys(v: &JsonValue) -> Vec<String> {
    v.as_object().unwrap().entries().iter().map(|(k, _)| k.clone()).collect()
}

#[test]
fn sanitize_preserves_any_of_when_both_present() {
    let mut schema = parse(r#"{"anyOf": [{"type": "string"}], "oneOf": [{"type": "integer"}]}"#);
    sanitize_for_anthropic(&mut schema);
    assert_eq!(schema.get("anyOf").unwrap(), &parse(r#"[{"type": "string"}]"#));
    assert!(schema.get("oneOf").is_none());
}

#[test]
fn sanitize_is_idempotent() {
    let mut schema = parse(
        r#"{
            "type": "object",
            "properties": {
                "count": { "type": "integer", "minimum": 0 }
            },
            "required": ["count"]
        }"#,
    );
    sanitize_for_anthropic(&mut schema);
    let once = schema.clone();
    sanitize_for_anthropic(&mut schema);
    assert_eq!(
        render(&schema),
        render(&once),
        "sanitize_for_anthropic must be idempotent, byte for byte"
    );
    assert!(render(&schema).contains("\"additionalProperties\":false"));
    assert!(!render(&schema).contains("\"minimum\""));
}

#[test]
fn sanitize_preserves_order_across_multiple_removals() {
    let mut schema = parse(
        r#"{
            "type": "object",
            "maxLength": 10,
            "properties": {
                "zulu": { "type": "string", "maxLength": 4 },
                "alpha": { "type": "integer", "minimum": 0 }
            },
            "minimum": 1,
            "required": ["zulu", "alpha"],
            "maxItems": 3,
            "description": "d",
            "uniqueItems": true,
            "minItems": 7,
            "title": "t"
        }"#,
    );
    sanitize_for_anthropic(&mut schema);
    let wire = render(&schema);
    assert_key_order(&wire, &["type", "properties", "required", "description", "title"]);
    assert_key_order(&wire, &["zulu", "alpha"]);
    for gone in ["maxLength", "minimum", "maxItems", "uniqueItems", "minItems"] {
        assert!(
            !wire.contains(&format!("\"{gone}\":")),
            "expected {gone:?} stripped, got {wire}"
        );
    }
}

#[test]
fn sanitize_renames_one_of_in_place() {
    let mut schema = parse(
        r#"{
            "description": "a category",
            "oneOf": [{ "const": "feat" }, { "const": "fix" }],
            "title": "Category"
        }"#,
    );
    sanitize_for_anthropic(&mut schema);
    let wire = render(&schema);
    assert_key_order(&wire, &["description", "anyOf", "title"]);
    assert!(!wire.contains("oneOf"), "oneOf survived: {wire}");
}

#[test]
fn contains_ref_finds_refs_at_any_depth() {
    assert!(!contains_ref(&parse(r#"{"type": "string"}"#)));
    assert!(contains_ref(&parse(r##"{"$ref": "#/$defs/A"}"##)));
    assert!(contains_ref(&parse(r##"{"properties": {"a": {"$ref": "#/$defs/A"}}}"##)));
    assert!(contains_ref(&parse(
        r##"{"anyOf": [{"type": "null"}, {"$ref": "#/$defs/A"}]}"##
    )));
    assert!(contains_ref(&parse(r#"{"properties": {"$ref": {}}}"#)));
}

#[test]
fn contains_ref_is_false_for_scalars_and_ref_values() {
    assert!(!contains_ref(&parse(r#""$ref""#)));
    assert!(!contains_ref(&parse(r#"["$ref", 1, null]"#)));
    assert!(!contains_ref(&parse(r#"{"title": "$ref"}"#)));
}

#[test]
fn sanitize_strips_every_unsupported_keyword() {
    let mut schema = parse(
        r#"{"minimum": 1, "maximum": 2, "exclusiveMinimum": 0, "exclusiveMaximum": 3,
            "multipleOf": 1, "minLength": 1, "maxLength": 2, "maxItems": 4,
            "uniqueItems": true, "description": "kept"}"#,
    );
    sanitize_for_anthropic(&mut schema);
    assert_eq!(keys(&schema), vec!["description".to_string()]);
}

#[test]
fn sanitize_keeps_min_items_of_zero_or_one() {
    let mut zero = parse(r#"{"minItems": 0}"#);
    sanitize_for_anthropic(&mut zero);
    assert_eq!(render(&zero), r#"{"minItems":0}"#);
    let mut one = parse(r#"{"minItems": 1}"#);
    sanitize_for_anthropic(&mut one);
    assert_eq!(render(&one), r#"{"minItems":1}"#);
    let mut two = parse(r#"{"minItems": 2}"#);
    sanitize_for_anthropic(&mut two);
    assert_eq!(render(&two), r#"{}"#);
    // Any other value is outside {0, 1} and goes too.
    let mut odd = parse(r#"{"minItems": -1, "items": {"minItems": "3", "items": {"minItems": 2.5}}}"#);
    sanitize_for_anthropic(&mut odd);
    assert_eq!(render(&odd), r#"{"items":{"items":{}}}"#);
    // A float whose value is 0 or 1 is 0 or 1, and stays.
    let mut float_one = parse(r#"{"minItems": 1.0}"#);
    sanitize_for_anthropic(&mut float_one);
    assert_eq!(render(&float_one), r#"{"minItems":1.0}"#);
    let mut float_zero = parse(r#"{"minItems": 0.0, "items": {"minItems": -0.0}}"#);
    sanitize_for_anthropic(&mut float_zero);
    assert_eq!(render(&float_zero), r#"{"minItems":0.0,"items":{"minItems":-0.0}}"#);
    let mut float_other = parse(r#"{"minItems": 2.0, "items": {"minItems": -1.0}}"#);
    sanitize_for_anthropic(&mut float_other);
    assert_eq!(render(&float_other), r#"{"items":{}}"#);
    // The integer 1 written as a `NegInt` is still the integer 1.
    let mut map = JsonMap::new();
    map.insert("minItems".to_string(), JsonValue::Number(JsonNumber::NegInt(1)));
    let mut negint_one = JsonValue::Object(map);
    sanitize_for_anthropic(&mut negint_one);
    assert_eq!(render(&negint_one), r#"{"minItems":1}"#);
}

#[test]
fn sanitize_adds_additional_properties_to_object_schemas_only() {
    let mut by_type = parse(r#"{"type": "object"}"#);
    sanitize_for_anthropic(&mut by_type);
    assert_eq!(render(&by_type), r#"{"type":"object","additionalProperties":false}"#);

    let mut by_properties = parse(r#"{"properties": {}}"#);
    sanitize_for_anthropic(&mut by_properties);
    assert_eq!(render(&by_properties), r#"{"properties":{},"additionalProperties":false}"#);

    let mut already = parse(r#"{"type": "object", "additionalProperties": true}"#);
    sanitize_for_anthropic(&mut already);
    assert_eq!(render(&already), r#"{"type":"object","additionalProperties":true}"#);

    let mut string = parse(r#"{"type": "string"}"#);
    sanitize_for_anthropic(&mut string);
    assert_eq!(render(&string), r#"{"type":"string"}"#);
}

#[test]
fn sanitize_recurses_through_arrays_and_objects() {
    let mut schema = parse(
        r#"{"type": "object", "properties": {"list": {"type": "array",
            "items": [{"type": "object", "properties": {"n": {"type": "integer", "maximum": 9}}}]}}}"#,
    );
    sanitize_for_anthropic(&mut schema);
    assert_eq!(
        render(&schema),
        r#"{"type":"object","properties":{"list":{"type":"array","items":[{"type":"object","properties":{"n":{"type":"integer"}},"additionalProperties":false}]}},"additionalProperties":false}"#
    );
}

#[test]
fn sanitize_leaves_scalars_alone() {
    for text in [r#"null"#, r#"true"#, r#"3"#, r#"-4"#, r#"1.5"#, r#""minimum""#] {
        let mut v = parse(text);
        sanitize_for_anthropic(&mut v);
        assert_eq!(v, parse(text));
    }
}

#[test]
fn sanitize_conforms_at_every_depth() {
    let mut schema = parse(
        r#"{"oneOf": [{"properties": {"x": {"oneOf": [], "minLength": 2}}}], "items": [{"uniqueItems": true}]}"#,
    );
    sanitize_for_anthropic(&mut schema);
    let wire = render(&schema);
    assert_eq!(
        wire,
        r#"{"anyOf":[{"properties":{"x":{"anyOf":[]}},"additionalProperties":false}],"items":[{}]}"#
    );
}

#[test]
fn json_map_insert_replaces_in_place() {
    let mut map = JsonMap::new();
    assert!(map.insert("a".to_string(), JsonValue::Bool(true)).is_none());
    assert!(map.insert("b".to_string(), JsonValue::Null).is_none());
    let old = map.insert("a".to_string(), JsonValue::Bool(false));
    assert_eq!(old, Some(JsonValue::Bool(true)));
    assert_eq!(map.len(), 2);
    assert_eq!(map.entries()[0].0, "a");
    assert_eq!(map.get("a"), Some(&JsonValue::Bool(false)));
    assert!(map.contains_key("b"));
    assert!(!map.contains_key("c"));
    assert_eq!(map.get("c"), None);
}

#[test]
fn json_value_accessors() {
    let v = parse(r#"{"s": "text", "n": 7, "m": -7}"#);
    assert_eq!(v.get("s").unwrap().as_str(), Some("text"));
    assert_eq!(v.get("n").unwrap().as_u64(), Some(7));
    assert_eq!(v.get("m").unwrap().as_u64(), None);
    assert!(v.get("s").unwrap().get("s").is_none());
    assert_eq!(v.clone(), v);
    assert_eq!(render(&v.clone()), r#"{"s":"text","n":7,"m":-7}"#);
}

#[test]
fn equality_ignores_key_order_and_reads_numbers_by_value() {
    assert_eq!(parse(r#"{"a": 1, "b": [true, null]}"#), parse(r#"{"b": [true, null], "a": 1}"#));
    assert_ne!(parse(r#"{"a": 1}"#), parse(r#"{"a": 1, "b": 2}"#));
    assert_ne!(parse(r#"{"a": 1}"#), parse(r#"{"b": 1}"#));
    assert_ne!(parse(r#"[1, 2]"#), parse(r#"[2, 1]"#));
    assert_ne!(parse(r#"1"#), parse(r#"1.0"#));
    assert_eq!(parse(r#"0.0"#), parse(r#"-0.0"#));
    assert_eq!(parse(r#"2.5"#), parse(r#"2.5"#));
    assert_eq!(JsonNumber::NegInt(3), JsonNumber::PosInt(3));
    assert_ne!(JsonNumber::NegInt(-3), JsonNumber::PosInt(3));
    assert_ne!(JsonNumber::Float(f64::NAN.to_bits()), JsonNumber::Float(f64::NAN.to_bits()));
    assert_ne!(parse(r#""1""#), parse(r#"1"#));
}
