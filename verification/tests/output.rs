use misanthropic::{
    Effort, Items, JsonMap, JsonSchemaFormat, JsonValue, OutputConfig, OutputFormat,
};

fn object(pairs: &[(&str, &str)]) -> JsonValue {
    let mut map = JsonMap::new();
    for (k, v) in pairs {
        map.insert(k.to_string(), JsonValue::String(v.to_string()));
    }
    JsonValue::Object(map)
}

#[test]
fn effort_only_config_omits_format() {
    let cfg = OutputConfig::effort(Effort::Medium);
    assert!(cfg.format.is_none(), "effort-only config must not emit a format key");
    assert_eq!(cfg.effort.as_ref().map(|e| e.as_str()), Some("medium"));
    assert_eq!(Effort::from("medium".to_string()), Effort::Medium);
}

#[test]
fn effort_levels_serialize_lowercase() {
    for (effort, wire) in [
        (Effort::Low, "low"),
        (Effort::Medium, "medium"),
        (Effort::High, "high"),
        (Effort::XHigh, "xhigh"),
        (Effort::Max, "max"),
    ] {
        assert_eq!(effort.as_str(), wire, "{effort:?} should serialize as {wire:?}");
    }
}

#[test]
fn effort_custom_round_trips() {
    let custom = Effort::from("ultra".to_string());
    assert_eq!(custom, Effort::Custom("ultra".into()));
    assert_eq!(custom.as_str(), "ultra");

    let known = Effort::from("xhigh".to_string());
    assert_eq!(known, Effort::XHigh);

    let cfg = OutputConfig::effort(Effort::from("ultra"));
    assert_eq!(cfg.effort.as_ref().map(|e| e.as_str()), Some("ultra"));
}

#[test]
fn overlay_composes_format_and_effort() {
    let mut cfg = OutputConfig::json_schema(object(&[("type", "object")]));
    cfg.overlay(OutputConfig::effort(Effort::Low));
    assert!(cfg.format.is_some());
    assert_eq!(cfg.effort, Some(Effort::Low));

    let mut cfg = OutputConfig::effort(Effort::Max);
    cfg.overlay(OutputConfig::json_schema(object(&[("type", "object")])));
    assert!(cfg.format.is_some());
    assert_eq!(cfg.effort, Some(Effort::Max));
}

#[test]
fn from_value_treats_input_as_schema() {
    let mut props = JsonMap::new();
    props.insert("type".to_string(), JsonValue::String("object".to_string()));
    props.insert("properties".to_string(), JsonValue::Object(JsonMap::new()));
    let schema = JsonValue::Object(props);
    let cfg: OutputConfig = schema.clone().into();
    let Some(OutputFormat::JsonSchema(JsonSchemaFormat { schema: inner, .. })) = &cfg.format else {
        panic!("expected json_schema format, got {:?}", cfg.format);
    };
    assert_eq!(inner, &schema);
}

#[test]
fn from_format() {
    let fmt = JsonSchemaFormat::from(object(&[("type", "object")]));
    let cfg: OutputConfig = fmt.clone().into();
    let Some(OutputFormat::JsonSchema(got)) = &cfg.format else {
        panic!("expected json_schema format, got {:?}", cfg.format);
    };
    assert_eq!(got, &fmt);
}

#[test]
fn is_variant_helper() {
    let cfg = OutputConfig::json_schema(JsonValue::Object(JsonMap::new()));
    assert!(cfg.format.unwrap().is_json_schema());
}

#[test]
fn known_names_read_as_their_level() {
    assert_eq!(Effort::from("low"), Effort::Low);
    assert_eq!(Effort::from("medium"), Effort::Medium);
    assert_eq!(Effort::from("high"), Effort::High);
    assert_eq!(Effort::from("xhigh"), Effort::XHigh);
    assert_eq!(Effort::from("max"), Effort::Max);
    assert_eq!(Effort::from("High"), Effort::Custom("High".to_string()));
    assert_eq!(Effort::from(""), Effort::Custom(String::new()));
}

#[test]
fn wire_round_trip() {
    for text in ["low", "medium", "high", "xhigh", "max", "ultra", "LOW", ""] {
        assert_eq!(Effort::from(text).as_str(), text);
    }
    for level in [Effort::Low, Effort::Medium, Effort::High, Effort::XHigh, Effort::Max] {
        assert_eq!(Effort::from(level.as_str()), level);
    }
    // A custom level spelled like a known one reads back as the known one.
    assert_eq!(Effort::from(Effort::Custom("max".to_string()).as_str()), Effort::Max);
}

#[test]
fn overlay_keeps_unset_fields_and_commutes() {
    let base = OutputConfig::json_schema(object(&[("type", "object")])).with_effort(Effort::Low);
    let mut unchanged = base.clone();
    unchanged.overlay(OutputConfig::default());
    assert_eq!(unchanged, base);

    let a = OutputConfig::from(JsonSchemaFormat::from(object(&[("type", "array")])));
    let b = OutputConfig::from(Effort::High);
    let mut ab = base.clone();
    ab.overlay(a.clone());
    ab.overlay(b.clone());
    let mut ba = base.clone();
    ba.overlay(b.clone());
    ba.overlay(a.clone());
    assert_eq!(ab, ba);
    assert_eq!(ab.effort, Some(Effort::High));
    assert_eq!(ab.format, a.format);

    let mut twice = base.clone();
    twice.overlay(b.clone());
    let once = twice.clone();
    twice.overlay(b);
    assert_eq!(twice, once);
}

#[test]
fn with_effort_keeps_format() {
    let cfg = OutputConfig::json_schema(object(&[("type", "object")]));
    let format = cfg.format.clone();
    let cfg = cfg.with_effort(Effort::XHigh);
    assert_eq!(cfg.format, format);
    assert_eq!(cfg.effort, Some(Effort::XHigh));
}

#[test]
fn default_config_sets_nothing() {
    let cfg = OutputConfig::default();
    assert!(cfg.format.is_none());
    assert!(cfg.effort.is_none());
}

#[test]
fn conversions_into_config() {
    let fmt = OutputFormat::from(JsonSchemaFormat::from(JsonValue::Null));
    let cfg = OutputConfig::from(fmt.clone());
    assert_eq!(cfg.format, Some(fmt));
    assert!(cfg.effort.is_none());
    let cfg = OutputConfig::from(Effort::Max);
    assert!(cfg.format.is_none());
    assert_eq!(cfg.effort, Some(Effort::Max));
}

#[test]
fn items_wrap_and_iterate() {
    let items = Items::from(vec![1u32, 2, 3]);
    assert_eq!(items.items, vec![1, 2, 3]);
    let collected: Vec<u32> = items.into_iter().collect();
    assert_eq!(collected, vec![1, 2, 3]);
}

#[test]
fn overlay_is_associative() {
    let a = OutputConfig::effort(Effort::Low);
    let b = OutputConfig::json_schema(object(&[("type", "object")]));
    let c = OutputConfig::effort(Effort::Max);
    let mut left = a.clone();
    left.overlay(b.clone());
    left.overlay(c.clone());
    let mut bc = b.clone();
    bc.overlay(c.clone());
    let mut right = a.clone();
    right.overlay(bc);
    assert_eq!(left, right);
}
