use serde_json::Value;

use tracing_experiment::compat_layer::CompatLayer;
use tracing_experiment::fields::Visitor;
use tracing_experiment::scope::{CallsiteMeta, EventData, Level};
use tracing_experiment::value::FieldValue;

fn meta(name: &str) -> CallsiteMeta {
    CallsiteMeta {
        name: name.to_string(),
        level: Level::Info,
        file: None,
        line: None,
        target: "accessor".to_string(),
    }
}

fn nested_layer() -> CompatLayer {
    let mut layer = CompatLayer::new(String::from("svc"), 9);
    let mut outer = Visitor::new();
    outer.record_str("shared", "from-outer");
    outer.record_str("outer_only", "o");
    let _ = layer.on_new_span(meta("outer"), None, 1, outer);
    let mut inner = Visitor::new();
    inner.record_str("shared", "from-inner");
    inner.record_str("inner_only", "i");
    let _ = layer.on_new_span(meta("inner"), Some(1), 2, inner);
    layer
}

#[test]
fn accessor_returns_nearest_scope_value() {
    let layer = nested_layer();
    assert_eq!(
        layer.get_stored(2, "shared"),
        Some(&FieldValue::Str("from-inner".to_string()))
    );
    assert_eq!(
        layer.get_stored(1, "shared"),
        Some(&FieldValue::Str("from-outer".to_string()))
    );
    // A field only on an ancestor is still found from the nested scope.
    assert_eq!(
        layer.get_stored(2, "outer_only"),
        Some(&FieldValue::Str("o".to_string()))
    );
}

#[test]
fn accessor_returns_absent_for_unrecorded_names() {
    let layer = nested_layer();
    assert_eq!(layer.get_stored(2, "never_recorded"), None);
    assert_eq!(layer.get_stored(1, "inner_only"), None);
}

#[test]
fn inner_scope_shadows_outer_in_merged_record() {
    let layer = nested_layer();
    let ev = EventData {
        meta: meta("ev"),
        fields: Visitor::new(),
        parent: None,
    };
    let line = layer.on_event(&ev, Some(2));
    // The raw record holds both occurrences, outer scope's first.
    let outer_pos = line.find("from-outer").unwrap();
    let inner_pos = line.find("from-inner").unwrap();
    assert!(outer_pos < inner_pos);
    // A reader folding duplicate keys with last-key-wins semantics is left
    // with the nested scope's value, matching the accessor.
    let v: Value = serde_json::from_str(line.trim_end()).unwrap();
    assert_eq!(v["shared"], Value::from("from-inner"));
}

#[test]
fn event_own_field_overrides_ancestors_in_folded_reading() {
    let layer = nested_layer();
    let mut fields = Visitor::new();
    fields.record_str("shared", "from-event");
    let ev = EventData {
        meta: meta("ev"),
        fields,
        parent: None,
    };
    let line = layer.on_event(&ev, Some(2));
    let v: Value = serde_json::from_str(line.trim_end()).unwrap();
    assert_eq!(v["shared"], Value::from("from-event"));
}
