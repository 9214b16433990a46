use serde_json::Value;

use tracing_experiment::compat_layer::CompatLayer;
use tracing_experiment::fields::Visitor;
use tracing_experiment::json::render_record_line;
use tracing_experiment::scope::{CallsiteMeta, EventData, Level};
use tracing_experiment::value::FieldValue;

fn meta(name: &str) -> CallsiteMeta {
    CallsiteMeta {
        name: name.to_string(),
        level: Level::Debug,
        file: None,
        line: None,
        target: "records".to_string(),
    }
}

#[test]
fn start_record_has_exact_shape() {
    let mut layer = CompatLayer::new(String::from("svc"), 7);
    let mut attrs = Visitor::new();
    attrs.record_i64("a", 2);
    let line = layer.on_new_span(meta("outer"), None, 1, attrs);
    let mut expected = String::new();
    expected.push_str("{\"level\":\"DEBUG\",\"title\":\"outer\",\"type\":\"start\",");
    expected.push_str("\"source.filename\":null,\"source.line\":null,");
    expected.push_str("\"source.target\":\"records\",\"source.pid\":\"7\",\"a\":2}\n");
    assert_eq!(line, expected);
}

#[test]
fn raw_identifier_prefix_is_stripped() {
    let mut v = Visitor::new();
    v.record_i64("r#type", 3);
    let entries = v.fields();
    assert_eq!(entries.len(), 1);
    assert_eq!(entries[0].0, "type");
}

#[test]
fn reserved_metadata_names_never_appear() {
    let mut layer = CompatLayer::new(String::from("svc"), 7);
    let mut attrs = Visitor::new();
    attrs.record_str("log.target", "noise");
    attrs.record_str("kept", "yes");
    let line = layer.on_new_span(meta("outer"), None, 1, attrs);
    let v: Value = serde_json::from_str(line.trim_end()).unwrap();
    assert!(v.get("log.target").is_none());
    assert_eq!(v["kept"], Value::from("yes"));
    assert!(!line.contains("log."));
}

#[test]
fn last_write_wins_within_a_scope() {
    let mut v = Visitor::new();
    v.record_i64("x", 1);
    v.record_i64("x", 2);
    let entries = v.fields();
    assert_eq!(entries.len(), 1);
    assert_eq!(entries[0].1, FieldValue::I64(2));
}

#[test]
fn names_are_kept_sorted() {
    let mut v = Visitor::new();
    v.record_i64("zeta", 1);
    v.record_i64("alpha", 2);
    v.record_i64("mid", 3);
    let names: Vec<&str> = v.fields().iter().map(|e| e.0.as_str()).collect();
    assert_eq!(names, vec!["alpha", "mid", "zeta"]);
}

#[test]
fn number_text_is_emitted_unquoted_when_grammatical() {
    let mut v = Visitor::new();
    v.record_num("pi", "3.25".to_string());
    v.record_num("exp", "-1.5e-3".to_string());
    v.record_num("bad", "3.25.7".to_string());
    let line = render_record_line(v.fields());
    let parsed: Value = serde_json::from_str(line.trim_end()).unwrap();
    assert_eq!(parsed["pi"], Value::from(3.25f64));
    assert_eq!(parsed["exp"], Value::from(-1.5e-3f64));
    // Malformed number text degrades to its string form, never an error.
    assert_eq!(parsed["bad"], Value::from("3.25.7"));
}

#[test]
fn strings_are_escaped_into_valid_json() {
    let mut entries: Vec<(String, FieldValue)> = Vec::new();
    entries.push((
        "msg".to_string(),
        FieldValue::Str("say \"hi\"\\ tab\t nl\n ctl\u{1} end".to_string()),
    ));
    let line = render_record_line(&entries);
    assert_eq!(line.matches('\n').count(), 1);
    assert!(line.ends_with("}\n"));
    let parsed: Value = serde_json::from_str(line.trim_end()).unwrap();
    assert_eq!(
        parsed["msg"],
        Value::from("say \"hi\"\\ tab\t nl\n ctl\u{1} end")
    );
    assert!(line.contains("\\u0001"));
}

#[test]
fn event_without_message_takes_static_name_as_title() {
    let layer = CompatLayer::new(String::from("svc"), 7);
    let ev = EventData {
        meta: meta("event records.rs:1"),
        fields: Visitor::new(),
        parent: None,
    };
    let line = layer.on_event(&ev, None);
    let v: Value = serde_json::from_str(line.trim_end()).unwrap();
    assert_eq!(v["title"], Value::from("event records.rs:1"));
    assert_eq!(v["type"], Value::from("event"));
    assert!(v.get("parent").is_none());
}

#[test]
fn message_recorded_as_number_does_not_become_title() {
    let layer = CompatLayer::new(String::from("svc"), 7);
    let mut fields = Visitor::new();
    fields.record_i64("message", 5);
    let ev = EventData {
        meta: meta("fallback"),
        fields,
        parent: None,
    };
    let line = layer.on_event(&ev, None);
    let v: Value = serde_json::from_str(line.trim_end()).unwrap();
    assert_eq!(v["title"], Value::from("fallback"));
    // The message field is consumed by the title slot and never re-emitted
    // among the event's own fields.
    assert!(v.get("message").is_none());
}

#[test]
fn later_fields_update_on_record() {
    let mut layer = CompatLayer::new(String::from("svc"), 7);
    let mut attrs = Visitor::new();
    attrs.record_i64("n", 1);
    let _ = layer.on_new_span(meta("s"), None, 1, attrs);
    let mut more = Visitor::new();
    more.record_i64("n", 2);
    more.record_bool("extra", true);
    layer.on_record(1, more);
    let ev = EventData {
        meta: meta("ev"),
        fields: Visitor::new(),
        parent: None,
    };
    let line = layer.on_event(&ev, Some(1));
    let v: Value = serde_json::from_str(line.trim_end()).unwrap();
    assert_eq!(v["n"], Value::from(2i64));
    assert_eq!(v["extra"], Value::from(true));
}
