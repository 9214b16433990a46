use serde_json::Value;

use tracing_experiment::compat_layer::CompatLayer;
use tracing_experiment::fields::Visitor;
use tracing_experiment::scope::{CallsiteMeta, EventData, Level};

fn span_meta(name: &str, level: Level) -> CallsiteMeta {
    CallsiteMeta {
        name: name.to_string(),
        level,
        file: Some("tests/e2e.rs".to_string()),
        line: Some(42),
        target: "e2e".to_string(),
    }
}

fn event(message: &str) -> EventData {
    let mut fields = Visitor::new();
    fields.record_str("message", message);
    EventData {
        meta: span_meta("event tests/e2e.rs:42", Level::Info),
        fields,
        parent: None,
    }
}

// Drive the adapter through the same scenario the instrumented demo
// produces: an outer scope with one field, an event, a nested scope with
// two fields, an event, then both scopes close.
fn run_and_get_raw_output() -> String {
    let mut layer = CompatLayer::new(String::from("test"), 4242);
    let mut lines: Vec<String> = Vec::new();

    let mut outer_attrs = Visitor::new();
    outer_attrs.record_i64("a", 2);
    lines.push(layer.on_new_span(span_meta("shaving_yaks", Level::Debug), None, 1, outer_attrs));
    layer.on_enter(1, 10);

    lines.push(layer.on_event(&event("pre-shaving yaks"), Some(1)));

    let mut inner_attrs = Visitor::new();
    inner_attrs.record_i64("b", 3);
    inner_attrs.record_bool("skipped", false);
    lines.push(layer.on_new_span(
        span_meta("inner shaving", Level::Debug),
        Some(1),
        2,
        inner_attrs,
    ));
    layer.on_enter(2, 20);

    lines.push(layer.on_event(&event("shaving yaks"), Some(2)));

    lines.push(layer.on_close(2, 30));
    lines.push(layer.on_close(1, 40));

    lines.concat()
}

fn run_and_get_output() -> Vec<Value> {
    run_and_get_raw_output()
        .lines()
        .filter(|l| !l.trim().is_empty())
        .inspect(|l| println!("{}", l))
        .map(|line| serde_json::from_str::<Value>(line).unwrap())
        .collect()
}

#[test]
fn it_works() {
    let tracing_output = run_and_get_raw_output();

    for line in tracing_output.lines().filter(|l| !l.is_empty()) {
        println!("{line}");
    }
}

#[test]
fn each_line_is_valid_json() {
    let tracing_output = run_and_get_raw_output();

    // Each line is valid JSON
    for line in tracing_output.lines().filter(|l| !l.is_empty()) {
        assert!(serde_json::from_str::<Value>(line).is_ok());
    }
}

#[test]
fn see_output() {
    let _output = run_and_get_output();
}

#[test]
fn six_records_with_inherited_fields() {
    let records = run_and_get_output();
    assert_eq!(records.len(), 6);

    // start-outer, event, start-inner, event, end-inner, end-outer
    assert_eq!(records[0]["type"], Value::from("start"));
    assert_eq!(records[0]["title"], Value::from("shaving_yaks"));
    assert_eq!(records[1]["type"], Value::from("event"));
    assert_eq!(records[2]["type"], Value::from("start"));
    assert_eq!(records[2]["title"], Value::from("inner shaving"));
    assert_eq!(records[3]["type"], Value::from("event"));
    assert_eq!(records[4]["type"], Value::from("end"));
    assert_eq!(records[4]["title"], Value::from("inner shaving"));
    assert_eq!(records[5]["type"], Value::from("end"));
    assert_eq!(records[5]["title"], Value::from("shaving_yaks"));

    // Both event records carry the outer scope's field.
    assert_eq!(records[1]["a"], Value::from(2i64));
    assert_eq!(records[3]["a"], Value::from(2i64));
    assert_eq!(records[1]["title"], Value::from("pre-shaving yaks"));
    assert_eq!(records[3]["title"], Value::from("shaving yaks"));

    // Only the second event also carries the nested scope's fields.
    assert!(records[1].get("b").is_none());
    assert!(records[1].get("skipped").is_none());
    assert_eq!(records[3]["b"], Value::from(3i64));
    assert_eq!(records[3]["skipped"], Value::from(false));

    // Events name their nearest enclosing scope.
    assert_eq!(records[1]["parent"], Value::from("shaving_yaks"));
    assert_eq!(records[3]["parent"], Value::from("inner shaving"));

    // Close records carry the elapsed time from first enter to close.
    assert_eq!(records[4]["elapsed"], Value::from("10ns"));
    assert_eq!(records[5]["elapsed"], Value::from("30ns"));

    // Every record carries the static process metadata.
    for r in &records {
        assert_eq!(r["source.pid"], Value::from("4242"));
        assert_eq!(r["source.target"], Value::from("e2e"));
    }
}

#[test]
fn reentry_keeps_first_start_timestamp() {
    let mut layer = CompatLayer::new(String::from("test"), 1);
    let _ = layer.on_new_span(span_meta("job", Level::Info), None, 7, Visitor::new());
    // Entered, suspended, and resumed twice: the timer must stay at the
    // first entry.
    layer.on_enter(7, 100);
    layer.on_enter(7, 900);
    layer.on_enter(7, 1_050);
    let end = layer.on_close(7, 1_100);
    let v: Value = serde_json::from_str(end.trim_end()).unwrap();
    assert_eq!(v["elapsed"], Value::from("1.000us"));
}

#[test]
fn close_releases_data_and_frees_the_id() {
    let mut layer = CompatLayer::new(String::from("test"), 1);
    let mut attrs = Visitor::new();
    attrs.record_str("gen", "first");
    let _ = layer.on_new_span(span_meta("job", Level::Info), None, 5, attrs);
    layer.on_enter(5, 100);
    let _ = layer.on_close(5, 110);

    // The scope's auxiliary data is gone with the scope.
    assert!(!layer.contains(5));

    // The host may hand the closed scope's id to a fresh scope; the new
    // scope starts clean, with its own fields and its own timer.
    let mut attrs2 = Visitor::new();
    attrs2.record_str("gen", "second");
    let start = layer.on_new_span(span_meta("job2", Level::Info), None, 5, attrs2);
    let sv: Value = serde_json::from_str(start.trim_end()).unwrap();
    assert_eq!(sv["gen"], Value::from("second"));
    layer.on_enter(5, 1_000);
    let end = layer.on_close(5, 1_500);
    let ev: Value = serde_json::from_str(end.trim_end()).unwrap();
    assert_eq!(ev["elapsed"], Value::from("500ns"));
    assert_eq!(ev["gen"], Value::from("second"));
    assert!(!layer.contains(5));
}

#[test]
fn explicit_parent_wins_over_current() {
    let mut layer = CompatLayer::new(String::from("test"), 1);
    let mut attrs = Visitor::new();
    attrs.record_str("who", "outer");
    let _ = layer.on_new_span(span_meta("outer", Level::Info), None, 1, attrs);
    let mut attrs2 = Visitor::new();
    attrs2.record_str("who", "inner");
    let _ = layer.on_new_span(span_meta("inner", Level::Info), Some(1), 2, attrs2);

    let mut ev = event("hello");
    ev.parent = Some(1);
    let line = layer.on_event(&ev, Some(2));
    let v: Value = serde_json::from_str(line.trim_end()).unwrap();
    assert_eq!(v["parent"], Value::from("outer"));
    assert_eq!(v["who"], Value::from("outer"));

    // An explicit parent that the registry does not know falls back to the
    // caller's current scope.
    let mut ev2 = event("hello");
    ev2.parent = Some(99);
    let line2 = layer.on_event(&ev2, Some(2));
    let v2: Value = serde_json::from_str(line2.trim_end()).unwrap();
    assert_eq!(v2["parent"], Value::from("inner"));
    assert_eq!(v2["who"], Value::from("inner"));
}
