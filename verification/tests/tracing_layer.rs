use diagnostic_explorer_agent::registry::NameRegistry;
use diagnostic_explorer_agent::tracing_layer::{
    AgentTracingLayer, NameVisitor, SpanExtensions, StrField,
};
use diagnostic_explorer_agent::types::{SpanDuration, Timestamp};

fn field(name: &'static str, value: &str) -> StrField {
    StrField { name, value: value.to_string() }
}

fn at(secs: u64, nanos: u32) -> Timestamp {
    Timestamp { secs, nanos }
}

#[test]
fn record_str_interns_the_name_attribute() {
    let mut names = NameRegistry::new();
    let mut visitor = NameVisitor { field: None };
    visitor.record_str(&mut names, "name", "load_assets");
    assert_eq!(visitor.field, Some(0));
    assert_eq!(names.names(), &vec!["load_assets".to_string()]);
}

#[test]
fn record_str_passes_over_other_attributes() {
    let mut names = NameRegistry::new();
    let mut visitor = NameVisitor { field: None };
    visitor.record_str(&mut names, "message", "load_assets");
    visitor.record_str(&mut names, "Name", "load_assets");
    visitor.record_str(&mut names, "name ", "load_assets");
    visitor.record_str(&mut names, "", "load_assets");
    assert_eq!(visitor.field, None);
    assert!(names.names().is_empty());
}

#[test]
fn record_str_keeps_the_id_it_found_when_another_attribute_follows() {
    let mut names = NameRegistry::new();
    names.intern("earlier");
    let mut visitor = NameVisitor { field: None };
    visitor.record_str(&mut names, "name", "system");
    visitor.record_str(&mut names, "detail", "ignored");
    assert_eq!(visitor.field, Some(1));
    assert_eq!(names.names().len(), 2);
}

#[test]
fn record_str_takes_the_last_declared_name() {
    let mut names = NameRegistry::new();
    let mut visitor = NameVisitor { field: None };
    visitor.record_str(&mut names, "name", "first");
    visitor.record_str(&mut names, "name", "second");
    visitor.record_str(&mut names, "name", "first");
    assert_eq!(visitor.field, Some(0));
    assert_eq!(names.names(), &vec!["first".to_string(), "second".to_string()]);
}

#[test]
fn new_span_carries_the_id_of_its_declared_name() {
    let mut layer = AgentTracingLayer::new();
    let a = layer.on_new_span(&[field("name", "A")]);
    let b = layer.on_new_span(&[field("kind", "x"), field("name", "B"), field("note", "y")]);
    let again = layer.on_new_span(&[field("name", "A")]);
    assert_eq!(a.name_id, Some(0));
    assert_eq!(b.name_id, Some(1));
    assert_eq!(again.name_id, Some(0));
    assert_eq!(a.started_at, None);
    assert_eq!(layer.name_by_id(), &vec!["A".to_string(), "B".to_string()]);
}

#[test]
fn new_span_without_a_name_carries_no_id() {
    let mut layer = AgentTracingLayer::new();
    let none = layer.on_new_span(&[]);
    let other = layer.on_new_span(&[field("label", "A")]);
    assert_eq!(none.name_id, None);
    assert_eq!(other.name_id, None);
    assert!(layer.name_by_id().is_empty());
}

#[test]
fn first_activation_is_recorded() {
    let mut extensions = SpanExtensions { name_id: Some(4), started_at: None };
    AgentTracingLayer::on_enter(&mut extensions, at(10, 5));
    assert_eq!(extensions.started_at, Some(at(10, 5)));
    assert_eq!(extensions.name_id, Some(4));
}

#[test]
fn later_activation_does_not_move_the_start() {
    let mut extensions = SpanExtensions { name_id: None, started_at: None };
    AgentTracingLayer::on_enter(&mut extensions, at(10, 5));
    AgentTracingLayer::on_enter(&mut extensions, at(11, 0));
    AgentTracingLayer::on_enter(&mut extensions, at(2, 0));
    assert_eq!(extensions.started_at, Some(at(10, 5)));
    assert_eq!(extensions.name_id, None);
}

#[test]
fn completion_without_activation_sends_nothing() {
    let extensions = SpanExtensions { name_id: Some(0), started_at: None };
    assert_eq!(AgentTracingLayer::on_exit(&extensions, 1, None, "root", at(5, 0)), None);
}

#[test]
fn completion_without_a_name_sends_nothing() {
    let extensions = SpanExtensions { name_id: None, started_at: Some(at(1, 0)) };
    assert_eq!(AgentTracingLayer::on_exit(&extensions, 1, Some(9), "root", at(5, 0)), None);
}

#[test]
fn completion_with_neither_sends_nothing() {
    let extensions = SpanExtensions { name_id: None, started_at: None };
    assert_eq!(AgentTracingLayer::on_exit(&extensions, 1, None, "root", at(5, 0)), None);
}

#[test]
fn completion_sends_ids_scope_and_elapsed_time() {
    let extensions = SpanExtensions { name_id: Some(3), started_at: Some(at(10, 250_000_000)) };
    let msg = AgentTracingLayer::on_exit(&extensions, 42, Some(7), "render", at(12, 750_000_000))
        .unwrap();
    assert_eq!(msg.span_id, 42);
    assert_eq!(msg.parent_id, 7);
    assert_eq!(msg.name_id, 3);
    assert_eq!(msg.scope, "render");
    assert_eq!(msg.duration, SpanDuration { secs: 2, nanos: 500_000_000 });
}

#[test]
fn root_span_has_parent_zero() {
    let extensions = SpanExtensions { name_id: Some(0), started_at: Some(at(0, 0)) };
    let msg = AgentTracingLayer::on_exit(&extensions, 5, None, "root", at(0, 1)).unwrap();
    assert_eq!(msg.parent_id, 0);
    assert_eq!(msg.duration, SpanDuration { secs: 0, nanos: 1 });
}

#[test]
fn elapsed_time_borrows_a_second_for_the_nanoseconds() {
    let elapsed = at(3, 100_000_000).duration_since(&at(1, 900_000_000));
    assert_eq!(elapsed, SpanDuration { secs: 1, nanos: 200_000_000 });
}

#[test]
fn elapsed_time_without_borrow() {
    let elapsed = at(7, 999_999_999).duration_since(&at(7, 1));
    assert_eq!(elapsed, SpanDuration { secs: 0, nanos: 999_999_998 });
}

#[test]
fn elapsed_time_between_equal_readings_is_zero() {
    let elapsed = at(7, 12).duration_since(&at(7, 12));
    assert_eq!(elapsed, SpanDuration { secs: 0, nanos: 0 });
}

#[test]
fn elapsed_time_is_zero_when_the_start_is_later() {
    assert_eq!(at(1, 0).duration_since(&at(2, 0)), SpanDuration { secs: 0, nanos: 0 });
    assert_eq!(at(2, 1).duration_since(&at(2, 2)), SpanDuration { secs: 0, nanos: 0 });
}

#[test]
fn elapsed_time_at_the_ends_of_the_clock() {
    let elapsed = at(u64::MAX, 999_999_999).duration_since(&at(0, 0));
    assert_eq!(elapsed, SpanDuration { secs: u64::MAX, nanos: 999_999_999 });
    let short = at(u64::MAX, 0).duration_since(&at(u64::MAX - 1, 999_999_999));
    assert_eq!(short, SpanDuration { secs: 0, nanos: 1 });
}

#[test]
fn duration_runs_from_the_first_activation_to_the_completion() {
    let mut layer = AgentTracingLayer::new();
    let mut extensions = layer.on_new_span(&[field("name", "A")]);
    AgentTracingLayer::on_enter(&mut extensions, at(100, 0));
    AgentTracingLayer::on_enter(&mut extensions, at(101, 0));
    let msg = AgentTracingLayer::on_exit(&extensions, 1, None, "root", at(103, 500)).unwrap();
    assert_eq!(msg.duration, SpanDuration { secs: 3, nanos: 500 });
}
