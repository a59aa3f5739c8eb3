use task_tracker::task::{Mutation, TaskData, TaskStatus};
use task_tracker::time::Timestamp;

#[test]
fn empty_document_exact_text() {
    let d = TaskData::empty();
    assert_eq!(d.to_json(), "{\n  \"tasks\": [],\n  \"id_counter\": 0\n}");
}

#[test]
fn one_task_exact_text() {
    let mut d = TaskData::empty();
    d.add("a".to_string(), Timestamp::new(0, 0));
    let expected = "{\n  \"tasks\": [\n    {\n      \"id\": 0,\n      \"name\": \"a\",\n      \"status\": \"Todo\",\n      \"created_at\": \"1970-01-01T00:00:00.000000000Z\",\n      \"updated_at\": \"1970-01-01T00:00:00.000000000Z\"\n    }\n  ],\n  \"id_counter\": 1\n}";
    assert_eq!(d.to_json(), expected);
}

#[test]
fn document_is_valid_json_with_the_agreed_fields() {
    let mut d = TaskData::empty();
    d.add("first".to_string(), Timestamp::new(1_700_000_000, 0));
    d.add("second".to_string(), Timestamp::new(1_700_000_100, 500));
    d.update(
        1,
        Mutation::SetStatus(TaskStatus::InProgress),
        Timestamp::new(1_700_000_200, 0),
    );
    let text = d.to_json();
    let v: serde_json::Value = serde_json::from_str(&text).unwrap();
    assert_eq!(v["id_counter"], serde_json::Value::from(2u64));
    assert_eq!(v["tasks"][0]["id"], serde_json::Value::from(0u64));
    assert_eq!(v["tasks"][0]["name"].as_str().unwrap(), "first");
    assert_eq!(v["tasks"][0]["status"].as_str().unwrap(), "Todo");
    assert_eq!(v["tasks"][1]["status"].as_str().unwrap(), "InProgress");
    assert!(v["tasks"][0]["created_at"].as_str().unwrap().starts_with("2023-11-1"));
}

#[test]
fn escaped_names_stay_valid_json() {
    let mut d = TaskData::empty();
    let name = "he said \"hi\" \\ twice\nand\ttabbed\u{1}".to_string();
    d.add(name.clone(), Timestamp::new(10, 0));
    let text = d.to_json();
    let v: serde_json::Value = serde_json::from_str(&text).unwrap();
    assert_eq!(v["tasks"][0]["name"].as_str().unwrap(), name);
    let back = TaskData::from_json(&text);
    assert_eq!(back.tasks[0].name, name);
}

#[test]
fn timestamps_really_are_formatted() {
    let mut d = TaskData::empty();
    d.add("a".to_string(), Timestamp::new(0, 1));
    let text = d.to_json();
    assert!(text.contains("1970-01-01T00:00:00.000000001Z"));
}

#[test]
fn status_labels() {
    assert_eq!(TaskStatus::Todo.label(), "Todo");
    assert_eq!(TaskStatus::InProgress.label(), "InProgress");
    assert_eq!(TaskStatus::Done.label(), "Done");
}

#[test]
fn loaded_documents_pass_the_invariant_check() {
    let mut d = TaskData::empty();
    d.add("a".to_string(), Timestamp::new(5, 0));
    assert!(d.check_invariant());
    let back = TaskData::from_json(&d.to_json());
    assert!(back.check_invariant());
}
