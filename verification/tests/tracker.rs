use task_tracker::task::{Mutation, Outcome, Task, TaskData, TaskStatus};
use task_tracker::time::Timestamp;

fn ts(secs: i64, nanos: u32) -> Timestamp {
    Timestamp::new(secs, nanos)
}

fn task_eq(a: &Task, b: &Task) -> bool {
    a.id == b.id && a.name == b.name && a.status == b.status && a.created_at == b.created_at
        && a.updated_at == b.updated_at
}

#[test]
fn add_assigns_increasing_ids() {
    let mut d = TaskData::empty();
    let t = ts(1000, 0);
    let a = d.add("one".to_string(), t);
    let b = d.add("two".to_string(), t);
    assert_eq!(a, 0);
    assert_eq!(b, 1);
    assert_eq!(d.delete(0), Outcome::Changed);
    let c = d.add("three".to_string(), t);
    assert_eq!(c, 2);
    assert_eq!(d.delete(2), Outcome::Changed);
    let e = d.add("four".to_string(), t);
    assert_eq!(e, 3);
    assert_eq!(d.id_counter, 4);
}

#[test]
fn add_then_list_shows_the_task() {
    let mut d = TaskData::empty();
    let id = d.add("X".to_string(), ts(1234, 5));
    assert_eq!(id, 0);
    let all = d.list(None);
    assert_eq!(all.len(), 1);
    assert_eq!(all[0].name, "X");
    assert!(matches!(all[0].status, TaskStatus::Todo));
    assert_eq!(all[0].created_at, all[0].updated_at);
    assert_eq!(all[0].created_at, ts(1234, 5));
}

#[test]
fn mark_same_status_is_byte_identical() {
    let mut d = TaskData::empty();
    d.add("X".to_string(), ts(1000, 0));
    let before = d.to_json();
    let o = d.update(0, Mutation::SetStatus(TaskStatus::Todo), ts(2000, 0));
    assert_eq!(o, Outcome::Unchanged);
    assert_eq!(before, d.to_json());
}

#[test]
fn rename_to_same_name_is_byte_identical() {
    let mut d = TaskData::empty();
    d.add("X".to_string(), ts(1000, 0));
    let before = d.to_json();
    let o = d.update(0, Mutation::Rename("X".to_string()), ts(2000, 0));
    assert_eq!(o, Outcome::Unchanged);
    assert_eq!(before, d.to_json());
}

#[test]
fn mark_new_status_bumps_and_persists() {
    let mut d = TaskData::empty();
    d.add("X".to_string(), ts(1000, 0));
    let o = d.update(0, Mutation::SetStatus(TaskStatus::Done), ts(2000, 7));
    assert_eq!(o, Outcome::Changed);
    let all = d.list(None);
    assert!(matches!(all[0].status, TaskStatus::Done));
    assert_eq!(all[0].updated_at, ts(2000, 7));
    assert_eq!(all[0].created_at, ts(1000, 0));
    let reloaded = TaskData::from_json(&d.to_json());
    assert!(matches!(reloaded.tasks[0].status, TaskStatus::Done));
    assert_eq!(reloaded.tasks[0].updated_at, ts(2000, 7));
}

#[test]
fn updated_at_never_moves_backwards() {
    let mut d = TaskData::empty();
    d.add("X".to_string(), ts(1000, 0));
    // the clock reads earlier than the task's stamps
    let o = d.update(0, Mutation::SetStatus(TaskStatus::Done), ts(500, 0));
    assert_eq!(o, Outcome::Changed);
    let all = d.list(None);
    assert_eq!(all[0].updated_at, ts(1000, 0));
}

#[test]
fn delete_missing_is_byte_identical() {
    let mut d = TaskData::empty();
    d.add("X".to_string(), ts(1000, 0));
    let before = d.to_json();
    assert_eq!(d.delete(42), Outcome::NotFound);
    assert_eq!(before, d.to_json());
}

#[test]
fn delete_removes_exactly_one_and_keeps_order() {
    let mut d = TaskData::empty();
    let t = ts(1000, 0);
    d.add("a".to_string(), t);
    d.add("b".to_string(), t);
    d.add("c".to_string(), t);
    assert_eq!(d.delete(1), Outcome::Changed);
    let all = d.list(None);
    assert_eq!(all.len(), 2);
    assert_eq!(all[0].name, "a");
    assert_eq!(all[0].id, 0);
    assert_eq!(all[1].name, "c");
    assert_eq!(all[1].id, 2);
    assert_eq!(d.id_counter, 3);
}

#[test]
fn list_done_is_the_done_subset_in_order() {
    let mut d = TaskData::empty();
    let t = ts(1000, 0);
    d.add("a".to_string(), t);
    d.add("b".to_string(), t);
    d.add("c".to_string(), t);
    d.add("e".to_string(), t);
    d.update(1, Mutation::SetStatus(TaskStatus::Done), t);
    d.update(3, Mutation::SetStatus(TaskStatus::Done), t);
    d.update(2, Mutation::SetStatus(TaskStatus::InProgress), t);
    let all = d.list(None);
    let done = d.list(Some(TaskStatus::Done));
    let expected: Vec<&Task> =
        all.iter().filter(|t| matches!(t.status, TaskStatus::Done)).collect();
    assert_eq!(done.len(), expected.len());
    assert_eq!(done.len(), 2);
    for (got, want) in done.iter().zip(expected.iter()) {
        assert!(task_eq(got, want));
    }
    assert_eq!(done[0].name, "b");
    assert_eq!(done[1].name, "e");
}

#[test]
fn update_missing_reports_not_found() {
    let mut d = TaskData::empty();
    d.add("a".to_string(), ts(1000, 0));
    assert_eq!(
        d.update(9, Mutation::SetStatus(TaskStatus::Done), ts(2000, 0)),
        Outcome::NotFound
    );
    assert_eq!(d.update(9, Mutation::Rename("z".to_string()), ts(2000, 0)), Outcome::NotFound);
}

#[test]
fn rename_changes_name_and_stamp() {
    let mut d = TaskData::empty();
    d.add("old".to_string(), ts(1000, 0));
    let o = d.update(0, Mutation::Rename("new".to_string()), ts(3000, 0));
    assert_eq!(o, Outcome::Changed);
    let all = d.list(None);
    assert_eq!(all[0].name, "new");
    assert_eq!(all[0].updated_at, ts(3000, 0));
}

#[test]
fn save_then_load_round_trips() {
    let mut d = TaskData::empty();
    d.add("plain".to_string(), ts(1000, 123_456_789));
    d.add("quotes \" and \\ slashes".to_string(), ts(2000, 0));
    d.add("control \n\t chars".to_string(), ts(253_402_300_799, 999_999_999));
    d.update(1, Mutation::SetStatus(TaskStatus::InProgress), ts(2500, 1));
    let text = d.to_json();
    let back = TaskData::load_from(Some(&text));
    assert_eq!(back.id_counter, d.id_counter);
    assert_eq!(back.tasks.len(), d.tasks.len());
    for (got, want) in back.tasks.iter().zip(d.tasks.iter()) {
        assert!(task_eq(got, want));
    }
    assert_eq!(back.to_json(), text);
}

#[test]
fn round_trip_with_the_real_clock() {
    let mut d = TaskData::empty();
    let t = task_tracker::time::now();
    assert!(t.check_wf());
    d.add("clocked".to_string(), t);
    let back = TaskData::from_json(&d.to_json());
    assert_eq!(back.tasks.len(), 1);
    assert!(task_eq(&back.tasks[0], &d.tasks[0]));
}

#[test]
fn awkward_names_round_trip() {
    let mut d = TaskData::empty();
    let t = ts(1000, 0);
    d.add(String::new(), t);
    d.add("日本語 ü é 🚀".to_string(), t);
    d.add("{\"id\": 7, \"tasks\": []}".to_string(), t);
    d.add("\u{1f}\u{0}mixed\u{7f}".to_string(), t);
    let text = d.to_json();
    let back = TaskData::from_json(&text);
    assert_eq!(back.tasks.len(), 4);
    for (got, want) in back.tasks.iter().zip(d.tasks.iter()) {
        assert!(task_eq(got, want));
    }
    let v: serde_json::Value = serde_json::from_str(&text).unwrap();
    assert_eq!(v["tasks"][1]["name"].as_str().unwrap(), "日本語 ü é 🚀");
}

#[test]
fn missing_or_corrupt_documents_load_empty() {
    let none = TaskData::load_from(None);
    assert_eq!(none.tasks.len(), 0);
    assert_eq!(none.id_counter, 0);
    for bad in ["", "garbage", "{}", "{\"tasks\": [], \"id_counter\": 0}", "[1,2,3]"] {
        let d = TaskData::from_json(bad);
        assert_eq!(d.tasks.len(), 0);
        assert_eq!(d.id_counter, 0);
    }
    // a truncated canonical document
    let mut d = TaskData::empty();
    d.add("X".to_string(), ts(1000, 0));
    let text = d.to_json();
    let cut = &text[..text.len() - 2];
    let back = TaskData::from_json(cut);
    assert_eq!(back.tasks.len(), 0);
}

#[test]
fn invariant_breaking_document_loads_empty() {
    let mut d = TaskData::empty();
    d.add("X".to_string(), ts(1000, 0));
    let text = d.to_json();
    // claim a counter at or below an existing id
    let forged = text.replace("\"id_counter\": 1", "\"id_counter\": 0");
    assert_ne!(forged, text);
    let back = TaskData::from_json(&forged);
    assert_eq!(back.tasks.len(), 0);
    assert_eq!(back.id_counter, 0);
}
