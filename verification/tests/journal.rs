use rusty_journal::cli::{find_default_journal_file, resolve_journal_file};
use rusty_journal::codec::collect_tasks;
use rusty_journal::errors::JournalError;
use rusty_journal::journal::{add_task, complete_task, list_tasks, render_line};
use rusty_journal::task::Task;

fn task(text: &str, created_at: i64) -> Task {
    Task { text: text.to_string(), created_at }
}

fn texts(contents: &str) -> Vec<String> {
    collect_tasks(contents).unwrap().into_iter().map(|t| t.text).collect()
}

#[test]
fn add_to_empty_text_creates_single_entry() {
    let out = add_task("", task("buy milk", 1)).unwrap();
    assert_eq!(out, "[{\"text\":\"buy milk\",\"created_at\":1}]");
}

#[test]
fn add_then_collect_round_trip_preserves_order_and_times() {
    let mut contents = String::new();
    let wanted = [("buy milk", 11), ("walk the dog", 22), ("water the plants", 33)];
    for (text, stamp) in wanted {
        contents = add_task(&contents, task(text, stamp)).unwrap();
    }
    let parsed = collect_tasks(&contents).unwrap();
    assert_eq!(parsed.len(), 3);
    for (p, (text, stamp)) in parsed.iter().zip(wanted.iter()) {
        assert_eq!(p.text, *text);
        assert_eq!(p.created_at, *stamp);
    }
}

#[test]
fn add_rejects_malformed_contents() {
    let r = add_task("not json", task("a", 0));
    assert_eq!(r.unwrap_err(), JournalError::MalformedJson);
}

#[test]
fn done_boundary_positions_are_invalid() {
    let mut contents = String::new();
    for text in ["a", "b", "c"] {
        contents = add_task(&contents, task(text, 0)).unwrap();
    }
    assert_eq!(complete_task(&contents, 0).unwrap_err(), JournalError::InvalidPosition);
    assert_eq!(complete_task(&contents, 4).unwrap_err(), JournalError::InvalidPosition);
}

#[test]
fn done_removes_and_shifts_positions() {
    let mut contents = String::new();
    for text in ["A", "B", "C"] {
        contents = add_task(&contents, task(text, 0)).unwrap();
    }
    contents = complete_task(&contents, 2).unwrap();
    assert_eq!(texts(&contents), ["A", "C"]);
    contents = complete_task(&contents, 2).unwrap();
    assert_eq!(texts(&contents), ["A"]);
}

#[test]
fn done_on_empty_list_is_invalid_position() {
    assert_eq!(complete_task("[]", 1).unwrap_err(), JournalError::InvalidPosition);
}

#[test]
fn done_rejects_malformed_contents() {
    assert_eq!(complete_task("[oops", 1).unwrap_err(), JournalError::MalformedJson);
}

#[test]
fn list_empty_journal_prints_notice() {
    assert_eq!(list_tasks("").unwrap(), "Task list is empty!\n");
    assert_eq!(list_tasks("[]").unwrap(), "Task list is empty!\n");
}

#[test]
fn list_rejects_malformed_contents() {
    assert_eq!(list_tasks("[[").unwrap_err(), JournalError::MalformedJson);
}

#[test]
fn list_numbers_and_pads_entries() {
    let mut contents = String::new();
    contents = add_task(&contents, task("buy milk", 0)).unwrap();
    contents = add_task(&contents, task("rest", 0)).unwrap();
    let listing = list_tasks(&contents).unwrap();
    let lines: Vec<&str> = listing.split_inclusive('\n').collect();
    assert_eq!(lines.len(), 2);
    let pad = " ".repeat(42);
    assert!(lines[0].starts_with(&format!("1: buy milk{} [", pad)));
    assert!(lines[0].ends_with("]\n"));
    assert!(lines[1].starts_with(&format!("2: rest{} [", " ".repeat(46))));
    assert!(lines[1].ends_with("]\n"));
}

#[test]
fn list_does_not_change_the_contents() {
    let mut contents = String::new();
    contents = add_task(&contents, task("keep me", 5)).unwrap();
    let before = contents.clone();
    let first = list_tasks(&contents).unwrap();
    let second = list_tasks(&contents).unwrap();
    assert_eq!(contents, before);
    assert_eq!(first, second);
    assert_eq!(texts(&contents), ["keep me"]);
}

#[test]
fn render_line_lays_out_position_text_and_time() {
    let line = render_line(3, &task("x", 0), "2001-02-03 04:05");
    assert_eq!(line, format!("3: x{} [2001-02-03 04:05]\n", " ".repeat(49)));
}

#[test]
fn render_line_keeps_long_text_unpadded() {
    let long = "y".repeat(60);
    let line = render_line(12, &task(&long, 0), "t");
    assert_eq!(line, format!("12: {} [t]\n", long));
}

#[test]
fn default_journal_file_hangs_off_home() {
    let r = find_default_journal_file(Some("/home/someone".to_string()));
    assert_eq!(r.unwrap(), "/home/someone/.rusty-journal.json");
    assert_eq!(find_default_journal_file(None), None);
}

#[test]
fn explicit_journal_path_wins_over_home() {
    let r = resolve_journal_file(Some("/tmp/j.json".to_string()), Some("/home/x".to_string()));
    assert_eq!(r.unwrap(), "/tmp/j.json");
    let r = resolve_journal_file(None, Some("/home/x".to_string()));
    assert_eq!(r.unwrap(), "/home/x/.rusty-journal.json");
    assert_eq!(resolve_journal_file(None, None), None);
}

#[test]
fn new_task_keeps_its_text() {
    let t = Task::new("remember".to_string());
    assert_eq!(t.text, "remember");
}

#[test]
fn error_messages_name_the_failure() {
    assert_eq!(JournalError::InvalidPosition.message(), "invalid task position");
    assert_eq!(JournalError::MalformedJson.message(), "journal file holds malformed data");
    assert_eq!(JournalError::FileNotFound.message(), "journal file not found");
    assert_eq!(JournalError::PermissionDenied.message(), "permission denied");
    assert_eq!(
        JournalError::HomeNotFound.message(),
        "no home directory to put the journal in"
    );
}

#[test]
fn list_succeeds_across_the_renderable_range() {
    for secs in [-8334601228800i64, 0, 8210266876799] {
        let contents = add_task("", task("edge", secs)).unwrap();
        let listing = list_tasks(&contents).unwrap();
        assert!(listing.starts_with("1: edge"));
    }
}

#[test]
fn list_rejects_times_no_calendar_represents() {
    for secs in [-8334601228801i64, 8210266876800, i64::MIN, i64::MAX] {
        let contents = add_task("", task("far", secs)).unwrap();
        assert_eq!(list_tasks(&contents).unwrap_err(), JournalError::MalformedJson);
    }
}

#[test]
fn default_path_adds_no_second_separator() {
    let r = find_default_journal_file(Some("/home/u/".to_string()));
    assert_eq!(r.unwrap(), "/home/u/.rusty-journal.json");
    let r = find_default_journal_file(Some("/".to_string()));
    assert_eq!(r.unwrap(), "/.rusty-journal.json");
}

#[test]
fn default_path_for_empty_home_is_relative() {
    let r = find_default_journal_file(Some(String::new()));
    assert_eq!(r.unwrap(), ".rusty-journal.json");
}
