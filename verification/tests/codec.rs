use rusty_journal::codec::{collect_tasks, serialize_tasks};
use rusty_journal::errors::JournalError;
use rusty_journal::task::Task;

fn task(text: &str, created_at: i64) -> Task {
    Task { text: text.to_string(), created_at }
}

#[test]
fn serialize_empty_list() {
    let tasks: Vec<Task> = Vec::new();
    assert_eq!(serialize_tasks(&tasks), "[]");
}

#[test]
fn serialize_one_task() {
    let tasks = vec![task("buy milk", 1)];
    assert_eq!(serialize_tasks(&tasks), "[{\"text\":\"buy milk\",\"created_at\":1}]");
}

#[test]
fn serialize_two_tasks() {
    let tasks = vec![task("a", 10), task("b", 20)];
    assert_eq!(
        serialize_tasks(&tasks),
        "[{\"text\":\"a\",\"created_at\":10},{\"text\":\"b\",\"created_at\":20}]"
    );
}

#[test]
fn serialize_escapes_specials() {
    let tasks = vec![task("a\"b\\c\nd\te\u{1}f", 0)];
    assert_eq!(
        serialize_tasks(&tasks),
        "[{\"text\":\"a\\\"b\\\\c\\nd\\te\\u0001f\",\"created_at\":0}]"
    );
}

#[test]
fn serialize_control_chars_as_hex() {
    let tasks = vec![task("\u{8}\u{c}\r\u{1f}", 0)];
    assert_eq!(
        serialize_tasks(&tasks),
        "[{\"text\":\"\\b\\f\\r\\u001f\",\"created_at\":0}]"
    );
}

#[test]
fn serialize_negative_timestamp() {
    let tasks = vec![task("old", -5)];
    assert_eq!(serialize_tasks(&tasks), "[{\"text\":\"old\",\"created_at\":-5}]");
}

#[test]
fn serialize_keeps_unicode_text_raw() {
    let tasks = vec![task("caf\u{e9} \u{1f600}", 7)];
    assert_eq!(
        serialize_tasks(&tasks),
        "[{\"text\":\"caf\u{e9} \u{1f600}\",\"created_at\":7}]"
    );
}

#[test]
fn parse_empty_text_means_empty_list() {
    let parsed = collect_tasks("").unwrap();
    assert!(parsed.is_empty());
}

#[test]
fn parse_empty_array() {
    let parsed = collect_tasks("[]").unwrap();
    assert!(parsed.is_empty());
}

#[test]
fn parse_one_task() {
    let parsed = collect_tasks("[{\"text\":\"buy milk\",\"created_at\":1}]").unwrap();
    assert_eq!(parsed.len(), 1);
    assert_eq!(parsed[0].text, "buy milk");
    assert_eq!(parsed[0].created_at, 1);
}

#[test]
fn parse_unicode_escape() {
    let parsed = collect_tasks("[{\"text\":\"\\u0041\",\"created_at\":0}]").unwrap();
    assert_eq!(parsed[0].text, "A");
}

#[test]
fn parse_serialize_round_trip() {
    let tasks = vec![
        task("plain", 1),
        task("wei\u{df} \"quoted\"", -42),
        task("tabs\tand\nnewlines\u{2} end", 9223372036854775807),
        task("", i64::MIN),
    ];
    let text = serialize_tasks(&tasks);
    let parsed = collect_tasks(&text).unwrap();
    assert_eq!(parsed.len(), tasks.len());
    for (p, t) in parsed.iter().zip(tasks.iter()) {
        assert_eq!(p.text, t.text);
        assert_eq!(p.created_at, t.created_at);
    }
}

#[test]
fn parse_extreme_timestamps() {
    let parsed =
        collect_tasks("[{\"text\":\"a\",\"created_at\":9223372036854775807}]").unwrap();
    assert_eq!(parsed[0].created_at, i64::MAX);
    let parsed =
        collect_tasks("[{\"text\":\"a\",\"created_at\":-9223372036854775808}]").unwrap();
    assert_eq!(parsed[0].created_at, i64::MIN);
}

#[test]
fn parse_rejects_out_of_range_timestamp() {
    let r = collect_tasks("[{\"text\":\"a\",\"created_at\":9223372036854775808}]");
    assert_eq!(r.unwrap_err(), JournalError::MalformedJson);
    let r = collect_tasks("[{\"text\":\"a\",\"created_at\":-9223372036854775809}]");
    assert_eq!(r.unwrap_err(), JournalError::MalformedJson);
}

#[test]
fn parse_rejects_malformed_text() {
    for bad in [
        "{",
        "nonsense",
        "[",
        "[{}]",
        "[{\"text\":\"a\",\"created_at\":01}]",
        "[{\"text\":\"a\",\"created_at\":1}",
        "[{\"text\":\"a\",\"created_at\":1}]x",
        "[{\"text\":\"a\",\"created_at\":1},]",
        "[{\"text\":\"bad\\q\",\"created_at\":1}]",
        "[{\"text\":\"open",
    ] {
        let r = collect_tasks(bad);
        assert_eq!(r.unwrap_err(), JournalError::MalformedJson, "input: {}", bad);
    }
}

#[test]
fn serialized_text_is_json_serde_can_read() {
    let tasks = vec![task("hello \"world\"\n", 99), task("two", -3)];
    let text = serialize_tasks(&tasks);
    let value: serde_json::Value = serde_json::from_str(&text).unwrap();
    let arr = value.as_array().unwrap();
    assert_eq!(arr.len(), 2);
    assert_eq!(arr[0].get("text").unwrap().as_str().unwrap(), "hello \"world\"\n");
    assert_eq!(arr[0].get("created_at").unwrap().as_i64().unwrap(), 99);
    assert_eq!(arr[1].get("text").unwrap().as_str().unwrap(), "two");
    assert_eq!(arr[1].get("created_at").unwrap().as_i64().unwrap(), -3);
}

#[test]
fn structural_characters_inside_text_round_trip() {
    let tasks = vec![task("a,b]c}d{e[f:g", 3)];
    let text = serialize_tasks(&tasks);
    let parsed = collect_tasks(&text).unwrap();
    assert_eq!(parsed[0].text, "a,b]c}d{e[f:g");
    assert_eq!(parsed[0].created_at, 3);
}

#[test]
fn parse_accepts_escaped_slash() {
    let parsed = collect_tasks("[{\"text\":\"a\\/b\",\"created_at\":0}]").unwrap();
    assert_eq!(parsed[0].text, "a/b");
}

#[test]
fn parse_rejects_surrogate_escape() {
    let r = collect_tasks("[{\"text\":\"\\ud800\",\"created_at\":0}]");
    assert_eq!(r.unwrap_err(), JournalError::MalformedJson);
}

#[test]
fn parse_accepts_whitespace_between_tokens() {
    let parsed =
        collect_tasks(" [ {\"text\" : \"a\" , \"created_at\" : 1} ,\n\t{ \"text\":\"b\",\"created_at\":2 } ]\r\n")
            .unwrap();
    assert_eq!(parsed.len(), 2);
    assert_eq!(parsed[0].text, "a");
    assert_eq!(parsed[0].created_at, 1);
    assert_eq!(parsed[1].text, "b");
    assert_eq!(parsed[1].created_at, 2);
}

#[test]
fn parse_accepts_members_in_either_order() {
    let parsed = collect_tasks("[{\"created_at\":7,\"text\":\"swapped\"}]").unwrap();
    assert_eq!(parsed[0].text, "swapped");
    assert_eq!(parsed[0].created_at, 7);
}

#[test]
fn parse_blank_text_means_empty_list() {
    assert!(collect_tasks("   \n\t ").unwrap().is_empty());
    assert!(collect_tasks("[ ]  ").unwrap().is_empty());
}

#[test]
fn parse_pretty_printed_journal() {
    let pretty = "[\n  {\n    \"text\": \"a\",\n    \"created_at\": 1\n  }\n]\n";
    let parsed = collect_tasks(pretty).unwrap();
    assert_eq!(parsed.len(), 1);
    assert_eq!(parsed[0].text, "a");
}

#[test]
fn parse_accepts_negative_zero() {
    let parsed = collect_tasks("[{\"text\":\"a\",\"created_at\":-0}]").unwrap();
    assert_eq!(parsed[0].created_at, 0);
}

#[test]
fn parse_accepts_uppercase_hex_escape() {
    let parsed = collect_tasks("[{\"text\":\"\\u004A\\u004b\",\"created_at\":0}]").unwrap();
    assert_eq!(parsed[0].text, "JK");
}

#[test]
fn parse_accepts_surrogate_pair_escape() {
    let parsed =
        collect_tasks("[{\"text\":\"\\ud83d\\ude00!\",\"created_at\":0}]").unwrap();
    assert_eq!(parsed[0].text, "\u{1f600}!");
}

#[test]
fn parse_rejects_unpaired_surrogates() {
    for bad in [
        "[{\"text\":\"\\ud83d\",\"created_at\":0}]",
        "[{\"text\":\"\\ud83dx\",\"created_at\":0}]",
        "[{\"text\":\"\\ud83d\\u0041\",\"created_at\":0}]",
        "[{\"text\":\"\\ude00\",\"created_at\":0}]",
    ] {
        let r = collect_tasks(bad);
        assert_eq!(r.unwrap_err(), JournalError::MalformedJson, "input: {}", bad);
    }
}
