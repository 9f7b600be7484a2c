use todotxt_sync::codec::{read_records, render_records};
use todotxt_sync::config::{DonePolicy, SecretString};
use todotxt_sync::date::Date;
use todotxt_sync::error::Error;
use todotxt_sync::feed::feed_item_to_todo;
use todotxt_sync::todo::Todo;

#[test]
fn read_skips_blank_lines() {
    let todos = read_records("Task one\n\n   \nTask two\n").unwrap();
    assert_eq!(todos.len(), 2);
    assert_eq!(todos[0].description, "Task one");
    assert_eq!(todos[1].description, "Task two");
}

#[test]
fn read_strips_carriage_returns() {
    let todos = read_records("Task A\r\nTask B").unwrap();
    assert_eq!(todos.len(), 2);
    assert_eq!(todos[0].description, "Task A");
    assert_eq!(todos[1].description, "Task B");
}

#[test]
fn read_rejects_malformed_line() {
    assert!(read_records("fine\n2024-01-05 2024-01-04 bad\nfine too\n").is_err());
}

#[test]
fn write_terminates_every_line() {
    let todos = vec![
        Todo::new(false, None, None, None, "a".to_string()).unwrap(),
        Todo::new(true, None, None, None, "b".to_string()).unwrap(),
    ];
    assert_eq!(render_records(&todos), "a\nx b\n");
}

#[test]
fn write_then_read_round_trips() {
    let todos = vec![
        Todo::new(false, Some('A'), None, None, "first +p".to_string()).unwrap(),
        Todo::new(
            true,
            None,
            Some(Date::new(2024, 2, 3).unwrap()),
            Some(Date::new(2024, 2, 4).unwrap()),
            "second @c id:12".to_string(),
        )
        .unwrap(),
    ];
    let text = render_records(&todos);
    let back = read_records(&text).unwrap();
    assert_eq!(back, todos);
}

#[test]
fn feed_item_becomes_record() {
    let t = feed_item_to_todo(
        "Fix the build k:v",
        "Issue",
        "assigned",
        "2024-05-06T12:00:00Z",
        "2024-05-07T09:00:00Z",
        true,
        42,
        Some("grp/proj"),
        None,
        true,
        Some("gitlab"),
    )
    .unwrap();
    assert!(t.done);
    assert_eq!(t.created, Some(Date::new(2024, 5, 6).unwrap()));
    assert_eq!(t.completed, Some(Date::new(2024, 5, 7).unwrap()));
    assert_eq!(
        t.description,
        "[Issue:assigned] Fix the build k\\:v +grp/proj id:42 @gitlab"
    );
    assert_eq!(t.get_data("id"), Some("42".to_string()));
    assert!(t.has_context("gitlab"));
}

#[test]
fn feed_item_without_escaping() {
    let t = feed_item_to_todo(
        "keep k:v",
        "MergeRequest",
        "review_requested",
        "2023-01-02T00:00:00Z",
        "2023-01-03T00:00:00Z",
        false,
        7,
        None,
        Some("team"),
        false,
        None,
    )
    .unwrap();
    assert!(!t.done);
    assert_eq!(t.completed, None);
    assert_eq!(
        t.description,
        "[MergeRequest:review_requested] keep k:v +team id:7"
    );
}

#[test]
fn feed_item_rejects_bad_timestamp() {
    assert!(feed_item_to_todo(
        "b", "Issue", "a", "2024-05-06", "", false, 1, None, None, true, None
    )
    .is_err());
    assert!(feed_item_to_todo(
        "b",
        "Issue",
        "a",
        "not a date Tat all",
        "",
        false,
        1,
        None,
        None,
        true,
        None
    )
    .is_err());
}

#[test]
fn secret_string_renders_redacted() {
    let s = SecretString::new("glpat-SECRET-REDACTED".to_string());
    assert_eq!(s.display(), "**REDACTED**");
    assert_eq!(s.expose(), "glpat-SECRET-REDACTED");
}

#[test]
fn done_policy_defaults_to_mark() {
    assert_eq!(DonePolicy::default(), DonePolicy::Mark);
}

#[test]
fn error_messages_compose() {
    assert_eq!(Error::new("plain failure").message(), "plain failure");
    assert_eq!(
        Error::from_msg("reading config", "file missing").message(),
        "reading config: file missing"
    );
    assert_eq!(Error::from("file missing").message(), "file missing");
}
