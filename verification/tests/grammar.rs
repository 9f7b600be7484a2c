use todotxt_sync::date::Date;
use todotxt_sync::tags::DescriptionPart;
use todotxt_sync::todo::Todo;

#[test]
fn test_tag_escape() {
    const PRJ: &str = "testprj";
    const CTX: &str = "testctx";
    const DATAK: &str = "test";
    const DATAV: &str = "data";
    let mut todo = Todo::new(false, None, None, None, "Test".into()).unwrap();
    todo.append_tag(&DescriptionPart::Project(PRJ.to_string()));
    todo.append_tag(&DescriptionPart::Context(CTX.to_string()));
    todo.append_tag(&DescriptionPart::Data(DATAK.to_string(), DATAV.to_string()));
    let escaped = Todo::new(
        false,
        None,
        None,
        None,
        Todo::escape_description(&todo.description),
    )
    .unwrap();
    assert_eq!(
        escaped.find_meta().len(),
        0,
        "Escaped description shouldn't return any meta"
    );
    for s in [PRJ, CTX, DATAK, DATAV] {
        assert!(
            escaped.description.find(s).is_some(),
            "Escaped description should still contain '{}'",
            s
        );
    }
}

#[test]
fn date_formats_zero_padded() {
    let d = Date::new(2024, 1, 5).unwrap();
    assert_eq!(d.format(), "2024-01-05");
    assert_eq!(Date::parse("2024-01-05").unwrap(), d);
}

#[test]
fn date_rejects_out_of_range() {
    assert!(Date::parse("2024-13-05").is_err());
    assert!(Date::parse("2024-00-05").is_err());
    assert!(Date::parse("2024-01-32").is_err());
    assert!(Date::parse("20240105").is_err());
    assert!(Date::parse("2024-01").is_err());
    assert!(Date::parse("abcd-ef-gh").is_err());
    assert!(Date::new(10000, 1, 1).is_err());
}

#[test]
fn parse_full_line() {
    let t = Todo::parse("x (A) 2020-03-04 2020-03-01 Do it +prj @ctx id:7").unwrap();
    assert!(t.done);
    assert_eq!(t.priority, Some('A'));
    assert_eq!(t.completed, Some(Date::new(2020, 3, 4).unwrap()));
    assert_eq!(t.created, Some(Date::new(2020, 3, 1).unwrap()));
    assert_eq!(t.description, "Do it +prj @ctx id:7");
}

#[test]
fn parse_minimal_line() {
    let t = Todo::parse("just a task").unwrap();
    assert!(!t.done);
    assert_eq!(t.priority, None);
    assert_eq!(t.created, None);
    assert_eq!(t.completed, None);
    assert_eq!(t.description, "just a task");
}

#[test]
fn parse_single_date_is_creation() {
    let t = Todo::parse("2021-12-31 year end").unwrap();
    assert_eq!(t.created, Some(Date::new(2021, 12, 31).unwrap()));
    assert_eq!(t.completed, None);
    assert_eq!(t.description, "year end");
}

#[test]
fn parse_rejects_completion_on_pending() {
    assert!(Todo::parse("2024-01-05 2024-01-04 stuff").is_err());
}

#[test]
fn completion_flag_accepts_any_whitespace() {
    let t = Todo::parse("x\tdone with a tab").unwrap();
    assert!(t.done);
    assert_eq!(t.description, "done with a tab");
    let t = Todo::parse("xnot a flag").unwrap();
    assert!(!t.done);
    assert_eq!(t.description, "xnot a flag");
}

#[test]
fn parse_priority_needs_trailing_whitespace() {
    let t = Todo::parse("(A)x").unwrap();
    assert_eq!(t.priority, None);
    assert_eq!(t.description, "(A)x");
    let t = Todo::parse("(a) x").unwrap();
    assert_eq!(t.priority, None);
    assert_eq!(t.description, "(a) x");
}

#[test]
fn serialize_emits_present_parts() {
    let t = Todo::new(
        false,
        Some('B'),
        Some(Date::new(2024, 1, 5).unwrap()),
        None,
        "hello".to_string(),
    )
    .unwrap();
    assert_eq!(t.serialize(), "(B) 2024-01-05 hello");
    let done = Todo::new(
        true,
        None,
        Some(Date::new(2024, 1, 4).unwrap()),
        Some(Date::new(2024, 1, 5).unwrap()),
        "done thing".to_string(),
    )
    .unwrap();
    assert_eq!(done.serialize(), "x 2024-01-05 2024-01-04 done thing");
}

#[test]
fn serialize_then_parse_round_trips() {
    let cases = vec![
        Todo::new(false, None, None, None, "plain".to_string()).unwrap(),
        Todo::new(true, Some('Z'), None, None, "flagged".to_string()).unwrap(),
        Todo::new(
            true,
            Some('A'),
            Some(Date::new(2020, 3, 1).unwrap()),
            Some(Date::new(2020, 3, 4).unwrap()),
            "full +p @c id:3".to_string(),
        )
        .unwrap(),
        Todo::new(false, None, None, None, "".to_string()).unwrap(),
    ];
    for t in cases {
        let line = t.serialize();
        let back = Todo::parse(&line).unwrap();
        assert_eq!(back, t, "round trip through {:?}", line);
    }
}

#[test]
fn new_rejects_completion_without_creation() {
    assert!(Todo::new(
        true,
        None,
        None,
        Some(Date::new(2024, 1, 5).unwrap()),
        "bad".to_string()
    )
    .is_err());
}

#[test]
fn find_meta_extracts_in_order() {
    let t = Todo::new(
        false,
        None,
        None,
        None,
        "fix +proj thing @home due:2024-01-05".to_string(),
    )
    .unwrap();
    let parts = t.find_meta();
    assert_eq!(
        parts,
        vec![
            DescriptionPart::Project("proj".to_string()),
            DescriptionPart::Context("home".to_string()),
            DescriptionPart::Data("due".to_string(), "2024-01-05".to_string()),
        ]
    );
}

#[test]
fn tag_stops_at_last_word_character() {
    let t = Todo::new(false, None, None, None, "see +ab) end".to_string()).unwrap();
    assert_eq!(
        t.find_meta(),
        vec![DescriptionPart::Project("ab".to_string())]
    );
}

#[test]
fn tag_needs_word_character_after_head() {
    let t = Todo::new(false, None, None, None, "odd +))) k:((( @!".to_string()).unwrap();
    assert_eq!(t.find_meta(), vec![]);
}

#[test]
fn data_value_may_contain_colons() {
    let t = Todo::new(false, None, None, None, "a:b:c".to_string()).unwrap();
    assert_eq!(
        t.find_meta(),
        vec![DescriptionPart::Data("a".to_string(), "b:c".to_string())]
    );
}

#[test]
fn tag_must_start_a_token() {
    let t = Todo::new(false, None, None, None, "not-a@tag mid+dle".to_string()).unwrap();
    assert_eq!(t.find_meta(), vec![]);
}

#[test]
fn get_data_returns_first_match() {
    let t = Todo::new(false, None, None, None, "a id:1 id:2".to_string()).unwrap();
    assert_eq!(t.get_data("id"), Some("1".to_string()));
    assert_eq!(t.get_data("missing"), None);
}

#[test]
fn has_context_and_project() {
    let t = Todo::new(false, None, None, None, "task @gitlab +work".to_string()).unwrap();
    assert!(t.has_context("gitlab"));
    assert!(!t.has_context("home"));
    assert!(t.has_project("work"));
    assert!(!t.has_project("play"));
}

#[test]
fn escape_neutralizes_each_head() {
    assert_eq!(Todo::escape_description("note k:v"), "note k\\:v");
    assert_eq!(Todo::escape_description("@ctx"), "\\@ctx");
    assert_eq!(Todo::escape_description("+prj x"), "\\+prj x");
    assert_eq!(Todo::escape_description("plain text"), "plain text");
    assert_eq!(Todo::escape_description(""), "");
}

#[test]
fn escaped_text_yields_no_meta() {
    for desc in [
        "a:1 b:2 @x +y",
        "x +many @tags key:value in one line",
        "already \\@escaped",
    ] {
        let escaped = Todo::escape_description(desc);
        let t = Todo::new(false, None, None, None, escaped).unwrap();
        assert_eq!(t.find_meta(), vec![], "for {:?}", desc);
    }
}

#[test]
fn append_tag_whitespace_rules() {
    let mut t = Todo::new(false, None, None, None, "".to_string()).unwrap();
    t.append_tag(&DescriptionPart::Project("p".to_string()));
    assert_eq!(t.description, "+p");
    let mut t = Todo::new(false, None, None, None, "body ".to_string()).unwrap();
    t.append_tag(&DescriptionPart::Context("c".to_string()));
    assert_eq!(t.description, "body @c");
    let mut t = Todo::new(false, None, None, None, "body".to_string()).unwrap();
    t.append_tag(&DescriptionPart::Data("k".to_string(), "v".to_string()));
    assert_eq!(t.description, "body k:v");
}

#[test]
fn description_part_parse_and_render() {
    assert_eq!(
        DescriptionPart::parse("@ctx").unwrap(),
        DescriptionPart::Context("ctx".to_string())
    );
    assert_eq!(
        DescriptionPart::parse("+prj").unwrap(),
        DescriptionPart::Project("prj".to_string())
    );
    assert_eq!(
        DescriptionPart::parse("k:v").unwrap(),
        DescriptionPart::Data("k".to_string(), "v".to_string())
    );
    assert!(DescriptionPart::parse("noseparator").is_err());
    assert_eq!(
        DescriptionPart::Data("k".to_string(), "v".to_string()).render(),
        "k:v"
    );
    assert_eq!(DescriptionPart::Project("p".to_string()).render(), "+p");
    assert_eq!(DescriptionPart::Context("c".to_string()).render(), "@c");
}
