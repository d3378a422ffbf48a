use mysqldump_quick_xml::assembler::is_eof;
use mysqldump_quick_xml::{
    assemble, ErrorKind, Event, Mode, ParseError, RowAssembler, Schema, Step, TagAttribute,
};

fn schema(names: &[&str]) -> Schema {
    Schema::new(names.iter().map(|n| n.as_bytes().to_vec()).collect())
}

fn row(values: &[&str]) -> Vec<String> {
    values.iter().map(|v| v.to_string()).collect()
}

fn pair(key: &str, value: &str) -> TagAttribute {
    TagAttribute::Pair { key: key.as_bytes().to_vec(), value: value.as_bytes().to_vec() }
}

fn start(name: &str, attributes: Vec<TagAttribute>) -> Event {
    Event::Start { name: name.as_bytes().to_vec(), attributes }
}

fn field(name: &str) -> Event {
    start("field", vec![pair("name", name)])
}

fn end(name: &str) -> Event {
    Event::End { name: name.as_bytes().to_vec() }
}

fn text(content: &str) -> Event {
    Event::Text { decoded: Some(content.to_string()) }
}

fn bad_text() -> Event {
    Event::Text { decoded: None }
}

fn steps(events: Vec<Event>) -> Vec<Step> {
    events
        .into_iter()
        .enumerate()
        .map(|(i, event)| Step { event, offset: 10 * (i + 1) })
        .collect()
}

fn run(names: &[&str], events: Vec<Event>) -> Result<Vec<Vec<String>>, ParseError> {
    assemble(&schema(names), &steps(events))
}

#[test]
fn events_of_two_rows() {
    let events = vec![
        start("resultset", vec![]),
        start("row", vec![]),
        field("id"),
        text("1"),
        end("field"),
        field("name"),
        text("Alice"),
        end("field"),
        end("row"),
        start("row", vec![]),
        field("id"),
        text("2"),
        end("field"),
        end("row"),
        end("resultset"),
        Event::Eof,
    ];
    assert_eq!(run(&["id", "name"], events).unwrap(), vec![row(&["1", "Alice"]), row(&["2", ""])]);
}

#[test]
fn no_events_no_rows() {
    assert_eq!(run(&["id"], vec![]).unwrap(), Vec::<Vec<String>>::new());
    assert_eq!(run(&["id"], vec![Event::Eof]).unwrap(), Vec::<Vec<String>>::new());
}

#[test]
fn events_may_run_out_without_end_of_input() {
    let events = vec![field("id"), text("1"), end("field"), end("row"), field("id"), text("2")];
    assert_eq!(run(&["id"], events).unwrap(), vec![row(&["1"])]);
}

#[test]
fn nothing_after_the_end_of_input_is_read() {
    let events = vec![end("row"), Event::Eof, end("row"), Event::Malformed];
    assert_eq!(run(&["id"], events).unwrap(), vec![row(&[""])]);
}

#[test]
fn row_end_emits_even_without_row_start() {
    let events = vec![end("row"), end("row"), Event::Eof];
    assert_eq!(run(&["a", "b"], events).unwrap(), vec![row(&["", ""]), row(&["", ""])]);
}

#[test]
fn later_text_overwrites_earlier_text() {
    let events = vec![field("id"), text("a"), Event::Other, text("b"), text("c"), end("field"), end("row")];
    assert_eq!(run(&["id"], events).unwrap(), vec![row(&["c"])]);
}

#[test]
fn value_persists_after_the_field_closes() {
    let events = vec![field("id"), text("a"), end("field"), text("dropped"), field("id"), end("field"), end("row")];
    assert_eq!(run(&["id"], events).unwrap(), vec![row(&["a"])]);
}

#[test]
fn swapped_field_elements_give_the_same_rows() {
    let one = vec![field("a"), text("1"), end("field"), field("b"), text("2"), end("field"), end("row")];
    let other = vec![field("b"), text("2"), end("field"), field("a"), text("1"), end("field"), end("row")];
    assert_eq!(run(&["a", "b"], one).unwrap(), vec![row(&["1", "2"])]);
    assert_eq!(run(&["a", "b"], other).unwrap(), vec![row(&["1", "2"])]);
}

#[test]
fn swapped_field_elements_of_one_name_differ() {
    let one = vec![field("a"), text("1"), end("field"), field("a"), text("2"), end("field"), end("row")];
    let other = vec![field("a"), text("2"), end("field"), field("a"), text("1"), end("field"), end("row")];
    assert_eq!(run(&["a"], one).unwrap(), vec![row(&["2"])]);
    assert_eq!(run(&["a"], other).unwrap(), vec![row(&["1"])]);
}

#[test]
fn unknown_field_element_changes_nothing() {
    let with = vec![field("a"), text("1"), end("field"), field("zz"), text("9"), bad_text(), end("field"), end("row")];
    let without = vec![field("a"), text("1"), end("field"), end("row")];
    assert_eq!(run(&["a"], with).unwrap(), run(&["a"], without.clone()).unwrap());
    assert_eq!(run(&["a"], without).unwrap(), vec![row(&["1"])]);
}

#[test]
fn nameless_field_element_changes_nothing() {
    let with = vec![
        start("field", vec![]),
        text("9"),
        end("field"),
        start("field", vec![pair("type", "name")]),
        bad_text(),
        end("field"),
        field("a"),
        text("1"),
        end("field"),
        end("row"),
    ];
    assert_eq!(run(&["a"], with).unwrap(), vec![row(&["1"])]);
}

#[test]
fn start_of_another_element_keeps_the_field_open() {
    let events = vec![field("a"), start("b", vec![]), text("1"), end("b"), end("field"), end("row")];
    assert_eq!(run(&["a"], events).unwrap(), vec![row(&["1"])]);
}

#[test]
fn first_name_attribute_is_the_name() {
    let events = vec![
        start("field", vec![pair("x", "a"), pair("name", "b"), pair("name", "a")]),
        text("1"),
        end("field"),
        end("row"),
    ];
    assert_eq!(run(&["a", "b"], events).unwrap(), vec![row(&["", "1"])]);
}

#[test]
fn unreadable_token_fails_at_its_offset() {
    let events = vec![field("a"), text("1"), end("field"), end("row"), Event::Malformed, end("row")];
    assert_eq!(
        run(&["a"], events).unwrap_err(),
        ParseError { offset: 50, kind: ErrorKind::MalformedMarkup }
    );
}

#[test]
fn unreadable_attribute_before_name_fails_at_the_tag() {
    let events = vec![
        end("row"),
        start("field", vec![pair("x", "1"), TagAttribute::Malformed, pair("name", "a")]),
        end("row"),
    ];
    assert_eq!(
        run(&["a"], events).unwrap_err(),
        ParseError { offset: 20, kind: ErrorKind::MalformedMarkup }
    );
}

#[test]
fn unreadable_attribute_after_name_is_ignored() {
    let events = vec![
        start("field", vec![pair("name", "a"), TagAttribute::Malformed]),
        text("1"),
        end("field"),
        end("row"),
    ];
    assert_eq!(run(&["a"], events).unwrap(), vec![row(&["1"])]);
}

#[test]
fn unreadable_attribute_outside_field_tags_is_ignored() {
    let events = vec![start("row", vec![TagAttribute::Malformed]), end("row")];
    assert_eq!(run(&["a"], events).unwrap(), vec![row(&[""])]);
}

#[test]
fn undecodable_text_fails_only_in_a_known_field() {
    let outside = vec![bad_text(), end("row")];
    assert_eq!(run(&["a"], outside).unwrap(), vec![row(&[""])]);
    let inside = vec![end("row"), field("a"), text("ok"), bad_text(), end("field"), end("row")];
    assert_eq!(
        run(&["a"], inside).unwrap_err(),
        ParseError { offset: 40, kind: ErrorKind::InvalidText }
    );
}

#[test]
fn first_failure_is_reported() {
    let events = vec![field("a"), bad_text(), Event::Malformed];
    assert_eq!(
        run(&["a"], events).unwrap_err(),
        ParseError { offset: 20, kind: ErrorKind::InvalidText }
    );
}

#[test]
fn assembler_walks_through_its_states() {
    let schema = schema(&["a", "b"]);
    let mut assembler = RowAssembler::new(&schema);
    assert_eq!(assembler.mode(), Mode::Idle);
    assert!(!assembler.expects_text());
    assert_eq!(assembler.row_count(), 0);

    assert_eq!(assembler.start_field(&vec![pair("name", "b")], 1), Ok(()));
    assert_eq!(assembler.mode(), Mode::InField(1));
    assert!(assembler.expects_text());
    assert_eq!(assembler.text(Some("x".to_string()), 2), Ok(()));
    assert_eq!(
        assembler.text(None, 3),
        Err(ParseError { offset: 3, kind: ErrorKind::InvalidText })
    );
    assert_eq!(assembler.mode(), Mode::InField(1));
    assembler.end_field();
    assert_eq!(assembler.mode(), Mode::Idle);

    assert_eq!(assembler.start_field(&vec![pair("name", "c")], 4), Ok(()));
    assert_eq!(assembler.mode(), Mode::InUnknownField);
    assert!(!assembler.expects_text());
    assert_eq!(assembler.text(None, 5), Ok(()));
    assert_eq!(
        assembler.start_field(&vec![TagAttribute::Malformed], 6),
        Err(ParseError { offset: 6, kind: ErrorKind::MalformedMarkup })
    );
    assert_eq!(assembler.mode(), Mode::InUnknownField);

    assembler.end_row();
    assert_eq!(assembler.mode(), Mode::Idle);
    assert_eq!(assembler.row_count(), 1);
    assembler.end_row();
    assert_eq!(assembler.into_rows(), vec![row(&["", "x"]), row(&["", ""])]);
}

#[test]
fn feed_takes_any_event() {
    let schema = schema(&["a"]);
    let mut assembler = RowAssembler::new(&schema);
    let events = steps(vec![
        start("row", vec![]),
        field("a"),
        text("1"),
        Event::Other,
        Event::Eof,
        end("other"),
        end("field"),
        end("row"),
    ]);
    for event in &events {
        assert_eq!(assembler.feed(event), Ok(()));
    }
    assert_eq!(
        assembler.feed(&Step { event: Event::Malformed, offset: 7 }),
        Err(ParseError { offset: 7, kind: ErrorKind::MalformedMarkup })
    );
    assert_eq!(assembler.into_rows(), vec![row(&["1"])]);
}

#[test]
fn only_eof_is_the_end_of_input() {
    assert!(is_eof(&Event::Eof));
    assert!(!is_eof(&Event::Malformed));
    assert!(!is_eof(&Event::Other));
    assert!(!is_eof(&end("row")));
}
