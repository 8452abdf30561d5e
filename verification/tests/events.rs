use pyyaml_rust::event::{Event, Mark, PyEvent};
use pyyaml_rust::stream::parse_rust;

fn origin() -> Mark {
    Mark::new(0, 0, 0)
}

fn stream_start(encoding: Option<&str>) -> Event {
    Event::StreamStart { start_mark: origin(), end_mark: origin(), encoding: encoding.map(|s| s.to_string()) }
}

fn stream_end() -> Event {
    Event::StreamEnd { start_mark: origin(), end_mark: origin() }
}

fn doc_start(explicit: bool) -> Event {
    Event::DocumentStart { start_mark: origin(), end_mark: origin(), explicit, version: None, tags: None }
}

fn doc_end() -> Event {
    Event::DocumentEnd { start_mark: origin(), end_mark: origin(), explicit: false }
}

fn map_start() -> Event {
    Event::MappingStart { anchor: None, tag: None, implicit: true, start_mark: origin(), end_mark: origin(), flow_style: false }
}

fn map_end() -> Event {
    Event::MappingEnd { start_mark: origin(), end_mark: origin() }
}

fn seq_start() -> Event {
    Event::SequenceStart { anchor: None, tag: None, implicit: true, start_mark: origin(), end_mark: origin(), flow_style: false }
}

fn seq_end() -> Event {
    Event::SequenceEnd { start_mark: origin(), end_mark: origin() }
}

fn scalar(value: &str) -> Event {
    tagged(value, None)
}

fn tagged(value: &str, tag: Option<&str>) -> Event {
    Event::Scalar {
        anchor: None,
        tag: tag.map(|t| t.to_string()),
        implicit: (true, false),
        value: value.to_string(),
        start_mark: origin(),
        end_mark: origin(),
        style: None,
    }
}

fn at_origin(e: Event) -> Event {
    let o = origin();
    match e {
        Event::StreamStart { encoding, .. } => Event::StreamStart { start_mark: o, end_mark: o, encoding },
        Event::StreamEnd { .. } => Event::StreamEnd { start_mark: o, end_mark: o },
        Event::DocumentStart { explicit, version, tags, .. } => {
            Event::DocumentStart { start_mark: o, end_mark: o, explicit, version, tags }
        }
        Event::DocumentEnd { explicit, .. } => Event::DocumentEnd { start_mark: o, end_mark: o, explicit },
        Event::Alias { anchor, .. } => Event::Alias { anchor, start_mark: o, end_mark: o },
        Event::Scalar { anchor, tag, implicit, value, style, .. } => {
            Event::Scalar { anchor, tag, implicit, value, start_mark: o, end_mark: o, style }
        }
        Event::SequenceStart { anchor, tag, implicit, flow_style, .. } => {
            Event::SequenceStart { anchor, tag, implicit, start_mark: o, end_mark: o, flow_style }
        }
        Event::SequenceEnd { .. } => Event::SequenceEnd { start_mark: o, end_mark: o },
        Event::MappingStart { anchor, tag, implicit, flow_style, .. } => {
            Event::MappingStart { anchor, tag, implicit, start_mark: o, end_mark: o, flow_style }
        }
        Event::MappingEnd { .. } => Event::MappingEnd { start_mark: o, end_mark: o },
    }
}

/// The events of `text`, with their marks set aside.
fn events_of(text: &str) -> Vec<Event> {
    parse_rust(text).into_iter().map(|e: PyEvent| at_origin(e.event)).collect()
}

/// The events of `text`, marks included.
fn marked_events_of(text: &str) -> Vec<Event> {
    parse_rust(text).into_iter().map(|e: PyEvent| e.event).collect()
}

fn in_stream(body: Vec<Event>) -> Vec<Event> {
    let mut v = vec![stream_start(Some("utf-8"))];
    v.extend(body);
    v.push(stream_end());
    v
}

#[test]
fn key_value_document() {
    assert_eq!(
        events_of("key: value"),
        in_stream(vec![doc_start(false), map_start(), scalar("key"), scalar("value"), map_end(), doc_end()])
    );
}

#[test]
fn empty_text_gives_empty_document() {
    let expected = vec![stream_start(None), doc_start(false), doc_end(), stream_end()];
    assert_eq!(events_of(""), expected);
    assert_eq!(events_of("  \n\t\r\n "), expected);
}

#[test]
fn comments_only_give_stream_without_documents() {
    assert_eq!(events_of("# just a comment\n\n"), in_stream(vec![]));
}

#[test]
fn comments_and_blank_lines_are_skipped() {
    assert_eq!(
        events_of("# header\n\nname: demo\n  # note\n"),
        in_stream(vec![doc_start(false), map_start(), scalar("name"), scalar("demo"), map_end(), doc_end()])
    );
}

#[test]
fn single_scalar_document() {
    assert_eq!(events_of("  hello world  "), in_stream(vec![doc_start(false), scalar("hello world"), doc_end()]));
}

#[test]
fn two_plain_lines_give_empty_document_content() {
    assert_eq!(events_of("hello\nworld"), in_stream(vec![doc_start(false), doc_end()]));
}

#[test]
fn top_level_sequence_with_tags() {
    assert_eq!(
        events_of("- a\n- !!int 3\n- \n- 'q'"),
        in_stream(vec![
            doc_start(false),
            seq_start(),
            scalar("a"),
            tagged("3", Some("tag:yaml.org,2002:int")),
            scalar("q"),
            seq_end(),
            doc_end(),
        ])
    );
}

#[test]
fn nested_mapping() {
    assert_eq!(
        events_of("outer:\n  inner: v\n  other: w\nnext: x"),
        in_stream(vec![
            doc_start(false),
            map_start(),
            scalar("outer"),
            map_start(),
            scalar("inner"),
            scalar("v"),
            scalar("other"),
            scalar("w"),
            map_end(),
            scalar("next"),
            scalar("x"),
            map_end(),
            doc_end(),
        ])
    );
}

#[test]
fn nested_sequence() {
    assert_eq!(
        events_of("list:\n  - a\n  - \"b\"\nend: 1"),
        in_stream(vec![
            doc_start(false),
            map_start(),
            scalar("list"),
            seq_start(),
            scalar("a"),
            scalar("b"),
            seq_end(),
            scalar("end"),
            scalar("1"),
            map_end(),
            doc_end(),
        ])
    );
}

#[test]
fn key_without_nested_block_gets_empty_value() {
    assert_eq!(
        events_of("a:\nb: 2"),
        in_stream(vec![doc_start(false), map_start(), scalar("a"), scalar(""), scalar("b"), scalar("2"), map_end(), doc_end()])
    );
    assert_eq!(events_of("a:"), in_stream(vec![doc_start(false), map_start(), scalar("a"), scalar(""), map_end(), doc_end()]));
}

#[test]
fn key_over_plain_lines_gets_empty_value() {
    assert_eq!(
        events_of("a:\n  just text"),
        in_stream(vec![doc_start(false), map_start(), scalar("a"), scalar(""), map_end(), doc_end()])
    );
}

#[test]
fn quoted_key_and_tagged_value() {
    assert_eq!(
        events_of("'k': !!bool true"),
        in_stream(vec![
            doc_start(false),
            map_start(),
            scalar("k"),
            tagged("true", Some("tag:yaml.org,2002:bool")),
            map_end(),
            doc_end(),
        ])
    );
}

#[test]
fn multiple_documents() {
    assert_eq!(
        events_of("a: 1\n---\nb: 2\n--- \n--- title: t\nmore: m"),
        in_stream(vec![
            doc_start(false),
            map_start(),
            scalar("a"),
            scalar("1"),
            map_end(),
            doc_end(),
            doc_start(true),
            map_start(),
            scalar("b"),
            scalar("2"),
            map_end(),
            doc_end(),
            doc_start(true),
            map_start(),
            scalar("title"),
            scalar("t"),
            scalar("more"),
            scalar("m"),
            map_end(),
            doc_end(),
        ])
    );
}

#[test]
fn text_after_separator_is_document_content() {
    assert_eq!(events_of("--- foo"), in_stream(vec![doc_start(true), scalar("foo"), doc_end()]));
    assert_eq!(
        events_of("x\n--- - a\n- b"),
        in_stream(vec![
            doc_start(false),
            scalar("x"),
            doc_end(),
            doc_start(true),
            seq_start(),
            scalar("a"),
            scalar("b"),
            seq_end(),
            doc_end(),
        ])
    );
    assert_eq!(events_of("--- # note"), in_stream(vec![]));
}

#[test]
fn marks_of_text_after_separator() {
    let evs = marked_events_of("--- foo");
    let at = mk(0, 4, 4);
    assert_eq!(
        evs[1],
        Event::DocumentStart { start_mark: at, end_mark: at, explicit: true, version: None, tags: None }
    );
    assert_eq!(evs[2], sc("foo", None, at, mk(0, 7, 7)));
}

#[test]
fn marks_of_an_empty_value() {
    let evs = marked_events_of("key:  \nz: 1");
    assert_eq!(evs[4], sc("", None, mk(0, 4, 4), mk(0, 4, 4)));
}

#[test]
fn leading_separator_makes_first_document_explicit() {
    assert_eq!(
        events_of("---\nkey: v"),
        in_stream(vec![doc_start(true), map_start(), scalar("key"), scalar("v"), map_end(), doc_end()])
    );
}

#[test]
fn separator_needs_space_after_dashes() {
    assert_eq!(
        events_of("----\na: 1"),
        in_stream(vec![doc_start(false), map_start(), scalar("a"), scalar("1"), map_end(), doc_end()])
    );
}

#[test]
fn crlf_line_endings() {
    assert_eq!(
        events_of("a:\r\n  b: c\r\n"),
        in_stream(vec![
            doc_start(false),
            map_start(),
            scalar("a"),
            map_start(),
            scalar("b"),
            scalar("c"),
            map_end(),
            map_end(),
            doc_end(),
        ])
    );
}

#[test]
fn indentation_counts_bytes() {
    // U+3000 takes three bytes in UTF-8, so the two-space line is not nested.
    assert_eq!(
        events_of("\u{3000}k:\n  - x"),
        in_stream(vec![doc_start(false), map_start(), scalar("k"), scalar(""), map_end(), doc_end()])
    );
    // Three bytes of indentation are deeper than two.
    assert_eq!(
        events_of("  k:\n\u{3000}- x"),
        in_stream(vec![doc_start(false), map_start(), scalar("k"), seq_start(), scalar("x"), seq_end(), map_end(), doc_end()])
    );
}

#[test]
fn lone_quote_is_kept() {
    assert_eq!(
        events_of("key: '"),
        in_stream(vec![doc_start(false), map_start(), scalar("key"), scalar("'"), map_end(), doc_end()])
    );
    assert_eq!(
        events_of("\" : v"),
        in_stream(vec![doc_start(false), map_start(), scalar("\""), scalar("v"), map_end(), doc_end()])
    );
    assert_eq!(
        events_of("- \""),
        in_stream(vec![doc_start(false), seq_start(), scalar("\""), seq_end(), doc_end()])
    );
    assert_eq!(
        events_of("k: !!str '"),
        in_stream(vec![
            doc_start(false),
            map_start(),
            scalar("k"),
            tagged("'", Some("tag:yaml.org,2002:str")),
            map_end(),
            doc_end(),
        ])
    );
}

#[test]
fn lone_quote_document_scalar_is_kept() {
    assert_eq!(events_of("'"), in_stream(vec![doc_start(false), scalar("'"), doc_end()]));
}

#[test]
fn stream_is_framed_and_nested() {
    let evs = events_of("a:\n  - 1\n  - 2\nb:\n  c: d\n---\n- e");
    assert!(matches!(evs.first(), Some(Event::StreamStart { .. })));
    assert!(matches!(evs.last(), Some(Event::StreamEnd { .. })));
    let mut stack: Vec<u8> = Vec::new();
    for e in &evs {
        match e {
            Event::StreamStart { .. } => stack.push(0),
            Event::DocumentStart { .. } => stack.push(1),
            Event::MappingStart { .. } => stack.push(2),
            Event::SequenceStart { .. } => stack.push(3),
            Event::StreamEnd { .. } => assert_eq!(stack.pop(), Some(0)),
            Event::DocumentEnd { .. } => assert_eq!(stack.pop(), Some(1)),
            Event::MappingEnd { .. } => assert_eq!(stack.pop(), Some(2)),
            Event::SequenceEnd { .. } => assert_eq!(stack.pop(), Some(3)),
            _ => {}
        }
    }
    assert!(stack.is_empty());
}

fn mk(line: usize, column: usize, index: usize) -> Mark {
    Mark::new(line, column, index)
}

fn sc(value: &str, tag: Option<&str>, s: Mark, e: Mark) -> Event {
    Event::Scalar {
        anchor: None,
        tag: tag.map(|t| t.to_string()),
        implicit: (true, false),
        value: value.to_string(),
        start_mark: s,
        end_mark: e,
        style: None,
    }
}

#[test]
fn marks_of_a_two_line_mapping() {
    let o = origin();
    let end = mk(1, 4, 9);
    assert_eq!(
        marked_events_of("a: 1\nb: 2"),
        vec![
            Event::StreamStart { start_mark: o, end_mark: o, encoding: Some("utf-8".to_string()) },
            Event::DocumentStart { start_mark: o, end_mark: o, explicit: false, version: None, tags: None },
            Event::MappingStart { anchor: None, tag: None, implicit: true, start_mark: o, end_mark: o, flow_style: false },
            sc("a", None, mk(0, 0, 0), mk(0, 1, 1)),
            sc("1", None, mk(0, 3, 3), mk(0, 4, 4)),
            sc("b", None, mk(1, 0, 5), mk(1, 1, 6)),
            sc("2", None, mk(1, 3, 8), mk(1, 4, 9)),
            Event::MappingEnd { start_mark: end, end_mark: end },
            Event::DocumentEnd { start_mark: end, end_mark: end, explicit: false },
            Event::StreamEnd { start_mark: end, end_mark: end },
        ]
    );
}

#[test]
fn marks_of_a_nested_sequence() {
    let o = origin();
    let item_line_end = mk(1, 5, 8);
    assert_eq!(
        marked_events_of("k:\n  - x\n"),
        vec![
            Event::StreamStart { start_mark: o, end_mark: o, encoding: Some("utf-8".to_string()) },
            Event::DocumentStart { start_mark: o, end_mark: o, explicit: false, version: None, tags: None },
            Event::MappingStart { anchor: None, tag: None, implicit: true, start_mark: o, end_mark: o, flow_style: false },
            sc("k", None, mk(0, 0, 0), mk(0, 1, 1)),
            Event::SequenceStart {
                anchor: None,
                tag: None,
                implicit: true,
                start_mark: mk(1, 2, 5),
                end_mark: mk(1, 2, 5),
                flow_style: false,
            },
            sc("x", None, mk(1, 4, 7), mk(1, 5, 8)),
            Event::SequenceEnd { start_mark: item_line_end, end_mark: item_line_end },
            Event::MappingEnd { start_mark: item_line_end, end_mark: item_line_end },
            Event::DocumentEnd { start_mark: item_line_end, end_mark: item_line_end, explicit: false },
            Event::StreamEnd { start_mark: mk(2, 0, 9), end_mark: mk(2, 0, 9) },
        ]
    );
}

#[test]
fn marks_of_two_documents() {
    let o = origin();
    let second = mk(2, 0, 6);
    let last = mk(2, 5, 11);
    assert_eq!(
        marked_events_of("a\n---\n- 'q'"),
        vec![
            Event::StreamStart { start_mark: o, end_mark: o, encoding: Some("utf-8".to_string()) },
            Event::DocumentStart { start_mark: o, end_mark: o, explicit: false, version: None, tags: None },
            sc("a", None, mk(0, 0, 0), mk(0, 1, 1)),
            Event::DocumentEnd { start_mark: mk(0, 1, 1), end_mark: mk(0, 1, 1), explicit: false },
            Event::DocumentStart { start_mark: second, end_mark: second, explicit: true, version: None, tags: None },
            Event::SequenceStart { anchor: None, tag: None, implicit: true, start_mark: second, end_mark: second, flow_style: false },
            sc("q", None, mk(2, 2, 8), mk(2, 5, 11)),
            Event::SequenceEnd { start_mark: last, end_mark: last },
            Event::DocumentEnd { start_mark: last, end_mark: last, explicit: false },
            Event::StreamEnd { start_mark: last, end_mark: last },
        ]
    );
}

#[test]
fn marks_of_a_tagged_value_span_the_tag() {
    let evs = marked_events_of("v: !!int 3");
    assert_eq!(evs[4], sc("3", Some("tag:yaml.org,2002:int"), mk(0, 3, 3), mk(0, 10, 10)));
}

#[test]
fn marks_count_characters() {
    // "é" is one character: the value starts at column 3.
    let evs = marked_events_of("é: x");
    assert_eq!(evs[3], sc("é", None, mk(0, 0, 0), mk(0, 1, 1)));
    assert_eq!(evs[4], sc("x", None, mk(0, 3, 3), mk(0, 4, 4)));
}

/// Walks `evs` and checks that inside every mapping keys and values
/// alternate: a key is a scalar, and each key is followed by one value node.
fn mappings_are_paired(evs: &[Event]) -> bool {
    // For each open region: is it a mapping, and is a key awaited next.
    let mut open: Vec<(bool, bool)> = Vec::new();
    for e in evs {
        let key_awaited = matches!(open.last(), Some((true, true)));
        match e {
            Event::MappingStart { .. } | Event::SequenceStart { .. } => {
                if key_awaited {
                    return false;
                }
                if let Some(top) = open.last_mut() {
                    if top.0 {
                        top.1 = !top.1;
                    }
                }
                open.push((matches!(e, Event::MappingStart { .. }), true));
            }
            Event::MappingEnd { .. } | Event::SequenceEnd { .. } => match open.pop() {
                Some((_, true)) => {}
                _ => return false,
            },
            Event::Scalar { .. } => {
                if let Some(top) = open.last_mut() {
                    if top.0 {
                        top.1 = !top.1;
                    }
                }
            }
            _ => {}
        }
    }
    open.is_empty()
}

#[test]
fn every_mapping_holds_key_value_pairs() {
    for text in [
        "a:",
        "a:\nb: 1\nc:\n  d:\n  e: 2\nf:\n  - x\n  - y\ng:\n  plain",
        "--- k:\n---\n- a: 1\n  b:\n",
        "top:\n  mid:\n    low:\n",
    ] {
        let evs = events_of(text);
        assert!(mappings_are_paired(&evs), "{}", text);
    }
    let mut bad = events_of("a: 1");
    bad.remove(3);
    assert!(!mappings_are_paired(&bad));
}
