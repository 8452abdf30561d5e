use pyyaml_rust::event::{create_empty_document_events, Event, Mark, PyEvent};
use pyyaml_rust::scalar::{clean_yaml_string, process_yaml_value};
use pyyaml_rust::text::is_whitespace_char;

#[test]
fn clean_removes_single_quotes() {
    assert_eq!(clean_yaml_string("'string'"), "string".to_string());
}

#[test]
fn clean_removes_double_quotes() {
    assert_eq!(clean_yaml_string("\"string\""), "string".to_string());
}

#[test]
fn clean_keeps_plain_text() {
    assert_eq!(clean_yaml_string("string"), "string".to_string());
    assert_eq!(clean_yaml_string("  padded \t"), "padded".to_string());
    assert_eq!(clean_yaml_string("'mixed\""), "'mixed\"".to_string());
    assert_eq!(clean_yaml_string(""), String::new());
}

#[test]
fn clean_removes_one_pair_only() {
    assert_eq!(clean_yaml_string("''x''"), "'x'".to_string());
    assert_eq!(clean_yaml_string("' x '"), " x ".to_string());
    assert_eq!(clean_yaml_string("''"), String::new());
}

#[test]
fn clean_keeps_lone_quote() {
    assert_eq!(clean_yaml_string("'"), "'".to_string());
    assert_eq!(clean_yaml_string("  \"  "), "\"".to_string());
}

#[test]
fn process_value_with_known_tag() {
    assert_eq!(
        process_yaml_value("!!bool true"),
        ("true".to_string(), Some("tag:yaml.org,2002:bool".to_string()))
    );
    assert_eq!(
        process_yaml_value("!!null ~"),
        ("~".to_string(), Some("tag:yaml.org,2002:null".to_string()))
    );
}

#[test]
fn process_value_with_custom_tag() {
    assert_eq!(
        process_yaml_value("  !!custom   'x y'  "),
        ("x y".to_string(), Some("tag:yaml.org,2002:custom".to_string()))
    );
}

#[test]
fn process_value_without_tag() {
    assert_eq!(process_yaml_value("hello"), ("hello".to_string(), None));
    assert_eq!(process_yaml_value("\"quoted\""), ("quoted".to_string(), None));
    assert_eq!(process_yaml_value("!!bool"), ("!!bool".to_string(), None));
    assert_eq!(process_yaml_value("!x y"), ("!x y".to_string(), None));
}

#[test]
fn process_value_keeps_lone_quote() {
    assert_eq!(process_yaml_value("'"), ("'".to_string(), None));
    assert_eq!(
        process_yaml_value("!!str \""),
        ("\"".to_string(), Some("tag:yaml.org,2002:str".to_string()))
    );
}

#[test]
fn whitespace_matches_std() {
    for v in 0u32..=0x10FFFF {
        if let Some(c) = char::from_u32(v) {
            assert_eq!(is_whitespace_char(c), c.is_whitespace(), "char {:x}", v);
        }
    }
}

#[test]
fn empty_document_events_at_origin() {
    let evs = create_empty_document_events();
    assert_eq!(evs.len(), 4);
    let o = Mark::new(0, 0, 0);
    assert_eq!(evs[0].event, Event::StreamStart { start_mark: o, end_mark: o, encoding: None });
    assert_eq!(
        evs[1].event,
        Event::DocumentStart { start_mark: o, end_mark: o, explicit: false, version: None, tags: None }
    );
    assert_eq!(evs[2].event, Event::DocumentEnd { start_mark: o, end_mark: o, explicit: false });
    assert_eq!(evs[3].event, Event::StreamEnd { start_mark: o, end_mark: o });
}

#[test]
fn event_marks() {
    let a = Mark::new(1, 2, 3);
    let b = Mark::new(4, 5, 6);
    let e = PyEvent { event: Event::Alias { anchor: "x".to_string(), start_mark: a, end_mark: b } };
    assert_eq!(e.start_mark(), a);
    assert_eq!(e.end_mark(), b);
    let s = PyEvent { event: Event::SequenceEnd { start_mark: b, end_mark: a } };
    assert_eq!(s.start_mark(), b);
    assert_eq!(s.end_mark(), a);
    assert_eq!(Mark::new(7, 8, 9), Mark { line: 7, column: 8, index: 9 });
}
