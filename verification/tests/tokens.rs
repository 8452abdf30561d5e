use pyyaml_rust::event::{Event, Mark, PyEvent};
use pyyaml_rust::stream::parse_rust;
use pyyaml_rust::token::{extract_token_value, token_span_valid};

#[test]
fn token_text_is_trimmed() {
    assert_eq!(extract_token_value(0, 7, "  abc  rest"), "abc".to_string());
    assert_eq!(extract_token_value(7, 11, "  abc  rest"), "rest".to_string());
}

#[test]
fn token_outside_text_is_empty() {
    assert_eq!(extract_token_value(3, 5, "abc"), String::new());
    assert_eq!(extract_token_value(1, 9, "abc"), String::new());
    assert_eq!(extract_token_value(2, 2, "abc"), String::new());
    assert_eq!(extract_token_value(2, 1, "abc"), String::new());
}

#[test]
fn token_positions_count_bytes() {
    // "é" takes two bytes.
    assert_eq!(extract_token_value(1, 3, "aé b"), "é".to_string());
    assert_eq!(extract_token_value(3, 5, "aé b"), "b".to_string());
}

#[test]
fn token_inside_a_character_is_empty() {
    assert_eq!(extract_token_value(2, 4, "aé b"), String::new());
    assert_eq!(extract_token_value(0, 2, "aé b"), String::new());
    assert_eq!(extract_token_value(0, 1, "é"), String::new());
}

#[test]
fn token_span_validity() {
    assert!(token_span_valid(1, 3, "aé b"));
    assert!(!token_span_valid(2, 4, "aé b"));
    assert!(!token_span_valid(3, 3, "aé b"));
    assert!(!token_span_valid(3, 9, "aé b"));
}

#[test]
fn cloned_event_is_equal() {
    let e = PyEvent {
        event: Event::Scalar {
            anchor: Some("a".to_string()),
            tag: None,
            implicit: (true, false),
            value: "v".to_string(),
            start_mark: Mark::new(1, 1, 1),
            end_mark: Mark::new(2, 2, 2),
            style: Some('\''),
        },
    };
    assert_eq!(e.clone(), e);
}

#[test]
fn scalars_are_pieces_of_the_text() {
    let text = "a: 'x'\nlist:\n  - !!int 4\n  - \" y \"\n---\nplain scalar";
    let evs = parse_rust(text);
    let mut seen = 0;
    for e in &evs {
        if let Event::Scalar { value, tag, .. } = &e.event {
            seen += 1;
            assert!(text.contains(value.as_str()));
            if let Some(t) = tag {
                let piece = t.strip_prefix("tag:yaml.org,2002:").unwrap();
                assert!(text.contains(piece));
            }
        }
    }
    assert_eq!(seen, 6);
}
