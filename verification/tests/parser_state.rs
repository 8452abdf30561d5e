use pyyaml_rust::event::PyEvent;
use pyyaml_rust::parser::{Parser, ParserError};
use pyyaml_rust::stream::parse_rust;

#[test]
fn queries_need_a_scanner() {
    let mut p = Parser::new();
    assert_eq!(p.check_event(), Err(ParserError::NoScannerSet));
    assert!(p.peek_event().is_err());
    assert!(p.get_event().is_err());
}

#[test]
fn events_come_one_by_one_after_set_scanner() {
    let text = "key: value\nlist:\n  - a";
    let expected: Vec<PyEvent> = parse_rust(text);
    let mut p = Parser::default();
    p.set_scanner(text);
    let mut got: Vec<PyEvent> = Vec::new();
    while p.check_event() == Ok(true) {
        let peeked = p.peek_event().unwrap().unwrap();
        let e = p.get_event().unwrap().unwrap();
        assert_eq!(peeked, e);
        got.push(e);
    }
    assert_eq!(got, expected);
    assert_eq!(p.check_event(), Ok(false));
    assert_eq!(p.peek_event(), Ok(None));
    assert_eq!(p.get_event(), Ok(None));
}

#[test]
fn dispose_detaches_the_scanner() {
    let mut p = Parser::new();
    p.set_scanner("a: 1");
    assert_eq!(p.check_event(), Ok(true));
    p.dispose();
    assert_eq!(p.check_event(), Err(ParserError::NoScannerSet));
}

#[test]
fn set_scanner_replaces_the_events() {
    let mut p = Parser::new();
    p.set_scanner("a: 1");
    let _ = p.get_event();
    p.set_scanner("");
    let mut n = 0;
    while let Ok(Some(_)) = p.get_event() {
        n += 1;
    }
    assert_eq!(n, 4);
}

#[test]
fn error_message() {
    assert_eq!(ParserError::NoScannerSet.message(), "No scanner set".to_string());
}
