use asm_state::diagn::{Message, Note, Report, Span};

fn span(start: usize) -> Span {
    Span { file: 0, start, end: start + 1 }
}

#[test]
fn a_new_report_has_no_errors() {
    assert!(!Report::new().has_errors());
}

#[test]
fn errors_are_kept_in_order() {
    let mut report = Report::new();
    report.error_span("first", span(1));
    report.error_span("second", span(2));
    assert!(report.has_errors());
    assert_eq!(report.messages.len(), 2);
    assert_eq!(report.messages[0].descr, "first");
    assert_eq!(report.messages[0].span, span(1));
    assert_eq!(report.messages[1].descr, "second");
}

#[test]
fn open_notes_enclose_errors() {
    let mut report = Report::new();
    report.push_parent("outer", span(1));
    report.push_parent("inner", span(2));
    report.error_span("deep", span(3));
    report.pop_parent();
    report.error_span("shallow", span(4));
    report.pop_parent();
    report.error_span("plain", span(5));
    let parents: Vec<Vec<String>> = report
        .messages
        .iter()
        .map(|m| m.parents.iter().map(|p| p.descr.clone()).collect())
        .collect();
    assert_eq!(parents[0], vec!["outer".to_string(), "inner".to_string()]);
    assert_eq!(parents[1], vec!["outer".to_string()]);
    assert!(parents[2].is_empty());
}

#[test]
fn transferred_messages_are_enclosed_too() {
    let mut inner = Report::new();
    inner.push_parent("note", span(1));
    inner.error_span("deep", span(2));
    let mut outer = Report::new();
    outer.error_span("before", span(3));
    outer.push_parent("outer", span(4));
    inner.transfer_to(&mut outer);
    assert_eq!(outer.messages.len(), 2);
    assert_eq!(outer.messages[1].descr, "deep");
    assert_eq!(outer.messages[1].parents.len(), 2);
    assert_eq!(outer.messages[1].parents[0].descr, "outer");
    assert_eq!(outer.messages[1].parents[1].descr, "note");
}

#[test]
fn absorbing_keeps_the_order() {
    let mut report = Report::new();
    let mut messages = Vec::new();
    for i in 0..3 {
        messages.push(Message {
            descr: format!("m{}", i),
            span: span(i),
            parents: vec![Note { descr: "p".to_string(), span: span(9) }],
        });
    }
    report.absorb(messages);
    let texts: Vec<&str> = report.messages.iter().map(|m| m.descr.as_str()).collect();
    assert_eq!(texts, vec!["m0", "m1", "m2"]);
    assert_eq!(report.messages[2].parents.len(), 1);
}
