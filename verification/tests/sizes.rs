use asm_state::bigint::BigInt;
use asm_state::diagn::{Report, Span};
use asm_state::expr::Value;
use asm_state::ruleset::PatternParameterType;
use asm_state::state::State;

fn span(start: usize) -> Span {
    Span { file: 0, start, end: start + 1 }
}

fn num(n: i64) -> BigInt {
    let mut bits = Vec::new();
    for i in 0..64 {
        bits.push((n >> i) & 1 == 1);
    }
    BigInt { bits, size: None }
}

fn size_of(value: &Value) -> Option<usize> {
    match value {
        Value::Integer(n) => n.size,
        _ => panic!("not an integer"),
    }
}

fn fits(typ: PatternParameterType, size: usize, n: i64) -> bool {
    let mut report = Report::new();
    let mut value = Value::Integer(num(n));
    let r = State::check_and_constrain_argument(&mut value, typ, &mut report, span(1));
    assert_eq!(r.is_err(), report.has_errors());
    assert_eq!(size_of(&value), if r.is_ok() { Some(size) } else { None });
    r.is_ok()
}

#[test]
fn unsigned_arguments() {
    let typ = PatternParameterType::Unsigned(8);
    assert!(fits(typ, 8, 0));
    assert!(fits(typ, 8, 255));
    assert!(!fits(typ, 8, 256));
    assert!(!fits(typ, 8, -1));
    assert!(!fits(PatternParameterType::Unsigned(0), 0, 0));
    assert!(!fits(PatternParameterType::Unsigned(0), 0, 1));
    assert!(fits(PatternParameterType::Unsigned(1), 1, 1));
}

#[test]
fn signed_arguments() {
    let typ = PatternParameterType::Signed(8);
    assert!(fits(typ, 8, 0));
    assert!(fits(typ, 8, 127));
    assert!(!fits(typ, 8, 128));
    assert!(fits(typ, 8, -128));
    assert!(!fits(typ, 8, -129));
    assert!(!fits(PatternParameterType::Signed(0), 0, 0));
    assert!(!fits(PatternParameterType::Signed(0), 0, -1));
    assert!(fits(PatternParameterType::Signed(1), 1, 0));
    assert!(fits(PatternParameterType::Signed(1), 1, -1));
    assert!(!fits(PatternParameterType::Signed(1), 1, 1));
}

#[test]
fn integer_arguments() {
    let typ = PatternParameterType::Integer(8);
    assert!(fits(typ, 8, 255));
    assert!(!fits(typ, 8, 256));
    assert!(fits(typ, 8, -128));
    assert!(!fits(typ, 8, -129));
    assert!(!fits(PatternParameterType::Integer(0), 0, 0));
}

#[test]
fn arguments_out_of_range_are_reported() {
    let types = [
        (PatternParameterType::Unsigned(4), "argument out of range for type `u4`"),
        (PatternParameterType::Signed(10), "argument out of range for type `s10`"),
        (PatternParameterType::Integer(16), "argument out of range for type `i16`"),
    ];
    for (typ, text) in types {
        let mut report = Report::new();
        let mut value = Value::Integer(num(1 << 40));
        let r = State::check_and_constrain_argument(&mut value, typ, &mut report, span(4));
        assert_eq!(r, Err(()));
        assert_eq!(report.messages.len(), 1);
        assert_eq!(report.messages[0].descr, text);
        assert_eq!(report.messages[0].span, span(4));
    }
}

#[test]
fn arguments_of_another_kind_are_reported() {
    let types = [
        (PatternParameterType::Unsigned(4), "wrong argument for type `u4`"),
        (PatternParameterType::Signed(10), "wrong argument for type `s10`"),
        (PatternParameterType::Integer(16), "wrong argument for type `i16`"),
    ];
    for (typ, text) in types {
        let mut report = Report::new();
        let mut value = Value::Bool(true);
        let r = State::check_and_constrain_argument(&mut value, typ, &mut report, span(4));
        assert_eq!(r, Err(()));
        assert_eq!(report.messages[0].descr, text);
        assert!(matches!(value, Value::Bool(true)));
    }
}

#[test]
fn unspecified_arguments_are_passed_as_they_are() {
    let mut report = Report::new();
    let typ = PatternParameterType::Unspecified;
    let mut value = Value::Integer(num(-5));
    assert!(State::check_and_constrain_argument(&mut value, typ, &mut report, span(4)).is_ok());
    assert_eq!(size_of(&value), None);
    let mut value = Value::Void;
    assert!(State::check_and_constrain_argument(&mut value, typ, &mut report, span(4)).is_ok());
    assert!(!report.has_errors());
}

#[test]
fn data_elements_take_the_size_of_the_directive() {
    let mut report = Report::new();
    let mut value = Value::Integer(num(3));
    State::constrain_data_element(&mut value, Some(8), &mut report, span(1));
    assert_eq!(size_of(&value), Some(8));
    assert!(!report.has_errors());

    let mut value = Value::Integer(num(3));
    State::constrain_data_element(&mut value, None, &mut report, span(1));
    assert_eq!(size_of(&value), None);

    let mut value = Value::Bool(false);
    State::constrain_data_element(&mut value, Some(8), &mut report, span(1));
    assert!(matches!(value, Value::Bool(false)));
    assert!(!report.has_errors());
}

#[test]
fn data_elements_that_are_too_large_are_cut_and_reported() {
    let mut report = Report::new();
    let mut value = Value::Integer(num(256));
    State::constrain_data_element(&mut value, Some(8), &mut report, span(1));
    assert_eq!(size_of(&value), Some(8));
    assert_eq!(
        report.messages[0].descr,
        "value size (= 9) is larger than the directive size (= 8)"
    );

    let mut wide = num(1);
    wide.size = Some(32);
    let mut value = Value::Integer(wide);
    State::constrain_data_element(&mut value, Some(16), &mut report, span(2));
    assert_eq!(size_of(&value), Some(16));
    assert_eq!(
        report.messages[1].descr,
        "value size (= 32) is larger than the directive size (= 16)"
    );
    assert_eq!(report.messages[1].span, span(2));
}

#[test]
fn accepted_arguments_have_different_bits() {
    let types = [
        (PatternParameterType::Unsigned(3), 0..8),
        (PatternParameterType::Signed(3), -4..4),
    ];
    for (typ, range) in types {
        let mut seen: Vec<Vec<bool>> = Vec::new();
        for n in range {
            assert!(fits(typ, 3, n));
            let b = num(n);
            let bits: Vec<bool> = (0..3).map(|i| b.get_bit(i)).collect();
            assert!(!seen.contains(&bits));
            seen.push(bits);
        }
        assert_eq!(seen.len(), 8);
    }
}
