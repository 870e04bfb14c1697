use asm_state::bigint::BigInt;
use asm_state::diagn::{Message, Report, Span};
use asm_state::eval::read_digits;
use asm_state::expr::{
    EvalContext, EvalFunctionInfo, EvalOutcome, EvalVariableInfo, Expr, Value,
};
use asm_state::host::{FileServer, Host, Outcome, ParseOutcome, Scope};
use asm_state::state::{BankRef, Context, State};
use asm_state::symbol::{Symbol, SymbolContext, SymbolManager};
use std::rc::Rc;

fn span(start: usize) -> Span {
    Span { file: 0, start, end: start + 1 }
}

fn to_usize(value: &Value) -> usize {
    match value {
        Value::Integer(b) => {
            let mut n: usize = 0;
            for i in 0..usize::BITS as usize {
                if b.get_bit(i) {
                    n |= 1 << i;
                }
            }
            n
        }
        _ => panic!("not an integer"),
    }
}

fn size_of(value: &Value) -> Option<usize> {
    match value {
        Value::Integer(b) => b.size,
        _ => panic!("not an integer"),
    }
}

fn num(n: usize) -> Value {
    Value::Integer(BigInt::from_usize(n))
}

fn ctx(bit_offset: usize, hierarchy: &[&str]) -> Context {
    Context {
        bit_offset,
        cur_wordsize: 8,
        bank_ref: BankRef { index: 0 },
        symbol_ctx: SymbolContext { hierarchy: names(hierarchy) },
        cur_filename: Rc::new("dir/main.asm".to_string()),
    }
}

fn names(list: &[&str]) -> Vec<String> {
    list.iter().map(|s| s.to_string()).collect()
}

fn symbols(list: &[(&[&str], usize)]) -> SymbolManager {
    let mut manager = SymbolManager::new();
    for (hierarchy, value) in list {
        manager.symbols.push(Symbol { hierarchy: names(hierarchy), value: num(*value) });
    }
    manager
}

fn var(level: usize, list: &[&str]) -> EvalVariableInfo {
    EvalVariableInfo { hierarchy_level: level, hierarchy: names(list), span: span(3) }
}

#[test]
fn the_address_has_two_names() {
    let state = State::new();
    let mut report = Report::new();
    for name in ["$", "pc"] {
        let value = state.eval_var(&mut report, &ctx(24, &[]), &var(0, &[name]), true).unwrap();
        assert_eq!(to_usize(&value), 3);
        assert_eq!(size_of(&value), None);
    }
    assert!(!report.has_errors());
}

#[test]
fn the_address_of_an_unaligned_position_is_a_reported_error() {
    let state = State::new();
    let mut report = Report::new();
    let r = state.eval_var(&mut report, &ctx(25, &[]), &var(0, &["$"]), true);
    assert!(matches!(r, Err(true)));
    assert_eq!(report.messages.len(), 1);
    assert_eq!(
        report.messages[0].descr,
        "position is not aligned to an address boundary (7 bits short)"
    );
    assert_eq!(report.messages[0].span, span(3));
}

#[test]
fn built_in_functions_are_values() {
    let state = State::new();
    let mut report = Report::new();
    for name in ["assert", "incbin", "incbinstr", "inchexstr"] {
        let r = state.eval_var(&mut report, &ctx(0, &[]), &var(0, &[name]), true);
        assert!(matches!(r, Ok(Value::Function(f)) if f == name));
    }
    let r = state.eval_var(&mut report, &ctx(0, &["x"]), &var(1, &["assert"]), true);
    assert!(matches!(r, Err(false)));
}

#[test]
fn symbols_are_found_by_their_place() {
    let mut state = State::new();
    state.symbols = symbols(&[
        (&["a"], 1),
        (&["a", "b"], 2),
        (&["a", "b", "c"], 3),
        (&["b"], 4),
        (&["a"], 5),
    ]);
    let mut report = Report::new();
    let here = ctx(0, &["a", "b"]);
    let mut value = |level: usize, list: &[&str]| {
        state.eval_var(&mut report, &here, &var(level, list), true)
    };
    assert_eq!(to_usize(&value(0, &["a"]).unwrap()), 1);
    assert_eq!(to_usize(&value(0, &["b"]).unwrap()), 4);
    assert_eq!(to_usize(&value(1, &["b"]).unwrap()), 2);
    assert_eq!(to_usize(&value(2, &["c"]).unwrap()), 3);
    assert_eq!(to_usize(&value(1, &["b", "c"]).unwrap()), 3);
    assert_eq!(to_usize(&value(0, &["a", "b", "c"]).unwrap()), 3);
    assert!(matches!(value(0, &["c"]), Err(false)));
    assert!(matches!(value(3, &["c"]), Err(false)));
}

#[test]
fn guesses_count_before_the_final_pass_only() {
    let mut state = State::new();
    state.symbol_guesses = symbols(&[(&["x"], 9), (&["y"], 8)]);
    state.symbols = symbols(&[(&["y"], 7)]);
    let mut report = Report::new();
    let here = ctx(0, &[]);
    let r = state.eval_var(&mut report, &here, &var(0, &["x"]), false);
    assert_eq!(to_usize(&r.unwrap()), 9);
    let r = state.eval_var(&mut report, &here, &var(0, &["x"]), true);
    assert!(matches!(r, Err(false)));
    for final_pass in [false, true] {
        let r = state.eval_var(&mut report, &here, &var(0, &["y"]), final_pass);
        assert_eq!(to_usize(&r.unwrap()), 7);
    }
    let r = state.eval_var(&mut report, &here, &var(0, &["z"]), false);
    assert!(matches!(r, Err(false)));
    state.is_first_pass = true;
    let r = state.eval_var(&mut report, &here, &var(0, &["z"]), false);
    assert_eq!(to_usize(&r.unwrap()), 0);
    let r = state.eval_var(&mut report, &here, &var(0, &["z"]), true);
    assert!(matches!(r, Err(false)));
    assert!(!report.has_errors());
}

#[test]
fn local_names() {
    let mut locals = EvalContext::new();
    assert!(locals.get_local(&"a".to_string()).is_none());
    locals.set_local(&"a".to_string(), num(1));
    locals.set_local(&"b".to_string(), num(2));
    locals.set_local(&"a".to_string(), num(3));
    assert_eq!(to_usize(locals.get_local(&"a".to_string()).unwrap()), 3);
    assert_eq!(to_usize(locals.get_local(&"b".to_string()).unwrap()), 2);
}

/// A host with files and a few expressions. A file name is the text of its number.
struct Files {}

/// The expression for the current address.
const ADDRESS: usize = 1;

/// The expression for a file.
const FILE: usize = 2;

/// The expression for the symbol `later`.
const LATER: usize = 3;

fn complaint(text: &str) -> Vec<Message> {
    vec![Message { descr: text.to_string(), span: span(8), parents: vec![] }]
}

impl Host for Files {
    fn eval(&self, expr: &Expr, _: &EvalContext, scope: &Scope<'_, Files>) -> EvalOutcome {
        let mut locals = EvalContext::new();
        locals.set_local(&"seen".to_string(), num(expr.id));
        let mut report = Report::new();
        let answer = match expr.id {
            ADDRESS => {
                if scope.has_place() {
                    scope.variable(&mut report, &var(0, &["$"]))
                } else {
                    Ok(Value::Void)
                }
            }
            FILE => {
                let info = EvalFunctionInfo {
                    func: Value::Function("incbin".to_string()),
                    args: vec![num(1)],
                    span: span(5),
                };
                scope.function(&mut report, &info)
            }
            _ => scope.variable(&mut report, &var(0, &["later"])),
        };
        let mut messages = report.messages;
        messages.extend(complaint("evaluated"));
        EvalOutcome { result: answer.map_err(|_| ()), locals, messages }
    }

    fn parse_file(&self, state: State, _: &String) -> ParseOutcome {
        ParseOutcome { state, result: Ok(()), messages: vec![] }
    }
}

impl FileServer for Files {
    fn as_string(&self, bigint: &BigInt) -> String {
        to_usize(&Value::Integer(bigint.clone())).to_string()
    }

    fn filename_navigate(&self, current: &String, navigated: &String, _: Span) -> Outcome<String> {
        if navigated == "404" {
            Outcome { result: Err(()), messages: complaint("bad name") }
        } else {
            Outcome { result: Ok(format!("{}/{}", current, navigated)), messages: vec![] }
        }
    }

    fn get_bytes(&self, filename: &String, _: Span) -> Outcome<Vec<u8>> {
        if filename == "dir/main.asm/1" {
            Outcome { result: Ok(vec![0x01, 0x02]), messages: vec![] }
        } else {
            Outcome { result: Err(()), messages: complaint("no such file") }
        }
    }

    fn get_chars(&self, filename: &String, _: Span) -> Outcome<Vec<char>> {
        let text = match filename.as_str() {
            "dir/main.asm/1" => "0110_1\r\n 0\t1",
            "dir/main.asm/2" => "dE ad_\n0",
            "dir/main.asm/3" => "01x",
            _ => return Outcome { result: Err(()), messages: complaint("no such file") },
        };
        Outcome { result: Ok(text.chars().collect()), messages: vec![] }
    }
}

fn call(name: &str, args: Vec<Value>) -> (Result<Value, bool>, Vec<String>) {
    let state = State::new();
    let mut report = Report::new();
    let info = EvalFunctionInfo {
        func: Value::Function(name.to_string()),
        args,
        span: span(5),
    };
    let r = state.eval_fn(&mut report, &ctx(0, &[]), &info, &Files {});
    (r, report.messages.iter().map(|m| m.descr.clone()).collect())
}

#[test]
fn assertions() {
    let (r, messages) = call("assert", vec![Value::Bool(true)]);
    assert!(matches!(r, Ok(Value::Void)));
    assert!(messages.is_empty());
    let (r, messages) = call("assert", vec![Value::Bool(false)]);
    assert!(matches!(r, Err(true)));
    assert_eq!(messages, vec!["assertion failed".to_string()]);
    let (r, messages) = call("assert", vec![num(1)]);
    assert!(matches!(r, Err(true)));
    assert_eq!(messages, vec!["wrong argument type".to_string()]);
    let (r, messages) = call("assert", vec![]);
    assert!(matches!(r, Err(true)));
    assert_eq!(messages, vec!["wrong number of arguments".to_string()]);
    let (r, messages) = call("assert", vec![Value::Bool(true), Value::Bool(true)]);
    assert!(matches!(r, Err(true)));
    assert_eq!(messages, vec!["wrong number of arguments".to_string()]);
}

#[test]
fn files_of_bytes() {
    let (r, messages) = call("incbin", vec![num(1)]);
    let value = r.unwrap();
    assert_eq!(to_usize(&value), 0x0102);
    assert_eq!(size_of(&value), Some(16));
    assert!(messages.is_empty());
}

#[test]
fn files_of_digits() {
    let (r, messages) = call("incbinstr", vec![num(1)]);
    let value = r.unwrap();
    assert_eq!(to_usize(&value), 0b0110101);
    assert_eq!(size_of(&value), Some(7));
    assert!(messages.is_empty());
    let (r, _) = call("inchexstr", vec![num(2)]);
    let value = r.unwrap();
    assert_eq!(to_usize(&value), 0xdead0);
    assert_eq!(size_of(&value), Some(20));
    let (r, messages) = call("incbinstr", vec![num(2)]);
    assert!(matches!(r, Err(true)));
    assert_eq!(messages, vec!["invalid character in file contents".to_string()]);
    let (r, messages) = call("inchexstr", vec![num(3)]);
    assert!(matches!(r, Err(true)));
    assert_eq!(messages, vec!["invalid character in file contents".to_string()]);
}

#[test]
fn files_that_cannot_be_read() {
    for name in ["incbin", "incbinstr", "inchexstr"] {
        let (r, messages) = call(name, vec![num(404)]);
        assert!(matches!(r, Err(true)));
        assert_eq!(messages, vec!["bad name".to_string()]);
        let (r, messages) = call(name, vec![num(77)]);
        assert!(matches!(r, Err(true)));
        assert_eq!(messages, vec!["no such file".to_string()]);
        for args in [vec![], vec![Value::Void], vec![num(1), num(2)]] {
            let (r, messages) = call(name, args);
            assert!(matches!(r, Err(true)));
            assert_eq!(messages, vec!["wrong arguments".to_string()]);
        }
    }
}

#[test]
fn digits_of_both_bases() {
    let hex: Vec<char> = "0123456789abcdefABCDEF".chars().collect();
    let bits = read_digits(&hex, 4).unwrap();
    assert_eq!(bits.len(), 88);
    assert_eq!(bits.bits[4..8].to_vec(), vec![false, false, false, true]);
    assert_eq!(bits.bits[60..64].to_vec(), vec![true, true, true, true]);
    assert_eq!(bits.bits[64..68].to_vec(), vec![true, false, true, false]);
    for bad in ['g', 'G', '/', ':', '@', '`', '.', '\u{00e9}'] {
        assert!(read_digits(&vec![bad], 4).is_none(), "{}", bad);
    }
    assert!(read_digits(&vec!['2'], 1).is_none());
    assert!(read_digits(&vec!['a'], 1).is_none());
    assert_eq!(read_digits(&vec!['1', ' ', '0'], 1).unwrap().bits, vec![true, false]);
    assert_eq!(read_digits(&vec![], 4).unwrap().len(), 0);
}

#[test]
fn spacing_between_digits_does_not_matter() {
    let plain: Vec<char> = "deadbeef".chars().collect();
    let bits = read_digits(&plain, 4).unwrap().bits;
    for c in [' ', '\t', '_', '\r', '\n'] {
        for i in 0..=plain.len() {
            let mut spaced = plain.clone();
            spaced.insert(i, c);
            assert_eq!(read_digits(&spaced, 4).unwrap().bits, bits);
        }
    }
}

#[test]
fn evaluating_hands_on_all_that_the_host_says() {
    let mut state = State::new();
    state.symbol_guesses = symbols(&[(&["later"], 42)]);
    let mut report = Report::new();
    let expr = Expr { id: LATER, span: span(1) };
    let mut locals = EvalContext::new();
    report.push_parent("outer", span(2));
    let r = state.eval_expr(&mut report, &expr, &ctx(0, &[]), &mut locals, &Files {}, false);
    assert_eq!(to_usize(&r.unwrap()), 42);
    assert_eq!(to_usize(locals.get_local(&"seen".to_string()).unwrap()), LATER);
    assert_eq!(report.messages.len(), 1);
    assert_eq!(report.messages[0].descr, "evaluated");
    assert_eq!(report.messages[0].parents[0].descr, "outer");
    // in the final pass the evaluator does not get the guess
    let r = state.eval_expr(&mut report, &expr, &ctx(0, &[]), &mut locals, &Files {}, true);
    assert!(r.is_err());
}

#[test]
fn an_evaluator_asks_its_scope() {
    let state = State::new();
    let evaluate = |id: usize, at: &Context| {
        let mut report = Report::new();
        let expr = Expr { id, span: span(1) };
        let mut locals = EvalContext::new();
        let r = state.eval_expr(&mut report, &expr, at, &mut locals, &Files {}, true);
        let texts: Vec<String> = report.messages.iter().map(|m| m.descr.clone()).collect();
        (r, texts)
    };
    let (r, texts) = evaluate(ADDRESS, &ctx(24, &[]));
    assert_eq!(to_usize(&r.unwrap()), 3);
    assert_eq!(texts, vec!["evaluated".to_string()]);
    let (r, texts) = evaluate(ADDRESS, &ctx(31, &[]));
    assert!(r.is_err());
    assert_eq!(
        texts,
        vec![
            "position is not aligned to an address boundary (1 bit short)".to_string(),
            "evaluated".to_string(),
        ]
    );
    let mut nowhere = ctx(0, &[]);
    nowhere.bank_ref = BankRef { index: 1 };
    assert!(matches!(evaluate(ADDRESS, &nowhere).0, Ok(Value::Void)));
    let (r, _) = evaluate(FILE, &ctx(0, &[]));
    assert_eq!(to_usize(&r.unwrap()), 0x0102);
}

#[test]
fn the_symbol_itself_is_found() {
    let manager = symbols(&[(&["a"], 1), (&["a", "b"], 2), (&["a"], 3)]);
    let here = SymbolContext { hierarchy: names(&["a"]) };
    let found = manager.get(&here, 0, &names(&["a"])).unwrap();
    assert!(std::ptr::eq(found, &manager.symbols[0]));
    let found = manager.get(&here, 1, &names(&["b"])).unwrap();
    assert!(std::ptr::eq(found, &manager.symbols[1]));
    assert!(manager.get(&here, 0, &names(&["b"])).is_none());
    assert!(manager.get(&here, 2, &names(&["b"])).is_none());
}
