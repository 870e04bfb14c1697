use asm_state::assembler::Assembler;
use asm_state::bank::{
    Bank, BankData, DataInvocation, Invocation, InvocationKind, LabelInvocation, RuleInvocation,
};
use asm_state::bigint::BigInt;
use asm_state::bitvec::BitVec;
use asm_state::diagn::{Message, Report, Span};
use asm_state::expr::{EvalContext, EvalOutcome, EvalVariableInfo, Expr, Value};
use asm_state::host::{FileServer, Host, Outcome, ParseOutcome, Scope};
use asm_state::ruleset::{
    PatternParameter, PatternParameterType, Rule, RuleInvocationArgument,
    RuleInvocationCandidate, Ruleset,
};
use asm_state::state::{BankRef, ParserState, RuleRef, RulesetRef, State};
use asm_state::symbol::{Symbol, SymbolManager};
use std::cell::RefCell;
use std::rc::Rc;

fn span(start: usize) -> Span {
    Span { file: 0, start, end: start + 1 }
}

fn num(n: i64) -> BigInt {
    let mut bits = Vec::new();
    for i in 0..64 {
        bits.push((n >> i) & 1 == 1);
    }
    BigInt { bits, size: None }
}

fn to_i64(b: &BigInt) -> i64 {
    let mut n: i64 = 0;
    for i in 0..64 {
        if b.get_bit(i) {
            n |= 1 << i;
        }
    }
    n
}

fn int_of(value: &Value) -> i64 {
    match value {
        Value::Integer(b) => to_i64(b),
        _ => panic!("not an integer"),
    }
}

/// A small language of expressions.
#[derive(Clone)]
enum Node {
    Num(i64),
    Sized(i64, usize),
    True,
    Var(&'static str),
    /// The high bits and the low bits, by their expressions.
    Concat(usize, usize),
    /// The second one, but only if the first one is below the limit.
    Below(usize, i64, usize),
    Fail(&'static str),
}

/// A line of a program.
#[derive(Clone)]
enum Line {
    Bank(&'static str, Option<usize>, Option<usize>, bool),
    Label(&'static str),
    /// The expression and the size.
    Data(usize, Option<usize>),
    /// The rules that may match, and the expression for their only argument.
    Op(Vec<usize>, usize),
    Broken(&'static str),
}

/// A host whose files are programs.
struct Lang {
    nodes: Vec<Node>,
    files: Vec<(&'static str, Vec<Line>)>,
    rules: Vec<(PatternParameterType, usize)>,
    passes: RefCell<usize>,
}

fn expr(id: usize) -> Expr {
    Expr { id, span: span(100 + id) }
}

impl Lang {
    fn new(nodes: Vec<Node>) -> Lang {
        Lang { nodes, files: vec![], rules: vec![], passes: RefCell::new(0) }
    }

    fn value(
        &self,
        id: usize,
        locals: &EvalContext,
        scope: &Scope<'_, Lang>,
        report: &mut Report,
    ) -> Result<Value, ()> {
        match &self.nodes[id] {
            Node::Num(n) => Ok(Value::Integer(num(*n))),
            Node::Sized(n, size) => {
                let mut b = num(*n);
                b.size = Some(*size);
                Ok(Value::Integer(b))
            }
            Node::True => Ok(Value::Bool(true)),
            Node::Var(name) => {
                if let Some(value) = locals.get_local(&name.to_string()) {
                    return Ok(value.clone());
                }
                let info = EvalVariableInfo {
                    hierarchy_level: 0,
                    hierarchy: vec![name.to_string()],
                    span: span(100 + id),
                };
                match scope.variable(report, &info) {
                    Ok(value) => Ok(value),
                    Err(reported) => {
                        if !reported {
                            report.error_span("unknown variable", span(100 + id));
                        }
                        Err(())
                    }
                }
            }
            Node::Concat(high, low) => {
                let high = self.value(*high, locals, scope, report)?;
                let low = self.value(*low, locals, scope, report)?;
                let (mut bits, a) = match low {
                    Value::Integer(b) => {
                        let size = b.size.unwrap();
                        ((0..size).map(|i| b.get_bit(i)).collect::<Vec<bool>>(), size)
                    }
                    _ => return Err(()),
                };
                let b = match high {
                    Value::Integer(b) => {
                        let size = b.size.unwrap();
                        bits.extend((0..size).map(|i| b.get_bit(i)));
                        size
                    }
                    _ => return Err(()),
                };
                bits.push(false);
                Ok(Value::Integer(BigInt { bits, size: Some(a + b) }))
            }
            Node::Below(id, limit, then) => {
                let n = int_of(&self.value(*id, locals, scope, report)?);
                if n < *limit {
                    self.value(*then, locals, scope, report)
                } else {
                    report.error_span("too large", span(100 + *id));
                    Err(())
                }
            }
            Node::Fail(text) => {
                report.error_span(text, span(100 + id));
                Err(())
            }
        }
    }
}

impl Host for Lang {
    fn eval(&self, expr: &Expr, eval_ctx: &EvalContext, scope: &Scope<'_, Lang>) -> EvalOutcome {
        let mut report = Report::new();
        let result = self.value(expr.id, eval_ctx, scope, &mut report);
        EvalOutcome { result, locals: EvalContext::new(), messages: report.messages }
    }

    fn parse_file(&self, state: State, filename: &String) -> ParseOutcome {
        let mut state = state;
        if state.rulesets.is_empty() {
            *self.passes.borrow_mut() += 1;
            state.rulesets.push(ruleset(&self.rules));
        }
        let parser = ParserState { filename: Rc::new(filename.clone()) };
        let mut report = Report::new();
        let lines = match self.files.iter().find(|f| f.0 == filename) {
            Some(f) => f.1.clone(),
            None => {
                report.error_span("no such file", span(0));
                return ParseOutcome { state, result: Err(()), messages: report.messages };
            }
        };
        for line in lines {
            let ctx = state.get_ctx(&parser);
            let kind = match line {
                Line::Bank(name, offset, size, fill) => {
                    let bank = Bank {
                        name: name.to_string(),
                        wordsize: 8,
                        labelalign: 0,
                        addr_start: num(0x80),
                        addr_size: size,
                        output_offset: offset,
                        fill,
                        decl_span: Some(span(50)),
                    };
                    if state.create_bank(bank, &mut report).is_err() {
                        return ParseOutcome { state, result: Err(()), messages: report.messages };
                    }
                    continue;
                }
                Line::Broken(text) => {
                    report.error_span(text, span(51));
                    return ParseOutcome { state, result: Ok(()), messages: report.messages };
                }
                Line::Label(name) => {
                    let addr = state.get_addr(&mut report, &ctx, span(52)).unwrap();
                    state.symbols.symbols.push(Symbol {
                        hierarchy: vec![name.to_string()],
                        value: Value::Integer(addr),
                    });
                    InvocationKind::Label(LabelInvocation {})
                }
                Line::Data(id, elem_size) => {
                    InvocationKind::Data(DataInvocation { expr: expr(id), elem_size })
                }
                Line::Op(rules, arg) => InvocationKind::Rule(RuleInvocation {
                    candidates: rules.iter().map(|r| candidate(*r, arg)).collect(),
                }),
            };
            let mut invoc = Invocation { ctx, size_guess: 0, span: span(60), kind };
            let mut guess = Report::new();
            let guessed = match &invoc.kind {
                InvocationKind::Rule(_) => {
                    state.resolve_rule_invocation(&mut guess, &invoc, self, false)
                }
                InvocationKind::Data(_) => {
                    state.resolve_data_invocation(&mut guess, &invoc, self, false)
                }
                InvocationKind::Label(_) => Ok(Value::Void),
            };
            if let Ok(Value::Integer(b)) = guessed {
                invoc.size_guess = b.size.unwrap_or(0);
            }
            let size = invoc.size_guess;
            let bank = state.cur_bank;
            let data = state.get_bankdata_mut(bank);
            data.cur_bit_offset += size;
            data.invocations.push(invoc);
        }
        assert!(state.is_resolvable());
        ParseOutcome { state, result: Ok(()), messages: report.messages }
    }
}

impl FileServer for Lang {
    fn as_string(&self, bigint: &BigInt) -> String {
        to_i64(bigint).to_string()
    }

    fn filename_navigate(&self, _: &String, navigated: &String, _: Span) -> Outcome<String> {
        Outcome { result: Ok(navigated.clone()), messages: vec![] }
    }

    fn get_bytes(&self, _: &String, _: Span) -> Outcome<Vec<u8>> {
        Outcome { result: Err(()), messages: vec![] }
    }

    fn get_chars(&self, _: &String, _: Span) -> Outcome<Vec<char>> {
        Outcome { result: Err(()), messages: vec![] }
    }
}

fn ruleset(rules: &[(PatternParameterType, usize)]) -> Ruleset {
    Ruleset {
        name: "cpu".to_string(),
        rules: rules
            .iter()
            .map(|(typ, production)| Rule {
                parameters: vec![PatternParameter { name: "arg".to_string(), typ: *typ }],
                production: expr(*production),
                span: span(70),
            })
            .collect(),
    }
}

fn rule_ref(rule: usize) -> RuleRef {
    RuleRef { ruleset_ref: RulesetRef { index: 0 }, index: rule }
}

fn candidate(rule: usize, arg: usize) -> RuleInvocationCandidate {
    RuleInvocationCandidate {
        rule_ref: rule_ref(rule),
        args: vec![RuleInvocationArgument::Expression(expr(arg))],
    }
}

fn invocation(state: &State, kind: InvocationKind, size_guess: usize) -> Invocation {
    let parser = ParserState { filename: Rc::new("main.asm".to_string()) };
    Invocation { ctx: state.get_ctx(&parser), size_guess, span: span(60), kind }
}

fn texts(report: &Report) -> Vec<String> {
    report.messages.iter().map(|m| m.descr.clone()).collect()
}

/// The bits of the rule, then the bits of the argument.
const OPCODE_THEN_ARG: usize = 2;

fn op_nodes() -> Vec<Node> {
    vec![
        Node::Sized(0xa, 4),
        Node::Var("arg"),
        Node::Concat(0, 1),
        Node::Num(5),
        Node::Num(200),
        Node::Num(1000),
        Node::Fail("cannot evaluate"),
        Node::Sized(0xb, 4),
        Node::Concat(7, 1),
    ]
}

fn op_host(rules: Vec<(PatternParameterType, usize)>) -> (Lang, State) {
    let mut host = Lang::new(op_nodes());
    host.rules = rules;
    let mut state = State::new();
    state.rulesets.push(ruleset(&host.rules));
    (host, state)
}

fn op(
    host: &Lang,
    state: &State,
    rules: &[usize],
    arg: usize,
    final_pass: bool,
) -> (Result<Value, ()>, Report) {
    let kind = InvocationKind::Rule(RuleInvocation {
        candidates: rules.iter().map(|r| candidate(*r, arg)).collect(),
    });
    let invoc = invocation(state, kind, 0);
    let mut report = Report::new();
    let r = state.resolve_rule_invocation(&mut report, &invoc, host, final_pass);
    (r, report)
}

#[test]
fn an_argument_takes_the_size_of_its_parameter() {
    let (host, state) = op_host(vec![(PatternParameterType::Unsigned(8), OPCODE_THEN_ARG)]);
    for final_pass in [false, true] {
        let (r, report) = op(&host, &state, &[0], 3, final_pass);
        match r.unwrap() {
            Value::Integer(b) => {
                assert_eq!(to_i64(&b), 0xa05);
                assert_eq!(b.size, Some(12));
            }
            _ => panic!("not an integer"),
        }
        assert!(!report.has_errors());
    }
}

#[test]
fn a_single_candidate_is_reported_on_in_the_final_pass() {
    let (host, state) = op_host(vec![(PatternParameterType::Unsigned(8), OPCODE_THEN_ARG)]);
    let (r, report) = op(&host, &state, &[0], 5, true);
    assert!(r.is_err());
    assert_eq!(texts(&report), vec!["argument out of range for type `u8`".to_string()]);
    assert_eq!(report.messages[0].span, span(105));
    let (r, report) = op(&host, &state, &[0], 5, false);
    assert!(r.is_err());
    assert!(!report.has_errors());
    let (r, report) = op(&host, &state, &[0], 6, true);
    assert!(r.is_err());
    assert_eq!(texts(&report), vec!["cannot evaluate".to_string()]);
}

#[test]
fn the_candidate_that_fits_is_taken() {
    let (host, state) = op_host(vec![
        (PatternParameterType::Unsigned(4), OPCODE_THEN_ARG),
        (PatternParameterType::Unsigned(16), OPCODE_THEN_ARG),
    ]);
    let (r, report) = op(&host, &state, &[0, 1], 4, true);
    match r.unwrap() {
        Value::Integer(b) => {
            assert_eq!(to_i64(&b), 0xa00c8);
            assert_eq!(b.size, Some(20));
        }
        _ => panic!("not an integer"),
    }
    assert!(!report.has_errors());
}

#[test]
fn several_matches_are_an_error_in_the_final_pass() {
    let (host, state) = op_host(vec![
        (PatternParameterType::Unsigned(4), OPCODE_THEN_ARG),
        (PatternParameterType::Unsigned(16), 8),
    ]);
    let (r, report) = op(&host, &state, &[0, 1], 3, true);
    assert!(r.is_err());
    assert_eq!(texts(&report), vec!["multiple matches for instruction".to_string()]);
    assert_eq!(report.messages[0].span, span(60));
}

#[test]
fn the_last_match_is_taken_before_the_final_pass() {
    let (host, state) = op_host(vec![
        (PatternParameterType::Unsigned(4), OPCODE_THEN_ARG),
        (PatternParameterType::Unsigned(16), 8),
        (PatternParameterType::Unsigned(1), OPCODE_THEN_ARG),
    ]);
    let (r, report) = op(&host, &state, &[0, 1, 2], 3, false);
    assert_eq!(int_of(&r.unwrap()), 0xb0005);
    assert!(!report.has_errors());
    let (r, _) = op(&host, &state, &[1, 0, 2], 3, false);
    assert_eq!(int_of(&r.unwrap()), 0xa5);
}

#[test]
fn no_match_gives_no_value_and_no_message() {
    let (host, state) = op_host(vec![
        (PatternParameterType::Unsigned(4), OPCODE_THEN_ARG),
        (PatternParameterType::Unsigned(5), OPCODE_THEN_ARG),
    ]);
    for final_pass in [false, true] {
        let (r, report) = op(&host, &state, &[0, 1], 5, final_pass);
        assert!(r.is_err());
        assert!(!report.has_errors());
        let (r, report) = op(&host, &state, &[], 5, final_pass);
        assert!(r.is_err());
        assert!(!report.has_errors());
    }
}

#[test]
fn nested_rules_are_resolved_first() {
    let (host, mut state) = op_host(vec![
        (PatternParameterType::Unsigned(4), OPCODE_THEN_ARG),
        (PatternParameterType::Unsigned(16), 8),
        (PatternParameterType::Ruleset(RulesetRef { index: 0 }), OPCODE_THEN_ARG),
    ]);
    let nested = |inner: &[usize], arg: usize| RuleInvocationCandidate {
        rule_ref: rule_ref(2),
        args: vec![RuleInvocationArgument::NestedRuleset(
            inner.iter().map(|r| candidate(*r, arg)).collect(),
        )],
    };
    let invoc = invocation(&state, InvocationKind::Label(LabelInvocation {}), 0);
    let mut report = Report::new();
    let c = nested(&[0, 1], 4);
    assert!(state.is_candidate_ok(&c));
    let r = state.resolve_rule_invocation_candidate(&mut report, &invoc, &c, &host, true);
    assert_eq!(int_of(&r.unwrap()), 0xab00c8);
    assert!(!report.has_errors());
    let c = nested(&[0, 1], 3);
    let r = state.resolve_rule_invocation_candidate(&mut report, &invoc, &c, &host, true);
    assert!(r.is_err());
    assert_eq!(texts(&report), vec!["multiple matches for instruction".to_string()]);
    let mut report = Report::new();
    let r = state.resolve_rule_invocation_candidates(
        &mut report,
        &invoc,
        &vec![nested(&[0, 1], 3)],
        &host,
        false,
    );
    assert_eq!(int_of(&r.unwrap()), 0xab0005);
    // an expression is no argument for a ruleset
    assert!(!state.is_candidate_ok(&candidate(2, 3)));
    assert!(!state.is_candidate_ok(&candidate(3, 3)));
    state.rulesets.clear();
    assert!(!state.is_candidate_ok(&candidate(0, 3)));
}

#[test]
fn the_first_argument_without_a_value_ends_it() {
    let (host, mut state) = op_host(vec![(PatternParameterType::Unspecified, 3)]);
    state.rulesets[0].rules[0].parameters.push(PatternParameter {
        name: "other".to_string(),
        typ: PatternParameterType::Unspecified,
    });
    let mut c = candidate(0, 6);
    c.args.push(RuleInvocationArgument::Expression(expr(6)));
    let invoc = invocation(&state, InvocationKind::Label(LabelInvocation {}), 0);
    let mut report = Report::new();
    assert!(state.resolve_rule_invocation_candidate(&mut report, &invoc, &c, &host, true).is_err());
    assert_eq!(report.messages.len(), 1);
}

#[test]
fn data_elements_are_resolved() {
    let (host, state) = op_host(vec![]);
    let mut report = Report::new();
    let kind = InvocationKind::Data(DataInvocation { expr: expr(4), elem_size: Some(4) });
    let invoc = invocation(&state, kind, 4);
    let r = state.resolve_data_invocation(&mut report, &invoc, &host, true);
    match r.unwrap() {
        Value::Integer(b) => {
            assert_eq!(to_i64(&b), 200);
            assert_eq!(b.size, Some(4));
        }
        _ => panic!("not an integer"),
    }
    assert_eq!(
        texts(&report),
        vec!["value size (= 8) is larger than the directive size (= 4)".to_string()]
    );
    let kind = InvocationKind::Data(DataInvocation { expr: expr(6), elem_size: Some(4) });
    let invoc = invocation(&state, kind, 4);
    let mut report = Report::new();
    assert!(state.resolve_data_invocation(&mut report, &invoc, &host, true).is_err());
    assert_eq!(texts(&report), vec!["cannot evaluate".to_string()]);
}

fn resolve(
    nodes: Vec<Node>,
    addr_size: Option<usize>,
    fill: bool,
    lines: Vec<(usize, usize, Option<usize>, usize)>,
) -> (Result<BitVec, ()>, Report) {
    let host = Lang::new(nodes);
    let state = State::new();
    let mut bank = Bank::new_default();
    bank.addr_size = addr_size;
    bank.fill = fill;
    let mut data =
        BankData { bank_ref: BankRef { index: 0 }, cur_bit_offset: 0, invocations: vec![] };
    for (id, bit_offset, elem_size, size_guess) in lines {
        let kind = InvocationKind::Data(DataInvocation { expr: expr(id), elem_size });
        let mut invoc = invocation(&state, kind, size_guess);
        invoc.ctx.bit_offset = bit_offset;
        data.invocations.push(invoc);
    }
    assert!(state.is_bankdata_ok(&bank, &data));
    let mut report = Report::new();
    let r = state.resolve_bankdata(&mut report, &bank, &data, &host);
    (r, report)
}

#[test]
fn bits_go_where_their_lines_are() {
    let (r, report) = resolve(
        vec![Node::Sized(0xab, 8), Node::Num(3)],
        None,
        false,
        vec![(0, 16, None, 8), (1, 4, Some(4), 4)],
    );
    let bits = r.unwrap();
    assert!(!report.has_errors());
    assert_eq!(to_i64(&bits.as_bigint()), 0x0300ab);
    assert_eq!(bits.len(), 24);
    assert_eq!(bits.spans.len(), 2);
    assert_eq!(bits.spans[0].offset, Some(16));
    assert_eq!(bits.spans[0].size, 8);
    assert_eq!(to_i64(&bits.spans[0].addr), 2);
    assert_eq!(bits.spans[1].offset, Some(4));
    assert_eq!(bits.spans[1].size, 4);
    assert_eq!(to_i64(&bits.spans[1].addr), 0);
}

#[test]
fn lines_that_cannot_be_placed_are_reported() {
    let (r, report) = resolve(
        vec![Node::Sized(1, 8), Node::Num(3), Node::True, Node::Sized(2, 16)],
        Some(2),
        false,
        vec![(0, 0, None, 7), (1, 0, None, 0), (2, 0, None, 0), (3, 8, None, 16), (0, 8, None, 8)],
    );
    assert_eq!(
        texts(&report),
        vec![
            "data element size did not converge after iterations".to_string(),
            "cannot infer size of data element".to_string(),
            "wrong type returned from data element".to_string(),
            "data element is out of bank range".to_string(),
        ]
    );
    assert!(report.messages.iter().all(|m| m.parents.is_empty() && m.span == span(60)));
    let bits = r.unwrap();
    assert_eq!(bits.len(), 16);
    assert_eq!(to_i64(&bits.as_bigint()), 1);
    assert_eq!(bits.spans.len(), 1);
}

#[test]
fn a_line_without_a_value_ends_the_bank() {
    let (r, report) = resolve(
        vec![Node::Fail("first"), Node::Fail("second")],
        None,
        false,
        vec![(0, 0, None, 8), (1, 8, None, 8)],
    );
    assert!(r.is_err());
    assert_eq!(report.messages.len(), 1);
    assert_eq!(report.messages[0].descr, "first");
    assert_eq!(report.messages[0].parents.len(), 1);
    assert_eq!(report.messages[0].parents[0].descr, "failed to resolve data element");
    assert_eq!(report.messages[0].parents[0].span, span(60));
    assert!(report.parents.is_empty());
}

#[test]
fn a_bank_is_filled_up() {
    let nodes = vec![Node::Sized(0xff, 8)];
    let (r, report) = resolve(nodes.clone(), Some(4), true, vec![(0, 8, None, 8)]);
    assert!(!report.has_errors());
    let bits = r.unwrap();
    assert_eq!(bits.len(), 32);
    assert_eq!(to_i64(&bits.as_bigint()), 0x00ff0000);
    let (r, _) = resolve(nodes.clone(), Some(4), false, vec![(0, 8, None, 8)]);
    assert_eq!(r.unwrap().len(), 16);
    let (r, _) = resolve(nodes, None, true, vec![(0, 8, None, 8)]);
    assert_eq!(r.unwrap().len(), 16);
}

#[test]
fn instructions_have_their_own_messages() {
    let (host, state) = op_host(vec![(PatternParameterType::Unsigned(8), OPCODE_THEN_ARG)]);
    let mut data =
        BankData { bank_ref: BankRef { index: 0 }, cur_bit_offset: 0, invocations: vec![] };
    let kind = |arg: usize| {
        InvocationKind::Rule(RuleInvocation { candidates: vec![candidate(0, arg)] })
    };
    data.invocations.push(invocation(&state, kind(3), 5));
    data.invocations.push(invocation(&state, kind(5), 5));
    let mut report = Report::new();
    let r = state.resolve_bankdata(&mut report, &Bank::new_default(), &data, &host);
    assert!(r.is_err());
    assert_eq!(
        texts(&report),
        vec![
            "instruction size did not converge after iterations".to_string(),
            "argument out of range for type `u8`".to_string(),
        ]
    );
    assert!(report.messages[0].parents.is_empty());
    assert_eq!(report.messages[1].parents[0].descr, "failed to resolve instruction");
}

fn program(nodes: Vec<Node>, lines: Vec<Line>) -> Lang {
    let mut host = Lang::new(nodes);
    host.files.push(("main.asm", lines));
    host
}

fn assemble(host: &Lang, max: usize) -> (Option<(BitVec, SymbolManager)>, Assembler, Report) {
    let mut assembler = Assembler::new();
    assembler.register_file("main.asm");
    let mut report = Report::new();
    let r = assembler.assemble(&mut report, host, max);
    (r.ok().map(|o| (o.binary, o.symbols)), assembler, report)
}

#[test]
fn a_program_without_lines() {
    let host = program(vec![], vec![]);
    let (r, assembler, report) = assemble(&host, 10);
    let (binary, symbols) = r.unwrap();
    assert_eq!(binary.len(), 0);
    assert!(symbols.symbols.is_empty());
    assert!(!report.has_errors());
    assert_eq!(*host.passes.borrow(), 1);
    assert_eq!(assembler.root_files, vec!["main.asm".to_string()]);
}

#[test]
fn a_forward_reference_is_resolved() {
    let mut host = program(
        vec![Node::Var("end"), Node::Num(7)],
        vec![Line::Data(0, Some(8)), Line::Data(1, Some(8)), Line::Label("end")],
    );
    host.rules = vec![];
    let (r, assembler, report) = assemble(&host, 10);
    let (binary, symbols) = r.unwrap();
    assert_eq!(to_i64(&binary.as_bigint()), 0x0207);
    assert_eq!(binary.len(), 16);
    assert_eq!(binary.spans.len(), 3);
    assert_eq!(binary.spans[2].offset, Some(16));
    assert_eq!(binary.spans[2].size, 0);
    assert!(!report.has_errors());
    assert_eq!(symbols.symbols.len(), 1);
    assert_eq!(int_of(&symbols.symbols[0].value), 2);
    assert!(assembler.state.symbols.symbols.is_empty());
    assert!(assembler.state.is_first_pass);
    assert_eq!(*host.passes.borrow(), 1);
}

#[test]
fn the_limit_of_passes_is_kept() {
    for (max, passes) in [(0, 1), (1, 1), (2, 2), (7, 7)] {
        let host = program(
            vec![Node::Var("missing")],
            vec![Line::Data(0, Some(8)), Line::Label("end")],
        );
        let (r, assembler, report) = assemble(&host, max);
        assert!(r.is_none());
        assert_eq!(*host.passes.borrow(), passes);
        // only the messages of the last pass are handed on
        assert_eq!(texts(&report), vec!["unknown variable".to_string()]);
        assert_eq!(report.messages[0].parents[0].descr, "failed to resolve data element");
        assert_eq!(assembler.state.symbols.symbols.len(), 1);
        assert_eq!(assembler.state.is_first_pass, passes == 1);
        assert_eq!(assembler.state.symbol_guesses.symbols.len(), if passes == 1 { 0 } else { 1 });
    }
}

#[test]
fn a_size_that_changes_needs_another_pass() {
    // one byte while `end` is below two, and two bytes after that
    let mut host = program(
        vec![
            Node::Var("end"),
            Node::Var("arg"),
            Node::Sized(1, 8),
            Node::Sized(2, 16),
            Node::Below(1, 2, 2),
            Node::Num(0),
        ],
        vec![Line::Op(vec![0, 1], 0), Line::Data(2, None), Line::Label("end")],
    );
    host.rules = vec![
        (PatternParameterType::Unspecified, 4),
        (PatternParameterType::Unspecified, 3),
    ];
    // while the guess is zero both match and the last one is taken; in the end `end`
    // is three, so only the second one matches
    let (r, _, report) = assemble(&host, 10);
    let (binary, _) = r.unwrap();
    assert_eq!(to_i64(&binary.as_bigint()), 0x000201);
    assert_eq!(binary.len(), 24);
    assert!(!report.has_errors());
    assert_eq!(*host.passes.borrow(), 1);

    // with the small form last, the first guess is too small
    let mut host = host;
    host.files[0].1[0] = Line::Op(vec![1, 0], 0);
    host.passes = RefCell::new(0);
    let (r, _, report) = assemble(&host, 1);
    assert!(r.is_none());
    assert_eq!(
        texts(&report),
        vec!["instruction size did not converge after iterations".to_string()]
    );
    // more passes than needed do no harm
    for max in [2, 3, 10] {
        host.passes = RefCell::new(0);
        let (r, _, report) = assemble(&host, max);
        let (binary, symbols) = r.unwrap();
        assert_eq!(to_i64(&binary.as_bigint()), 0x000201);
        assert_eq!(binary.len(), 24);
        assert_eq!(int_of(&symbols.symbols[0].value), 3);
        assert!(!report.has_errors());
        assert_eq!(*host.passes.borrow(), 2);
    }
}

#[test]
fn resolving_twice_comes_to_the_same() {
    let (host, state) = op_host(vec![
        (PatternParameterType::Unsigned(4), OPCODE_THEN_ARG),
        (PatternParameterType::Unsigned(16), OPCODE_THEN_ARG),
    ]);
    for final_pass in [false, true] {
        let (a, _) = op(&host, &state, &[0, 1], 4, final_pass);
        let (b, _) = op(&host, &state, &[0, 1], 4, final_pass);
        assert_eq!(int_of(&a.unwrap()), 0xa00c8);
        assert_eq!(int_of(&b.unwrap()), 0xa00c8);
    }
}

#[test]
fn order_and_other_candidates_do_not_matter_in_the_final_pass() {
    let (host, state) = op_host(vec![
        (PatternParameterType::Unsigned(4), OPCODE_THEN_ARG),
        (PatternParameterType::Unsigned(16), OPCODE_THEN_ARG),
        (PatternParameterType::Unsigned(5), 8),
        (PatternParameterType::Unsigned(9), 8),
    ]);
    // only rule 1 takes 200 among these
    for rules in [&[1][..], &[0, 1], &[1, 0], &[2, 1, 0], &[0, 2, 1], &[0, 0, 1, 2]] {
        let (r, report) = op(&host, &state, rules, 4, true);
        assert_eq!(int_of(&r.unwrap()), 0xa00c8);
        assert!(!report.has_errors());
    }
    // two matches stay two matches
    for rules in [&[1, 3][..], &[3, 1], &[3, 0, 1], &[2, 1, 0, 3], &[1, 1]] {
        let (r, report) = op(&host, &state, rules, 4, true);
        assert!(r.is_err());
        assert_eq!(texts(&report), vec!["multiple matches for instruction".to_string()]);
    }
    // and none stay none; a single one says why
    for (rules, messages) in [(&[0, 2][..], 0), (&[2, 0], 0), (&[], 0), (&[0], 1)] {
        let (r, report) = op(&host, &state, rules, 4, true);
        assert!(r.is_err());
        assert_eq!(report.messages.len(), messages);
    }
}

#[test]
fn a_guess_does_not_reach_the_output() {
    let host = Lang::new(vec![Node::Var("known"), Node::Var("guessed")]);
    let symbol = |name: &str, n: i64| Symbol {
        hierarchy: vec![name.to_string()],
        value: Value::Integer(num(n)),
    };
    let outcomes = |id: usize| {
        let mut all = vec![];
        for guess in [None, Some(1), Some(2)] {
            for is_first_pass in [false, true] {
                let mut state = State::new();
                state.is_first_pass = is_first_pass;
                state.symbols.symbols.push(symbol("known", 0x5a));
                if let Some(n) = guess {
                    state.symbol_guesses.symbols.push(symbol("known", n));
                    state.symbol_guesses.symbols.push(symbol("guessed", n));
                    state.cur_wordsize = 16;
                    state.cur_labelalign = 4;
                }
                let kind = InvocationKind::Data(DataInvocation {
                    expr: expr(id),
                    elem_size: Some(8),
                });
                let mut invoc = invocation(&state, kind, 8);
                invoc.ctx.cur_wordsize = 8;
                let data = BankData {
                    bank_ref: BankRef { index: 0 },
                    cur_bit_offset: 8,
                    invocations: vec![invoc],
                };
                let mut report = Report::new();
                let r = state.resolve_bankdata(&mut report, &Bank::new_default(), &data, &host);
                all.push((r.ok().map(|b| to_i64(&b.as_bigint())), texts(&report)));
            }
        }
        all
    };
    assert_eq!(outcomes(0), vec![(Some(0x5a), vec![]); 6]);
    assert_eq!(outcomes(1), vec![(None, vec!["unknown variable".to_string()]); 6]);
}

#[test]
fn assembling_again_ends_the_same_way() {
    let mut host = program(
        vec![
            Node::Var("end"),
            Node::Var("arg"),
            Node::Sized(1, 8),
            Node::Sized(2, 16),
            Node::Below(1, 2, 2),
        ],
        vec![Line::Op(vec![1, 0], 0), Line::Data(2, None), Line::Label("end")],
    );
    host.rules = vec![
        (PatternParameterType::Unspecified, 4),
        (PatternParameterType::Unspecified, 3),
    ];
    let mut assembler = Assembler::new();
    assembler.register_file("main.asm");
    // a failure, a success and a failure again, each left behind for the next call
    for max in [1, 2, 1, 0, 2, 5, 2] {
        let mut report = Report::new();
        match assembler.assemble(&mut report, &host, max) {
            Ok(output) => {
                assert!(max > 1);
                assert_eq!(to_i64(&output.binary.as_bigint()), 0x000201);
                assert_eq!(output.binary.len(), 24);
                assert_eq!(output.binary.spans.len(), 3);
                assert_eq!(output.symbols.symbols.len(), 1);
                assert_eq!(int_of(&output.symbols.symbols[0].value), 3);
                assert!(!report.has_errors());
            }
            Err(()) => {
                assert!(max <= 1);
                assert_eq!(
                    texts(&report),
                    vec!["instruction size did not converge after iterations".to_string()]
                );
            }
        }
        assert_eq!(assembler.root_files, vec!["main.asm".to_string()]);
    }
}

#[test]
fn one_unplaced_line_keeps_a_bank_out_of_the_output() {
    let host = program(
        vec![Node::Sized(0xaa, 8), Node::Num(1)],
        vec![
            Line::Bank("a", Some(0), Some(2), false),
            Line::Data(0, None),
            Line::Data(1, None),
        ],
    );
    let (r, assembler, report) = assemble(&host, 3);
    assert!(r.is_none());
    assert_eq!(texts(&report), vec!["cannot infer size of data element".to_string()]);
    let mut report = Report::new();
    assert!(assembler.state.resolve_banks(&mut report, &host).is_none());
    assert_eq!(report.messages.len(), 1);
}

#[test]
fn banks_go_to_their_places() {
    let host = program(
        vec![Node::Sized(0xaa, 8), Node::Sized(0xbb, 8), Node::Var("$"), Node::Sized(0xcc, 8)],
        vec![
            Line::Bank("second", Some(24), Some(1), false),
            Line::Data(0, None),
            Line::Bank("hidden", None, None, false),
            Line::Data(3, None),
            Line::Label("spot"),
            Line::Bank("first", Some(0), Some(2), true),
            Line::Data(1, None),
        ],
    );
    let (r, _, report) = assemble(&host, 10);
    let (binary, symbols) = r.unwrap();
    assert!(!report.has_errors());
    assert_eq!(binary.len(), 32);
    assert_eq!(to_i64(&binary.as_bigint()), 0xbb0000aa);
    assert_eq!(int_of(&symbols.symbols[0].value), 0x81);
    let offsets: Vec<Option<usize>> = binary.spans.iter().map(|s| s.offset).collect();
    assert_eq!(offsets, vec![Some(24), Some(0), None, Some(0)]);
}

#[test]
fn an_error_in_a_file_ends_the_assembly() {
    let mut host = program(vec![], vec![Line::Label("start"), Line::Broken("syntax error")]);
    host.files.push(("other.asm", vec![Line::Broken("never read")]));
    let mut assembler = Assembler::new();
    assembler.register_file("main.asm");
    assembler.register_file("other.asm");
    let mut report = Report::new();
    report.messages.push(Message { descr: "old".to_string(), span: span(0), parents: vec![] });
    assert!(assembler.assemble(&mut report, &host, 10).is_err());
    assert_eq!(texts(&report), vec!["old".to_string(), "syntax error".to_string()]);
    assert_eq!(assembler.state.symbols.symbols.len(), 1);
    assert_eq!(*host.passes.borrow(), 1);
    assert_eq!(assembler.root_files.len(), 2);
}

#[test]
fn a_missing_file_ends_the_assembly() {
    let host = Lang::new(vec![]);
    let (r, _, report) = assemble(&host, 10);
    assert!(r.is_none());
    assert_eq!(texts(&report), vec!["no such file".to_string()]);
}

#[test]
fn overlapping_banks_end_the_assembly() {
    let host = program(
        vec![],
        vec![
            Line::Bank("a", Some(0), Some(2), false),
            Line::Bank("b", Some(8), Some(2), false),
        ],
    );
    let (r, _, report) = assemble(&host, 10);
    assert!(r.is_none());
    assert_eq!(texts(&report), vec!["output region overlaps with bank `a`".to_string()]);
}
