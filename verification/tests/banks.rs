use asm_state::assembler::Assembler;
use asm_state::bank::{Bank, BankData, Invocation, InvocationKind, LabelInvocation};
use asm_state::bigint::BigInt;
use asm_state::diagn::{Report, Span};
use asm_state::expr::Expr;
use asm_state::ruleset::{Rule, Ruleset};
use asm_state::state::{BankRef, Context, ParserState, RuleRef, RulesetRef, State};
use asm_state::symbol::SymbolContext;
use std::rc::Rc;

fn span(start: usize) -> Span {
    Span { file: 0, start, end: start + 1 }
}

fn to_usize(b: &BigInt) -> usize {
    let mut n: usize = 0;
    for i in 0..usize::BITS as usize {
        if b.get_bit(i) {
            n |= 1 << i;
        }
    }
    n
}

fn bank(name: &str, offset: Option<usize>, size: Option<usize>) -> Bank {
    Bank {
        name: name.to_string(),
        wordsize: 8,
        labelalign: 0,
        addr_start: BigInt::from_usize(0x100),
        addr_size: size,
        output_offset: offset,
        fill: false,
        decl_span: Some(span(7)),
    }
}

fn ctx(bank: usize, bit_offset: usize, wordsize: usize) -> Context {
    Context {
        bit_offset,
        cur_wordsize: wordsize,
        bank_ref: BankRef { index: bank },
        symbol_ctx: SymbolContext { hierarchy: vec![] },
        cur_filename: Rc::new("main.asm".to_string()),
    }
}

#[test]
fn a_new_state_has_the_default_bank() {
    let state = State::new();
    assert_eq!(state.banks.len(), 1);
    assert_eq!(state.bankdata.len(), 1);
    assert_eq!(state.banks[0].name, "");
    assert_eq!(state.banks[0].wordsize, 8);
    assert_eq!(state.banks[0].output_offset, Some(0));
    assert_eq!(state.banks[0].addr_size, None);
    assert!(!state.banks[0].fill);
    assert_eq!(to_usize(&state.banks[0].addr_start), 0);
    assert_eq!(state.cur_bank, BankRef { index: 0 });
    assert_eq!(state.cur_wordsize, 8);
    assert_eq!(state.cur_labelalign, 0);
    assert!(!state.is_first_pass);
    assert!(state.is_resolvable());
}

#[test]
fn registered_files_are_kept_in_order() {
    let mut assembler = Assembler::new();
    assembler.register_file("a.asm");
    assembler.register_file("b.asm".to_string());
    assert_eq!(assembler.root_files, vec!["a.asm".to_string(), "b.asm".to_string()]);
}

#[test]
fn a_created_bank_is_current_and_found() {
    let mut state = State::new();
    let mut report = Report::new();
    let mut b = bank("rom", Some(0), Some(16));
    b.wordsize = 16;
    b.labelalign = 4;
    assert!(state.create_bank(b, &mut report).is_ok());
    assert_eq!(state.cur_bank, BankRef { index: 1 });
    assert_eq!(state.cur_wordsize, 16);
    assert_eq!(state.cur_labelalign, 4);
    assert_eq!(state.bankdata.len(), 2);
    assert_eq!(state.bankdata[1].bank_ref, BankRef { index: 1 });
    assert_eq!(state.bankdata[1].cur_bit_offset, 0);
    assert_eq!(state.find_bank("rom", &mut report, span(1)), Ok(BankRef { index: 1 }));
    assert!(!report.has_errors());
}

#[test]
fn the_first_bank_of_a_name_is_found() {
    let mut state = State::new();
    let mut report = Report::new();
    assert!(state.create_bank(bank("x", None, None), &mut report).is_ok());
    assert!(state.create_bank(bank("x", None, None), &mut report).is_ok());
    assert_eq!(state.find_bank("x", &mut report, span(1)), Ok(BankRef { index: 1 }));
}

#[test]
fn an_unknown_bank_is_an_error() {
    let state = State::new();
    let mut report = Report::new();
    assert_eq!(state.find_bank("rom", &mut report, span(3)), Err(()));
    assert_eq!(report.messages.len(), 1);
    assert_eq!(report.messages[0].descr, "unknown bank");
    assert_eq!(report.messages[0].span, span(3));
}

#[test]
fn no_bank_after_the_default_bank_was_used() {
    let mut state = State::new();
    let mut report = Report::new();
    state.get_bankdata_mut(BankRef { index: 0 }).cur_bit_offset = 8;
    assert_eq!(state.create_bank(bank("rom", Some(0), None), &mut report), Err(()));
    assert_eq!(state.banks.len(), 1);
    assert_eq!(
        report.messages[0].descr,
        "cannot create new bank if the default bank has already been used"
    );
    assert_eq!(report.messages[0].span, span(7));
}

fn overlap(a: (Option<usize>, Option<usize>), b: (Option<usize>, Option<usize>)) -> bool {
    let mut state = State::new();
    let mut report = Report::new();
    assert!(state.create_bank(bank("first", a.0, a.1), &mut report).is_ok());
    let r = state.create_bank(bank("second", b.0, b.1), &mut report);
    if r.is_err() {
        assert_eq!(report.messages.len(), 1);
        assert_eq!(report.messages[0].descr, "output region overlaps with bank `first`");
        assert_eq!(state.banks.len(), 2);
    } else {
        assert!(!report.has_errors());
        assert_eq!(state.banks.len(), 3);
    }
    r.is_err()
}

#[test]
fn output_regions_must_not_overlap() {
    // sizes are in words of eight bits
    assert!(overlap((Some(0), Some(2)), (Some(15), Some(1))));
    assert!(!overlap((Some(0), Some(2)), (Some(16), Some(1))));
    assert!(!overlap((Some(16), Some(1)), (Some(0), Some(2))));
    assert!(overlap((Some(15), Some(1)), (Some(0), Some(2))));
    assert!(overlap((Some(0), None), (Some(100), None)));
    assert!(overlap((Some(0), None), (Some(100), Some(1))));
    assert!(!overlap((Some(100), None), (Some(0), Some(1))));
    assert!(overlap((Some(7), None), (Some(0), Some(1))));
    assert!(!overlap((Some(0), Some(1)), (Some(8), None)));
    assert!(overlap((Some(0), Some(1)), (Some(7), None)));
    assert!(!overlap((None, None), (Some(0), None)));
    assert!(!overlap((Some(0), None), (None, Some(4))));
}

#[test]
fn huge_output_regions_are_compared_exactly() {
    assert!(overlap((Some(usize::MAX), Some(usize::MAX)), (Some(0), Some(usize::MAX))));
    assert!(!overlap((Some(usize::MAX), Some(usize::MAX)), (Some(0), Some(1))));
}

#[test]
fn the_default_bank_overlaps_nothing() {
    let mut state = State::new();
    let mut report = Report::new();
    assert!(state.create_bank(bank("rom", Some(0), Some(1)), &mut report).is_ok());
}

#[test]
fn addresses_count_words() {
    let mut state = State::new();
    let mut report = Report::new();
    assert!(state.create_bank(bank("rom", Some(0), None), &mut report).is_ok());
    let addr = state.get_addr(&mut report, &ctx(1, 24, 8), span(1)).unwrap();
    assert_eq!(to_usize(&addr), 0x103);
    assert!(!report.has_errors());
    assert_eq!(to_usize(&state.get_addr_aprox(&ctx(1, 31, 8))), 0x103);
    assert_eq!(to_usize(&state.get_addr_aprox(&ctx(0, 48, 16))), 3);
}

#[test]
fn an_unaligned_position_has_no_address() {
    let state = State::new();
    let mut report = Report::new();
    assert!(state.get_addr(&mut report, &ctx(0, 13, 8), span(2)).is_err());
    assert_eq!(
        report.messages[0].descr,
        "position is not aligned to an address boundary (3 bits short)"
    );
    assert_eq!(report.messages[0].span, span(2));
    assert!(state.get_addr(&mut report, &ctx(0, 15, 8), span(2)).is_err());
    assert_eq!(
        report.messages[1].descr,
        "position is not aligned to an address boundary (1 bit short)"
    );
    assert!(state.get_addr(&mut report, &ctx(0, 1, 1025), span(2)).is_err());
    assert_eq!(
        report.messages[2].descr,
        "position is not aligned to an address boundary (1024 bits short)"
    );
}

#[test]
fn the_current_context() {
    let mut state = State::new();
    let mut report = Report::new();
    assert!(state.create_bank(bank("rom", Some(0), None), &mut report).is_ok());
    state.get_bankdata_mut(BankRef { index: 1 }).cur_bit_offset = 40;
    state.symbols.cur_ctx.hierarchy.push("main".to_string());
    let parser = ParserState { filename: Rc::new("dir/a.asm".to_string()) };
    let ctx = state.get_ctx(&parser);
    assert_eq!(ctx.bit_offset, 40);
    assert_eq!(ctx.cur_wordsize, 8);
    assert_eq!(ctx.bank_ref, BankRef { index: 1 });
    assert_eq!(ctx.symbol_ctx.hierarchy, vec!["main".to_string()]);
    assert_eq!(*ctx.cur_filename, "dir/a.asm");
    assert!(Rc::ptr_eq(&ctx.cur_filename, &parser.filename));
    let copy = ctx.clone();
    assert_eq!(copy.bit_offset, 40);
    assert_eq!(copy.symbol_ctx.hierarchy, ctx.symbol_ctx.hierarchy);
    assert!(Rc::ptr_eq(&copy.cur_filename, &parser.filename));
}

#[test]
fn changing_bank_data() {
    let mut state = State::new();
    state.get_bankdata_mut(BankRef { index: 0 }).invocations.push(Invocation {
        ctx: ctx(0, 0, 8),
        size_guess: 0,
        span: span(1),
        kind: InvocationKind::Label(LabelInvocation {}),
    });
    assert_eq!(state.get_bankdata(BankRef { index: 0 }).invocations.len(), 1);
    assert!(state.is_resolvable());
    state.get_bankdata_mut(BankRef { index: 0 }).invocations[0].ctx.bank_ref.index = 9;
    assert!(!state.is_resolvable());
}

fn ruleset(name: &str) -> Ruleset {
    let rule = Rule {
        parameters: vec![],
        production: Expr { id: 5, span: span(5) },
        span: span(6),
    };
    Ruleset { name: name.to_string(), rules: vec![rule] }
}

#[test]
fn rulesets_are_found_and_activated() {
    let mut state = State::new();
    let mut report = Report::new();
    state.rulesets.push(ruleset("cpu"));
    state.rulesets.push(ruleset("fpu"));
    assert_eq!(state.find_ruleset("fpu", &mut report, span(1)), Ok(RulesetRef { index: 1 }));
    assert_eq!(state.activate_ruleset("fpu", &mut report, span(1)), Ok(()));
    assert_eq!(state.activate_ruleset("cpu", &mut report, span(1)), Ok(()));
    assert_eq!(
        state.active_rulesets,
        vec![RulesetRef { index: 1 }, RulesetRef { index: 0 }]
    );
    assert!(!report.has_errors());
    let rule = state
        .get_rule(RuleRef { ruleset_ref: RulesetRef { index: 1 }, index: 0 })
        .unwrap();
    assert_eq!(rule.production.id, 5);
}

#[test]
fn an_unknown_ruleset_is_an_error() {
    let mut state = State::new();
    let mut report = Report::new();
    assert_eq!(state.find_ruleset("gpu", &mut report, span(1)), Err(()));
    assert_eq!(state.activate_ruleset("gpu", &mut report, span(2)), Err(()));
    assert!(state.active_rulesets.is_empty());
    assert_eq!(report.messages.len(), 2);
    assert_eq!(report.messages[0].descr, "unknown ruleset");
    assert_eq!(report.messages[1].span, span(2));
}

#[test]
fn every_bank_needs_data_to_be_resolvable() {
    let mut state = State::new();
    assert!(state.is_resolvable());
    state.bankdata.push(BankData {
        bank_ref: BankRef { index: 1 },
        cur_bit_offset: 0,
        invocations: vec![],
    });
    assert!(state.is_resolvable());
    state.bankdata.clear();
    assert!(!state.is_resolvable());
}
