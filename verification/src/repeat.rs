//! What comes to the same when it is done again.
use vstd::prelude::*;

use crate::assembler::{
    assembles, bank_fails, banks_end, banks_resolve, combined, file_fails, files_parse, is_clean,
    lemma_bank_bits, lemma_failed_pass, parse_ends, parses_well, pass_ends, pass_starts, Assembly,
};
use crate::bank::{Bank, BankData, Invocation, InvocationKind};
use crate::bigint::BigInt;
use crate::bitvec::BitVecView;
use crate::diagn::{messages, Span};
use crate::eval::{
    after, answers, bits_per_char, bytes_answer, chars_answer, reads_file, Answer,
};
use crate::expr::{Expr, Resolution, Value, ValueView};
use crate::host::{FileServer, Host, Outcome, ParseOutcome, ScopeView};
use crate::laws::law_more_passes_do_no_harm;
use crate::output::{
    bank_bits, bank_messages, bank_resolution, bank_resolves, lemma_lines, line_resolves,
    BankResolution,
};
use crate::resolve::{
    argument_resolves, arguments_bind, as_data, bound, candidate_resolves, candidates_resolve,
    evaluates, is_last_success, is_only_success, lemma_candidate, lemma_candidates,
    lemma_last_argument, lemma_tries, no_success, produces, several_successes, Binding,
};
use crate::ruleset::{
    argument_view, candidate_view, candidate_views, PatternParameterType, Rule,
    RuleInvocationArgument, RuleInvocationCandidate,
};
use crate::state::{Context, State};
use crate::symbol::{full_name, SymbolManager};
use crate::text::texts;

verus! {

/// Whether expressions come to the same in both scopes.
pub open spec fn evaluate_alike<H: Host>(a: ScopeView<'_, H>, b: ScopeView<'_, H>) -> bool {
    forall|expr: Expr, locals: Map<Seq<char>, ValueView>, x: Resolution, y: Resolution|
        #[trigger] evaluates(a, expr, locals, x) && #[trigger] evaluates(b, expr, locals, y)
            ==> x == y
}

/// Whether evaluating an expression always comes to the same.
pub open spec fn evaluates_one_way<H: Host>(scope: ScopeView<'_, H>) -> bool {
    evaluate_alike(scope, scope)
}

/// Whether the candidates in the one state are those in the other: because nothing
/// differs, or because they read the same and are candidates of the state.
spec fn candidates_alike(
    a: State,
    b: State,
    c: Seq<RuleInvocationCandidate>,
    d: Seq<RuleInvocationCandidate>,
) -> bool {
    ||| a.rulesets == b.rulesets && c == d
    ||| a@.rulesets == b@.rulesets && candidate_views(c) == candidate_views(d) && a.candidates_ok(c)
}

/// The same of one candidate.
spec fn candidate_alike(
    a: State,
    b: State,
    c: RuleInvocationCandidate,
    d: RuleInvocationCandidate,
) -> bool {
    ||| a.rulesets == b.rulesets && c == d
    ||| a@.rulesets == b@.rulesets && candidate_view(c) == candidate_view(d) && a.candidate_ok(c)
}

/// The same of an argument for a parameter of that type.
spec fn argument_alike(
    a: State,
    b: State,
    typ: PatternParameterType,
    c: RuleInvocationArgument,
    d: RuleInvocationArgument,
) -> bool {
    ||| a.rulesets == b.rulesets && c == d
    ||| a@.rulesets == b@.rulesets && argument_view(c) == argument_view(d) && a.argument_ok(typ, c)
}

/// Whether two rules have the same first parameters, and the arguments for them are the
/// same.
spec fn arguments_alike(
    a: State,
    b: State,
    p: Rule,
    q: Rule,
    c: Seq<RuleInvocationArgument>,
    d: Seq<RuleInvocationArgument>,
) -> bool {
    &&& c.len() == d.len()
    &&& forall|i: int|
        #![trigger c[i]]
        #![trigger d[i]]
        #![trigger p.parameters@[i]]
        0 <= i < c.len() ==> {
            &&& p.parameters@[i].typ == q.parameters@[i].typ
            &&& p.parameters@[i].name@ == q.parameters@[i].name@
            &&& argument_alike(a, b, p.parameters@[i].typ, c[i], d[i])
        }
}

/// Each of the candidates is the same.
proof fn lemma_each_candidate_alike(
    a: State,
    b: State,
    c: Seq<RuleInvocationCandidate>,
    d: Seq<RuleInvocationCandidate>,
)
    requires
        candidates_alike(a, b, c, d),
    ensures
        c.len() == d.len(),
        forall|i: int| 0 <= i < c.len() ==> candidate_alike(a, b, #[trigger] c[i], d[i]),
{
    if !(a.rulesets == b.rulesets && c == d) {
        assert(candidate_views(c).len() == candidate_views(d).len());
        assert forall|i: int| 0 <= i < c.len() implies candidate_alike(
            a,
            b,
            #[trigger] c[i],
            d[i],
        ) by {
            assert(candidate_views(c)[i] == candidate_view(c[i]));
            assert(candidate_views(d)[i] == candidate_view(d[i]));
            assert(a.candidate_ok(c[i]));
        }
    }
}

/// The same candidate has the same rule and the same arguments.
proof fn lemma_candidate_parts_alike(
    a: State,
    b: State,
    c: RuleInvocationCandidate,
    d: RuleInvocationCandidate,
)
    requires
        candidate_alike(a, b, c, d),
    ensures
        a.rule_of(c.rule_ref).production == b.rule_of(d.rule_ref).production,
        arguments_alike(a, b, a.rule_of(c.rule_ref), b.rule_of(d.rule_ref), c.args@, d.args@),
{
    if !(a.rulesets == b.rulesets && c == d) {
        let group = c.rule_ref.ruleset_ref.index as int;
        let rule = c.rule_ref.index as int;
        let p = a.rule_of(c.rule_ref);
        let q = b.rule_of(d.rule_ref);
        assert(a.candidate_ok(c));
        assert(candidate_view(c).rule_ref == candidate_view(d).rule_ref);
        assert(candidate_view(c).args.len() == candidate_view(d).args.len());
        assert(a@.rulesets.len() == b@.rulesets.len());
        assert(a@.rulesets[group] == a.rulesets@[group]@);
        assert(b@.rulesets[group] == b.rulesets@[group]@);
        assert(a@.rulesets[group].rules.len() == b@.rulesets[group].rules.len());
        assert(a@.rulesets[group].rules[rule] == p@);
        assert(b@.rulesets[group].rules[rule] == q@);
        assert(p@.parameters.len() == q@.parameters.len());
        assert forall|i: int| 0 <= i < c.args@.len() implies {
            &&& p.parameters@[i].typ == q.parameters@[i].typ
            &&& p.parameters@[i].name@ == q.parameters@[i].name@
            &&& argument_alike(a, b, p.parameters@[i].typ, c.args@[i], d.args@[i])
        } by {
            assert(p@.parameters[i] == p.parameters@[i]@);
            assert(q@.parameters[i] == q.parameters@[i]@);
            assert(candidate_view(c).args[i] == argument_view(c.args@[i]));
            assert(candidate_view(d).args[i] == argument_view(d.args@[i]));
            assert(a.argument_ok(p.parameters@[i].typ, c.args@[i]));
        }
    }
}

/// Where expressions come to the same, so do the same instructions.
proof fn lemma_candidates_agree<H: Host>(
    a: ScopeView<'_, H>,
    b: ScopeView<'_, H>,
    span: Span,
    c: Seq<RuleInvocationCandidate>,
    d: Seq<RuleInvocationCandidate>,
    x: Resolution,
    y: Resolution,
)
    requires
        evaluate_alike(a, b),
        a.final_pass == b.final_pass,
        candidates_alike(*a.state, *b.state, c, d),
        candidates_resolve(a, span, c, x),
        candidates_resolve(b, span, d, y),
    ensures
        x == y,
    decreases c,
{
    lemma_each_candidate_alike(*a.state, *b.state, c, d);
    if a.final_pass && c.len() == 1 {
        lemma_candidate_agrees(a, b, span, c[0], d[0], x, y);
    } else {
        let (tries, again_x) = lemma_tries(a, span, c, x);
        let (others, again_y) = lemma_tries(b, span, d, y);
        assert forall|i: int| 0 <= i < c.len() implies tries[i] == others[i] by {
            assert(candidate_alike(*a.state, *b.state, c[i], d[i]));
            lemma_candidate_agrees(a, b, span, c[i], d[i], tries[i], others[i]);
        }
        assert(tries =~= others);
        if !no_success(tries) && a.final_pass && !several_successes(tries) {
            let k = lemma_only_success(tries);
            assert(candidate_alike(*a.state, *b.state, c[k], d[k]));
            lemma_candidate_agrees(a, b, span, c[k], d[k], again_x, again_y);
        }
        if !no_success(tries) && !a.final_pass {
            let i = choose|k: int| #[trigger] is_last_success(tries, k) && x == tries[k];
            let j = choose|k: int| #[trigger] is_last_success(others, k) && y == others[k];
            assert(i == j) by {
                if i < j {
                    assert(tries[j].result is Err);
                }
                if j < i {
                    assert(others[i].result is Err);
                }
            }
        }
    }
}

/// Where some try was a success, but not several were, one was.
pub proof fn lemma_only_success(tries: Seq<Resolution>) -> (k: int)
    requires
        !no_success(tries),
        !several_successes(tries),
    ensures
        is_only_success(tries, k),
{
    let k = choose|k: int| 0 <= k < tries.len() && !((#[trigger] tries[k]).result is Err);
    assert forall|i: int| 0 <= i < tries.len() && i != k implies (
    #[trigger] tries[i]).result is Err by {
        if tries[i].result is Ok {
            assert(tries[k].result is Ok);
            assert(several_successes(tries));
        }
    }
    k
}

/// Where expressions come to the same, so does the same candidate.
proof fn lemma_candidate_agrees<H: Host>(
    a: ScopeView<'_, H>,
    b: ScopeView<'_, H>,
    span: Span,
    c: RuleInvocationCandidate,
    d: RuleInvocationCandidate,
    x: Resolution,
    y: Resolution,
)
    requires
        evaluate_alike(a, b),
        a.final_pass == b.final_pass,
        candidate_alike(*a.state, *b.state, c, d),
        candidate_resolves(a, span, c, x),
        candidate_resolves(b, span, d, y),
    ensures
        x == y,
    decreases c,
{
    let p = a.state.rule_of(c.rule_ref);
    let q = b.state.rule_of(d.rule_ref);
    lemma_candidate_parts_alike(*a.state, *b.state, c, d);
    let m = choose|m: Binding|
        {
            &&& arguments_bind(a, span, p, c.args@, m)
            &&& #[trigger] produces(a, p, m, x)
        };
    let n = choose|n: Binding|
        {
            &&& arguments_bind(b, span, q, d.args@, n)
            &&& #[trigger] produces(b, q, n, y)
        };
    lemma_arguments_agree(a, b, span, p, q, c.args@, d.args@, m, n);
}

/// The same arguments are the same without the last one.
proof fn lemma_fewer_arguments(
    a: State,
    b: State,
    p: Rule,
    q: Rule,
    c: Seq<RuleInvocationArgument>,
    d: Seq<RuleInvocationArgument>,
)
    requires
        arguments_alike(a, b, p, q, c, d),
        c.len() > 0,
    ensures
        arguments_alike(a, b, p, q, c.drop_last(), d.drop_last()),
{
    assert forall|i: int| 0 <= i < c.drop_last().len() implies {
        &&& p.parameters@[i].typ == q.parameters@[i].typ
        &&& p.parameters@[i].name@ == q.parameters@[i].name@
        &&& argument_alike(a, b, p.parameters@[i].typ, c.drop_last()[i], d.drop_last()[i])
    } by {
        assert(c.drop_last()[i] == c[i]);
        assert(d.drop_last()[i] == d[i]);
    }
}

/// Where expressions come to the same, so do the same parameters.
proof fn lemma_arguments_agree<H: Host>(
    a: ScopeView<'_, H>,
    b: ScopeView<'_, H>,
    span: Span,
    p: Rule,
    q: Rule,
    c: Seq<RuleInvocationArgument>,
    d: Seq<RuleInvocationArgument>,
    m: Binding,
    n: Binding,
)
    requires
        evaluate_alike(a, b),
        a.final_pass == b.final_pass,
        arguments_alike(*a.state, *b.state, p, q, c, d),
        arguments_bind(a, span, p, c, m),
        arguments_bind(b, span, q, d, n),
    ensures
        m == n,
    decreases c,
{
    if c.len() > 0 {
        let k = c.len() - 1;
        let (before_m, x) = lemma_last_argument(a, span, p, c, m);
        let (before_n, y) = lemma_last_argument(b, span, q, d, n);
        assert(argument_alike(*a.state, *b.state, p.parameters@[k].typ, c[k], d[k]));
        lemma_fewer_arguments(*a.state, *b.state, p, q, c, d);
        lemma_arguments_agree(a, b, span, p, q, c.drop_last(), d.drop_last(), before_m, before_n);
        if before_m.locals is Some {
            lemma_argument_agrees(a, b, span, p.parameters@[k].typ, c[k], d[k], x, y);
        }
    }
}

/// Where expressions come to the same, so does the same argument.
proof fn lemma_argument_agrees<H: Host>(
    a: ScopeView<'_, H>,
    b: ScopeView<'_, H>,
    span: Span,
    typ: PatternParameterType,
    c: RuleInvocationArgument,
    d: RuleInvocationArgument,
    x: Resolution,
    y: Resolution,
)
    requires
        evaluate_alike(a, b),
        a.final_pass == b.final_pass,
        argument_alike(*a.state, *b.state, typ, c, d),
        argument_resolves(a, span, typ, c, x),
        argument_resolves(b, span, typ, d, y),
    ensures
        x == y,
    decreases c,
{
    match (c, d) {
        (
            RuleInvocationArgument::NestedRuleset(inner),
            RuleInvocationArgument::NestedRuleset(other),
        ) => {
            lemma_candidates_agree(a, b, span, inner@, other@, x, y);
        },
        _ => {},
    }
}

/// Where expressions always come to the same, so do instructions.
pub proof fn law_candidates_resolve_one_way<H: Host>(
    scope: ScopeView<'_, H>,
    span: Span,
    candidates: Seq<RuleInvocationCandidate>,
    a: Resolution,
    b: Resolution,
)
    requires
        evaluates_one_way(scope),
        candidates_resolve(scope, span, candidates, a),
        candidates_resolve(scope, span, candidates, b),
    ensures
        a == b,
{
    lemma_candidates_agree(scope, scope, span, candidates, candidates, a, b);
}

/// Where expressions always come to the same, so does a candidate.
pub proof fn law_candidate_resolves_one_way<H: Host>(
    scope: ScopeView<'_, H>,
    span: Span,
    candidate: RuleInvocationCandidate,
    a: Resolution,
    b: Resolution,
)
    requires
        evaluates_one_way(scope),
        candidate_resolves(scope, span, candidate, a),
        candidate_resolves(scope, span, candidate, b),
    ensures
        a == b,
{
    lemma_candidate_agrees(scope, scope, span, candidate, candidate, a, b);
}

/// Where the expressions of a line are evaluated in the final pass.
pub open spec fn final_scope<'a, H: Host>(
    state: &'a State,
    host: &'a H,
    ctx: &'a Context,
) -> ScopeView<'a, H> {
    ScopeView { state, ctx, host, final_pass: true }
}

/// Whether the two lines are the same, each in its state.
spec fn line_alike(a: &State, b: &State, c: Invocation, d: Invocation) -> bool {
    &&& c.span == d.span
    &&& c.size_guess == d.size_guess
    &&& c.ctx.bit_offset == d.ctx.bit_offset
    &&& a.addr_of(c.ctx) == b.addr_of(d.ctx)
    &&& match (c.kind, d.kind) {
        (InvocationKind::Rule(r), InvocationKind::Rule(s)) => candidates_alike(
            *a,
            *b,
            r.candidates@,
            s.candidates@,
        ),
        (InvocationKind::Data(r), InvocationKind::Data(s)) => r == s,
        (InvocationKind::Label(_), InvocationKind::Label(_)) => true,
        _ => false,
    }
}

/// The same of all lines of a bank.
spec fn lines_alike(a: &State, b: &State, c: Seq<Invocation>, d: Seq<Invocation>) -> bool {
    &&& c.len() == d.len()
    &&& forall|i: int|
        #![trigger c[i]]
        #![trigger d[i]]
        0 <= i < c.len() ==> line_alike(a, b, c[i], d[i])
}

/// Whether the two banks take the same lines to the same bits.
spec fn banks_alike(c: Bank, d: Bank) -> bool {
    &&& c.wordsize == d.wordsize
    &&& c.addr_size == d.addr_size
    &&& c.output_offset == d.output_offset
    &&& c.fill == d.fill
}

/// The same lines come to the same bits and messages.
proof fn lemma_same_bits(
    a: &State,
    b: &State,
    bank: Bank,
    other: Bank,
    c: Seq<Invocation>,
    d: Seq<Invocation>,
    values: Seq<Resolution>,
)
    requires
        lines_alike(a, b, c, d),
        banks_alike(bank, other),
        values.len() <= c.len(),
    ensures
        bank_bits(*a, bank, c, values) == bank_bits(*b, other, d, values),
        bank_messages(bank, c, values) == bank_messages(other, d, values),
    decreases values.len(),
{
    if values.len() > 0 {
        let k = values.len() - 1;
        assert(line_alike(a, b, c[k], d[k]));
        lemma_same_bits(a, b, bank, other, c, d, values.drop_last());
    }
}

/// Where expressions come to the same, so does the same bank.
proof fn lemma_bank_agrees<H: Host>(
    a: &State,
    b: &State,
    host: &H,
    bank: Bank,
    other: Bank,
    c: BankData,
    d: BankData,
    x: BankResolution,
    y: BankResolution,
)
    requires
        lines_alike(a, b, c.invocations@, d.invocations@),
        forall|i: int|
            #![trigger c.invocations@[i]]
            0 <= i < c.invocations@.len() ==> evaluate_alike(
                final_scope(a, host, &c.invocations@[i].ctx),
                final_scope(b, host, &d.invocations@[i].ctx),
            ),
        banks_alike(bank, other),
        bank_resolves(a, host, bank, c, x),
        bank_resolves(b, host, other, d, y),
    ensures
        x == y,
{
    let lines = c.invocations@;
    let others = d.invocations@;
    let v = lemma_lines(a, host, bank, c, x);
    let w = lemma_lines(b, host, other, d, y);
    assert forall|i: int| 0 <= i < v.len() && i < w.len() implies v[i] == w[i] by {
        assert(line_alike(a, b, lines[i], others[i]));
        assert(line_resolves(a, host, lines[i], v[i]));
        assert(line_resolves(b, host, others[i], w[i]));
        match (lines[i].kind, others[i].kind) {
            (InvocationKind::Rule(r), InvocationKind::Rule(s)) => {
                lemma_candidates_agree(
                    final_scope(a, host, &lines[i].ctx),
                    final_scope(b, host, &others[i].ctx),
                    lines[i].span,
                    r.candidates@,
                    s.candidates@,
                    v[i],
                    w[i],
                );
            },
            _ => {},
        }
    }
    assert(v.len() == w.len()) by {
        if v.len() < w.len() {
            assert(v.last() == w[v.len() - 1]);
        }
        if w.len() < v.len() {
            assert(w.last() == v[w.len() - 1]);
        }
    }
    assert(v =~= w);
    lemma_same_bits(a, b, bank, other, lines, others, v);
}

/// Where expressions always come to the same, so does a bank.
pub proof fn law_bank_resolves_one_way<H: Host>(
    state: &State,
    host: &H,
    bank: Bank,
    bankdata: BankData,
    a: BankResolution,
    b: BankResolution,
)
    requires
        forall|ctx: &Context| evaluates_one_way(#[trigger] final_scope(state, host, ctx)),
        bank_resolves(state, host, bank, bankdata, a),
        bank_resolves(state, host, bank, bankdata, b),
    ensures
        a == b,
{
    let lines = bankdata.invocations@;
    assert(lines_alike(state, state, lines, lines));
    lemma_bank_agrees(state, state, host, bank, bank, bankdata, bankdata, a, b);
}

/// Whether the two states define the same: banks, symbols and rules.
pub open spec fn same_definitions(a: State, b: State) -> bool {
    &&& a@.banks == b@.banks
    &&& a@.symbols == b@.symbols
    &&& a@.rulesets == b@.rulesets
}

/// Whether every variable stands for the same in both scopes.
pub open spec fn variables_alike<H>(a: ScopeView<'_, H>, b: ScopeView<'_, H>) -> bool {
    &&& forall|level: usize, names: Seq<Seq<char>>|
        #[trigger] a.state.variable(*a.ctx, level, names, a.final_pass) == b.state.variable(
            *b.ctx,
            level,
            names,
            b.final_pass,
        )
    &&& forall|level: usize, names: Seq<Seq<char>>, span: Span|
        #[trigger] a.state.variable_messages(*a.ctx, level, names, span)
            == b.state.variable_messages(*b.ctx, level, names, span)
}

/// Whether every call of a built-in function comes to the same in both scopes.
pub open spec fn functions_alike<H: FileServer>(a: ScopeView<'_, H>, b: ScopeView<'_, H>) -> bool {
    forall|
        function: Seq<char>,
        args: Seq<Value>,
        others: Seq<Value>,
        span: Span,
        x: Answer,
        y: Answer,
    |
        {
            &&& #[trigger] answers(a.host, *a.ctx, function, args, span, x)
            &&& #[trigger] answers(b.host, *b.ctx, function, others, span, y)
            &&& values(args) == values(others)
        } ==> x == y
}

/// What a row of values reads.
pub open spec fn values(row: Seq<Value>) -> Seq<ValueView> {
    row.map_values(|v: Value| v@)
}

/// Whether the evaluator always does the same: in scopes that give it the same answers,
/// an expression comes to the same. These answers are all that it can get from a scope.
pub open spec fn evaluates_by_answers<H: Host>(host: &H) -> bool {
    forall|a: ScopeView<'_, H>, b: ScopeView<'_, H>|
        {
            &&& a.host == host && b.host == host
            &&& variables_alike(a, b)
            &&& functions_alike(a, b)
        } ==> #[trigger] evaluate_alike(a, b)
}

/// Whether two results and their messages are the same.
pub open spec fn same_outcome<T: View>(x: Outcome<T>, y: Outcome<T>) -> bool {
    &&& messages(x.messages@) == messages(y.messages@)
    &&& match (x.result, y.result) {
        (Ok(p), Ok(q)) => p@ == q@,
        (Err(_), Err(_)) => true,
        _ => false,
    }
}

/// Whether reading files always comes to the same.
pub open spec fn reads_one_way<H: FileServer>(host: &H) -> bool {
    &&& forall|m: &BigInt, n: &BigInt, x: String, y: String|
        {
            &&& #[trigger] call_ensures(H::as_string, (host, m), x)
            &&& #[trigger] call_ensures(H::as_string, (host, n), y)
            &&& m@ == n@
        } ==> x@ == y@
    &&& forall|
        c: &String,
        d: &String,
        f: &String,
        g: &String,
        span: Span,
        x: Outcome<String>,
        y: Outcome<String>,
    |
        {
            &&& #[trigger] call_ensures(H::filename_navigate, (host, c, f, span), x)
            &&& #[trigger] call_ensures(H::filename_navigate, (host, d, g, span), y)
            &&& c@ == d@
            &&& f@ == g@
        } ==> same_outcome(x, y)
    &&& forall|f: &String, g: &String, span: Span, x: Outcome<Vec<u8>>, y: Outcome<Vec<u8>>|
        {
            &&& #[trigger] call_ensures(H::get_bytes, (host, f, span), x)
            &&& #[trigger] call_ensures(H::get_bytes, (host, g, span), y)
            &&& f@ == g@
        } ==> same_outcome(x, y)
    &&& forall|f: &String, g: &String, span: Span, x: Outcome<Vec<char>>, y: Outcome<Vec<char>>|
        {
            &&& #[trigger] call_ensures(H::get_chars, (host, f, span), x)
            &&& #[trigger] call_ensures(H::get_chars, (host, g, span), y)
            &&& f@ == g@
        } ==> same_outcome(x, y)
}

/// The same symbols give the same name the same value.
proof fn lemma_same_lookup(
    a: SymbolManager,
    b: SymbolManager,
    ctx: Seq<Seq<char>>,
    level: usize,
    names: Seq<Seq<char>>,
)
    requires
        a@ == b@,
    ensures
        a.lookup(ctx, level, names) == b.lookup(ctx, level, names),
{
    let name = full_name(ctx, level, names);
    assert(a@.symbols.len() == a.symbols@.len() && b@.symbols.len() == b.symbols@.len());
    assert forall|i: int| 0 <= i < a.symbols@.len() implies {
        &&& texts(#[trigger] a.symbols@[i].hierarchy@) == texts(b.symbols@[i].hierarchy@)
        &&& a.symbols@[i].value@ == b.symbols@[i].value@
    } by {
        assert(a@.symbols[i] == a.symbols@[i]@ && b@.symbols[i] == b.symbols@[i]@);
    }
    assert forall|i: int| #[trigger] a.is_first(name, i) == b.is_first(name, i) by {
        if 0 <= i < a.symbols@.len() {
            assert(texts(a.symbols@[i].hierarchy@) == texts(b.symbols@[i].hierarchy@));
        }
        if a.is_first(name, i) {
            assert forall|j: int| 0 <= j < i implies texts(#[trigger] b.symbols@[j].hierarchy@)
                != name by {
                assert(texts(a.symbols@[j].hierarchy@) != name);
            }
        }
    }
    if a.defines(name) {
        let i = choose|i: int| a.is_first(name, i);
        let j = choose|j: int| b.is_first(name, j);
        assert(a.is_first(name, i) && b.is_first(name, i) && b.is_first(name, j));
        assert(i == j) by {
            if i < j {
                assert(texts(b.symbols@[i].hierarchy@) != name);
            }
            if j < i {
                assert(texts(b.symbols@[j].hierarchy@) != name);
            }
        }
        assert(texts(a.symbols@[i].hierarchy@) == name);
    } else {
        assert(!b.defines(name)) by {
            if b.defines(name) {
                let j = choose|j: int| b.is_first(name, j);
                assert(a.is_first(name, j));
            }
        }
    }
}

/// In the final pass, two states that define the same give the same variables.
proof fn lemma_same_variables<H>(a: ScopeView<'_, H>, b: ScopeView<'_, H>)
    requires
        same_definitions(*a.state, *b.state),
        a.ctx@ == b.ctx@,
        a.final_pass,
        b.final_pass,
        a.state.has_place(*a.ctx),
    ensures
        variables_alike(a, b),
{
    let k = a.ctx.bank_ref.index as int;
    assert(a.ctx@.bank_ref == b.ctx@.bank_ref);
    assert(a.ctx@.bit_offset == b.ctx@.bit_offset);
    assert(a.ctx@.cur_wordsize == b.ctx@.cur_wordsize);
    assert(a.ctx@.symbol_ctx == b.ctx@.symbol_ctx);
    assert(a.state@.banks.len() == a.state.banks@.len());
    assert(b.state@.banks.len() == b.state.banks@.len());
    assert(a.state@.banks[k] == a.state.banks@[k]@);
    assert(b.state@.banks[k] == b.state.banks@[k]@);
    assert(a.state.addr_of(*a.ctx) == b.state.addr_of(*b.ctx));
    assert forall|level: usize, names: Seq<Seq<char>>|
        #[trigger] a.state.variable(*a.ctx, level, names, a.final_pass) == b.state.variable(
            *b.ctx,
            level,
            names,
            b.final_pass,
        ) by {
        lemma_same_lookup(a.state.symbols, b.state.symbols, a.ctx.symbol_ctx@, level, names);
    }
}

/// Where reading files always comes to the same, so does a function call.
proof fn lemma_answers_agree<H: FileServer>(
    host: &H,
    c: Context,
    d: Context,
    function: Seq<char>,
    args: Seq<Value>,
    others: Seq<Value>,
    span: Span,
    x: Answer,
    y: Answer,
)
    requires
        reads_one_way(host),
        c@ == d@,
        values(args) == values(others),
        answers(host, c, function, args, span, x),
        answers(host, d, function, others, span, y),
    ensures
        x == y,
{
    assert(values(args).len() == args.len() && values(others).len() == others.len());
    if args.len() == 1 {
        assert(values(args)[0] == args[0]@ && values(others)[0] == others[0]@);
    }
    if function != "assert"@ && args.len() == 1 && args[0] is Integer {
        let (filename, file) = choose|filename: String, file: Outcome<String>|
            {
                &&& call_ensures(H::as_string, (host, &args[0]->Integer_0), filename)
                &&& #[trigger] call_ensures(
                    H::filename_navigate,
                    (host, &*c.cur_filename, &filename, span),
                    file,
                )
                &&& reads_file(host, function, file, span, x)
            };
        let (other_name, other) = choose|filename: String, file: Outcome<String>|
            {
                &&& call_ensures(H::as_string, (host, &others[0]->Integer_0), filename)
                &&& #[trigger] call_ensures(
                    H::filename_navigate,
                    (host, &*d.cur_filename, &filename, span),
                    file,
                )
                &&& reads_file(host, function, file, span, y)
            };
        assert(c@.cur_filename == d@.cur_filename);
        assert(filename@ == other_name@);
        assert(same_outcome(file, other));
        lemma_readings_agree(host, function, file, other, span, x, y);
    }
}

/// Where reading files always comes to the same, so does a function that reads one.
proof fn lemma_readings_agree<H: FileServer>(
    host: &H,
    function: Seq<char>,
    file: Outcome<String>,
    other: Outcome<String>,
    span: Span,
    x: Answer,
    y: Answer,
)
    requires
        reads_one_way(host),
        same_outcome(file, other),
        reads_file(host, function, file, span, x),
        reads_file(host, function, other, span, y),
    ensures
        x == y,
{
    if let (Ok(f), Ok(g)) = (file.result, other.result) {
        let before = messages(file.messages@);
        if function == "incbin"@ {
            let p = choose|bytes: Outcome<Vec<u8>>|
                {
                    &&& #[trigger] call_ensures(H::get_bytes, (host, &f, span), bytes)
                    &&& x == after(before, bytes_answer(bytes))
                };
            let q = choose|bytes: Outcome<Vec<u8>>|
                {
                    &&& #[trigger] call_ensures(H::get_bytes, (host, &g, span), bytes)
                    &&& y == after(before, bytes_answer(bytes))
                };
            assert(same_outcome(p, q));
        } else {
            let bits = bits_per_char(function);
            let p = choose|chars: Outcome<Vec<char>>|
                {
                    &&& #[trigger] call_ensures(H::get_chars, (host, &f, span), chars)
                    &&& x == after(before, chars_answer(chars, bits, span))
                };
            let q = choose|chars: Outcome<Vec<char>>|
                {
                    &&& #[trigger] call_ensures(H::get_chars, (host, &g, span), chars)
                    &&& y == after(before, chars_answer(chars, bits, span))
                };
            assert(same_outcome(p, q));
        }
    }
}

/// Where the host always does the same, expressions come to the same in the final pass
/// of two states that define the same.
proof fn lemma_same_evaluation<H: Host>(host: &H, a: ScopeView<'_, H>, b: ScopeView<'_, H>)
    requires
        reads_one_way(host),
        evaluates_by_answers(host),
        a.host == host,
        b.host == host,
        same_definitions(*a.state, *b.state),
        a.ctx@ == b.ctx@,
        a.final_pass,
        b.final_pass,
        a.state.has_place(*a.ctx),
    ensures
        evaluate_alike(a, b),
{
    lemma_same_variables(a, b);
    lemma_same_functions(a, b);
}

/// At the same place, functions come to the same.
proof fn lemma_same_functions<H: FileServer>(a: ScopeView<'_, H>, b: ScopeView<'_, H>)
    requires
        reads_one_way(a.host),
        a.host == b.host,
        a.ctx@ == b.ctx@,
    ensures
        functions_alike(a, b),
{
    assert forall|
        function: Seq<char>,
        args: Seq<Value>,
        others: Seq<Value>,
        span: Span,
        x: Answer,
        y: Answer,
    |
        {
            &&& #[trigger] answers(a.host, *a.ctx, function, args, span, x)
            &&& #[trigger] answers(b.host, *b.ctx, function, others, span, y)
            &&& values(args) == values(others)
        } implies x == y by {
        lemma_answers_agree(a.host, *a.ctx, *b.ctx, function, args, others, span, x, y);
    }
}

/// With a host that always does the same, an expression always comes to the same.
pub proof fn law_expressions_evaluate_one_way<H: Host>(scope: ScopeView<'_, H>)
    requires
        reads_one_way(scope.host),
        evaluates_by_answers(scope.host),
    ensures
        evaluates_one_way(scope),
{
    lemma_same_functions(scope, scope);
    assert(variables_alike(scope, scope));
}

/// The same line is the same in two states with the same banks and rules.
proof fn lemma_same_line(a: &State, b: &State, c: Invocation, d: Invocation)
    requires
        a@.banks == b@.banks,
        a@.rulesets == b@.rulesets,
        c@ == d@,
        a.invocation_ok(c),
    ensures
        line_alike(a, b, c, d),
{
    let k = c.ctx.bank_ref.index as int;
    assert(c.ctx@.bank_ref == d.ctx@.bank_ref);
    assert(c.ctx@.bit_offset == d.ctx@.bit_offset);
    assert(c.ctx@.cur_wordsize == d.ctx@.cur_wordsize);
    assert(a@.banks.len() == a.banks@.len() && b@.banks.len() == b.banks@.len());
    assert(a@.banks[k] == a.banks@[k]@);
    assert(b@.banks[k] == b.banks@[k]@);
    assert(c.kind@ == d.kind@);
}

/// The lines of a bank are the same in two states with the same banks and rules.
proof fn lemma_own_lines(a: &State, b: &State, bank: Bank, bankdata: BankData)
    requires
        a@.banks == b@.banks,
        a@.rulesets == b@.rulesets,
        a.bankdata_ok(bank, bankdata),
    ensures
        lines_alike(a, b, bankdata.invocations@, bankdata.invocations@),
{
    let lines = bankdata.invocations@;
    assert forall|i: int| #![trigger lines[i]] 0 <= i < lines.len() implies line_alike(
        a,
        b,
        lines[i],
        lines[i],
    ) by {
        lemma_same_line(a, b, lines[i], lines[i]);
    }
}

/// The output does not depend on a guess: two states that define the same take a bank
/// to the same bits and the same messages, whatever they hold besides. The host is to do
/// the same always: an evaluator can ask a scope for variables and functions only, and
/// in the final pass neither is a guess.
pub proof fn law_output_needs_no_guess<H: Host>(
    a: &State,
    b: &State,
    host: &H,
    bank: Bank,
    bankdata: BankData,
    x: BankResolution,
    y: BankResolution,
)
    requires
        reads_one_way(host),
        evaluates_by_answers(host),
        same_definitions(*a, *b),
        a.bankdata_ok(bank, bankdata),
        bank_resolves(a, host, bank, bankdata, x),
        bank_resolves(b, host, bank, bankdata, y),
    ensures
        x == y,
{
    lemma_own_lines(a, b, bank, bankdata);
    let lines = bankdata.invocations@;
    assert forall|i: int| #![trigger lines[i]] 0 <= i < lines.len() implies evaluate_alike(
        final_scope(a, host, &lines[i].ctx),
        final_scope(b, host, &lines[i].ctx),
    ) by {
        assert(a.invocation_ok(lines[i]));
        lemma_same_evaluation(
            host,
            final_scope(a, host, &lines[i].ctx),
            final_scope(b, host, &lines[i].ctx),
        );
    }
    lemma_bank_agrees(a, b, host, bank, bank, bankdata, bankdata, x, y);
}

/// Whether an expression may come to the same in both scopes.
pub open spec fn may_evaluate_alike<H: Host>(a: ScopeView<'_, H>, b: ScopeView<'_, H>) -> bool {
    forall|expr: Expr, locals: Map<Seq<char>, ValueView>, r: Resolution|
        #![trigger evaluates(a, expr, locals, r)]
        #![trigger evaluates(b, expr, locals, r)]
        evaluates(a, expr, locals, r) == evaluates(b, expr, locals, r)
}

/// Whether what an expression may come to depends on nothing but its place and the
/// variables that it can ask for.
pub open spec fn evaluates_by_variables<H: Host>(host: &H) -> bool {
    forall|a: ScopeView<'_, H>, b: ScopeView<'_, H>|
        {
            &&& a.host == host && b.host == host
            &&& a.ctx == b.ctx
            &&& variables_alike(a, b)
        } ==> #[trigger] may_evaluate_alike(a, b)
}

/// What instructions may come to in one scope they may come to in the other.
proof fn lemma_candidates_carry<H: Host>(
    a: ScopeView<'_, H>,
    b: ScopeView<'_, H>,
    span: Span,
    c: Seq<RuleInvocationCandidate>,
    d: Seq<RuleInvocationCandidate>,
    r: Resolution,
)
    requires
        may_evaluate_alike(a, b),
        a.final_pass == b.final_pass,
        candidates_alike(*a.state, *b.state, c, d),
        candidates_resolve(a, span, c, r),
    ensures
        candidates_resolve(b, span, d, r),
    decreases c,
{
    lemma_each_candidate_alike(*a.state, *b.state, c, d);
    if a.final_pass && c.len() == 1 {
        lemma_candidate_carries(a, b, span, c[0], d[0], r);
    } else {
        let (tries, again) = lemma_tries(a, span, c, r);
        assert forall|i: int| #![trigger tries[i]] 0 <= i < d.len() implies candidate_resolves(
            b,
            span,
            d[i],
            tries[i],
        ) by {
            assert(candidate_alike(*a.state, *b.state, c[i], d[i]));
            lemma_candidate_carries(a, b, span, c[i], d[i], tries[i]);
        }
        assert forall|k: int|
            #![trigger is_only_success(tries, k)]
            b.final_pass && is_only_success(tries, k) implies candidate_resolves(
            b,
            span,
            d[k],
            again,
        ) by {
            assert(candidate_alike(*a.state, *b.state, c[k], d[k]));
            lemma_candidate_carries(a, b, span, c[k], d[k], again);
        }
        lemma_candidates(b, span, d, tries, again, r);
    }
}

/// What a candidate may come to in one scope it may come to in the other.
proof fn lemma_candidate_carries<H: Host>(
    a: ScopeView<'_, H>,
    b: ScopeView<'_, H>,
    span: Span,
    c: RuleInvocationCandidate,
    d: RuleInvocationCandidate,
    r: Resolution,
)
    requires
        may_evaluate_alike(a, b),
        a.final_pass == b.final_pass,
        candidate_alike(*a.state, *b.state, c, d),
        candidate_resolves(a, span, c, r),
    ensures
        candidate_resolves(b, span, d, r),
    decreases c,
{
    let p = a.state.rule_of(c.rule_ref);
    let q = b.state.rule_of(d.rule_ref);
    lemma_candidate_parts_alike(*a.state, *b.state, c, d);
    let m = choose|m: Binding|
        {
            &&& arguments_bind(a, span, p, c.args@, m)
            &&& #[trigger] produces(a, p, m, r)
        };
    lemma_arguments_carry(a, b, span, p, q, c.args@, d.args@, m);
    assert(produces(b, q, m, r));
    lemma_candidate(b, span, d, m, r);
}

/// What parameters may be bound to in one scope they may be bound to in the other.
proof fn lemma_arguments_carry<H: Host>(
    a: ScopeView<'_, H>,
    b: ScopeView<'_, H>,
    span: Span,
    p: Rule,
    q: Rule,
    c: Seq<RuleInvocationArgument>,
    d: Seq<RuleInvocationArgument>,
    m: Binding,
)
    requires
        may_evaluate_alike(a, b),
        a.final_pass == b.final_pass,
        arguments_alike(*a.state, *b.state, p, q, c, d),
        arguments_bind(a, span, p, c, m),
    ensures
        arguments_bind(b, span, q, d, m),
    decreases c,
{
    if c.len() > 0 {
        let k = c.len() - 1;
        let (before, r) = lemma_last_argument(a, span, p, c, m);
        assert(argument_alike(*a.state, *b.state, p.parameters@[k].typ, c[k], d[k]));
        lemma_fewer_arguments(*a.state, *b.state, p, q, c, d);
        lemma_arguments_carry(a, b, span, p, q, c.drop_last(), d.drop_last(), before);
        if before.locals is Some {
            lemma_argument_carries(a, b, span, p.parameters@[k].typ, c[k], d[k], r);
        }
        assert(m == bound(before, q.parameters@[k].name@, r));
    }
}

/// What an argument may come to in one scope it may come to in the other.
proof fn lemma_argument_carries<H: Host>(
    a: ScopeView<'_, H>,
    b: ScopeView<'_, H>,
    span: Span,
    typ: PatternParameterType,
    c: RuleInvocationArgument,
    d: RuleInvocationArgument,
    r: Resolution,
)
    requires
        may_evaluate_alike(a, b),
        a.final_pass == b.final_pass,
        argument_alike(*a.state, *b.state, typ, c, d),
        argument_resolves(a, span, typ, c, r),
    ensures
        argument_resolves(b, span, typ, d, r),
    decreases c,
{
    match (c, d) {
        (
            RuleInvocationArgument::NestedRuleset(inner),
            RuleInvocationArgument::NestedRuleset(other),
        ) => {
            lemma_candidates_carry(a, b, span, inner@, other@, r);
        },
        _ => {},
    }
}

/// What a bank may come to in one state it may come to in the other.
proof fn lemma_bank_carries<H: Host>(
    a: &State,
    b: &State,
    host: &H,
    bank: Bank,
    bankdata: BankData,
    r: BankResolution,
)
    requires
        evaluates_by_variables(host),
        same_definitions(*a, *b),
        a.bankdata_ok(bank, bankdata),
        bank_resolves(a, host, bank, bankdata, r),
    ensures
        bank_resolves(b, host, bank, bankdata, r),
{
    let lines = bankdata.invocations@;
    let values = lemma_lines(a, host, bank, bankdata, r);
    lemma_own_lines(a, b, bank, bankdata);
    assert forall|i: int| #![trigger values[i]] 0 <= i < values.len() implies line_resolves(
        b,
        host,
        lines[i],
        values[i],
    ) by {
        let p = final_scope(a, host, &lines[i].ctx);
        let q = final_scope(b, host, &lines[i].ctx);
        assert(a.invocation_ok(lines[i]));
        lemma_same_variables(p, q);
        assert(may_evaluate_alike(p, q));
        assert(line_alike(a, b, lines[i], lines[i]));
        assert(line_resolves(a, host, lines[i], values[i]));
        match lines[i].kind {
            InvocationKind::Rule(rule) => {
                lemma_candidates_carry(
                    p,
                    q,
                    lines[i].span,
                    rule.candidates@,
                    rule.candidates@,
                    values[i],
                );
            },
            InvocationKind::Data(data) => {
                let e = choose|e: Resolution| #[trigger]
                    evaluates(p, data.expr, Map::empty(), e) && values[i] == as_data(data, e);
                assert(evaluates(q, data.expr, Map::empty(), e));
            },
            InvocationKind::Label(_) => {},
        }
    }
    lemma_same_bits(a, b, bank, bank, lines, lines, values);
    assert(r == bank_resolution(*b, bank, lines, values));
}

/// A guess changes nothing that a bank may come to: in two states that define the same,
/// it may come to the same bits and messages, also with a host that does not always do
/// the same.
pub proof fn law_guess_changes_no_outcome<H: Host>(
    a: &State,
    b: &State,
    host: &H,
    bank: Bank,
    bankdata: BankData,
    r: BankResolution,
)
    requires
        evaluates_by_variables(host),
        same_definitions(*a, *b),
        a.bankdata_ok(bank, bankdata),
        b.bankdata_ok(bank, bankdata),
    ensures
        bank_resolves(a, host, bank, bankdata, r) == bank_resolves(b, host, bank, bankdata, r),
{
    if bank_resolves(a, host, bank, bankdata, r) {
        lemma_bank_carries(a, b, host, bank, bankdata, r);
    }
    if bank_resolves(b, host, bank, bankdata, r) {
        lemma_bank_carries(b, a, host, bank, bankdata, r);
    }
}

/// Whether parsing depends on nothing but the state and the name of the file.
pub open spec fn parses_one_way<H: Host>(host: &H) -> bool {
    forall|a: State, b: State, f: &String, g: &String, x: ParseOutcome, y: ParseOutcome|
        {
            &&& #[trigger] call_ensures(H::parse_file, (host, a, f), x)
            &&& #[trigger] call_ensures(H::parse_file, (host, b, g), y)
            &&& a@ == b@
            &&& f@ == g@
        } ==> same_parse(x, y)
}

/// Whether two files were parsed to the same.
pub open spec fn same_parse(x: ParseOutcome, y: ParseOutcome) -> bool {
    &&& x.state@ == y.state@
    &&& x.result is Ok == y.result is Ok
    &&& messages(x.messages@) == messages(y.messages@)
}

/// Whether the host always does the same when it parses, reads files and evaluates.
pub open spec fn is_deterministic<H: Host>(host: &H) -> bool {
    &&& parses_one_way(host)
    &&& reads_one_way(host)
    &&& evaluates_by_answers(host)
}

/// Two states in which nothing is defined are the same but for what earlier passes left.
proof fn lemma_initial_alike(a: State, b: State)
    requires
        a.is_initial(),
        b.is_initial(),
        a.is_first_pass == b.is_first_pass,
        a.symbol_guesses@ == b.symbol_guesses@,
    ensures
        a@ == b@,
{
    lemma_empty_alike(a.symbols, b.symbols);
    assert(a.banks@[0]@ == b.banks@[0]@);
    assert(a.bankdata@[0].bank_ref == b.bankdata@[0].bank_ref);
    assert(a.bankdata@[0]@.invocations =~= b.bankdata@[0]@.invocations);
    assert(a@.banks =~= b@.banks);
    assert(a@.bankdata =~= b@.bankdata);
    assert(a@.rulesets =~= b@.rulesets);
    assert(a@.active_rulesets =~= b@.active_rulesets);
}

/// No symbols are the same as no symbols.
pub proof fn lemma_empty_alike(a: SymbolManager, b: SymbolManager)
    requires
        a.is_empty(),
        b.is_empty(),
    ensures
        a@ == b@,
{
    assert(a@ =~= b@);
}

/// Parsing the same files again leads to the same state.
proof fn lemma_files_agree<H: Host>(
    host: &H,
    f: Seq<String>,
    g: Seq<String>,
    a: State,
    b: State,
    x: State,
    y: State,
)
    requires
        parses_one_way(host),
        texts(f) == texts(g),
        a@ == b@,
        files_parse(host, f, a, x),
        files_parse(host, g, b, y),
    ensures
        x@ == y@,
    decreases f.len(),
{
    assert(texts(f).len() == f.len() && texts(g).len() == g.len());
    if f.len() > 0 {
        let k = f.len() - 1;
        let (before_x, p) = lemma_file(host, f, a, x, k);
        let (before_y, q) = lemma_file(host, g, b, y, k);
        assert(f.take(k) =~= f.drop_last());
        assert(g.take(k) =~= g.drop_last());
        lemma_texts_take(f, g, k);
        lemma_files_agree(host, f.take(k), g.take(k), a, b, before_x, before_y);
        assert(texts(f)[k] == f[k]@ && texts(g)[k] == g[k]@);
        assert(same_parse(p, q));
    }
}

/// The first names of the same names are the same.
proof fn lemma_texts_take(f: Seq<String>, g: Seq<String>, k: int)
    requires
        texts(f) == texts(g),
        0 <= k <= f.len(),
    ensures
        f.len() == g.len(),
        texts(f.take(k)) == texts(g.take(k)),
{
    assert(texts(f).len() == f.len() && texts(g).len() == g.len());
    assert forall|i: int| 0 <= i < k implies texts(f.take(k))[i] == texts(g.take(k))[i] by {
        assert(texts(f)[i] == f[i]@ && texts(g)[i] == g[i]@);
    }
    assert(texts(f.take(k)) =~= texts(g.take(k)));
}

/// The step at file `k`, where all files were parsed.
proof fn lemma_file<H: Host>(
    host: &H,
    files: Seq<String>,
    start: State,
    end: State,
    k: int,
) -> (step: (State, ParseOutcome))
    requires
        files_parse(host, files, start, end),
        0 <= k < files.len(),
    ensures
        files_parse(host, files.take(k), start, step.0),
        call_ensures(H::parse_file, (host, step.0, &files[k]), step.1),
        is_clean(step.1),
        k == files.len() - 1 ==> step.1.state == end,
    decreases files.len(),
{
    let (before, outcome) = choose|before: State, outcome: ParseOutcome|
        {
            &&& files_parse(host, files.drop_last(), start, before)
            &&& #[trigger] call_ensures(H::parse_file, (host, before, &files.last()), outcome)
            &&& is_clean(outcome)
            &&& outcome.state == end
        };
    if k == files.len() - 1 {
        assert(files.take(k) =~= files.drop_last());
        (before, outcome)
    } else {
        assert(files.drop_last().take(k) =~= files.take(k));
        lemma_file(host, files.drop_last(), start, before, k)
    }
}

/// A file with an error has it again, before any other one.
proof fn lemma_failures_agree<H: Host>(
    host: &H,
    f: Seq<String>,
    g: Seq<String>,
    a: State,
    b: State,
    j: int,
    k: int,
    before_x: State,
    before_y: State,
    x: ParseOutcome,
    y: ParseOutcome,
)
    requires
        parses_one_way(host),
        texts(f) == texts(g),
        a@ == b@,
        file_fails(host, f, a, j, before_x, x),
        file_fails(host, g, b, k, before_y, y),
    ensures
        same_parse(x, y),
{
    lemma_texts_take(f, g, 0);
    if j < k {
        lemma_no_failure(host, f, g, a, b, j, k, before_x, x, before_y);
    } else if k < j {
        lemma_no_failure(host, g, f, b, a, k, j, before_y, y, before_x);
    } else {
        lemma_texts_take(f, g, k);
        lemma_files_agree(host, f.take(k), g.take(k), a, b, before_x, before_y);
        assert(texts(f)[k] == f[k]@ && texts(g)[k] == g[k]@);
        assert(same_parse(x, y));
    }
}

/// Where the first `n` files were parsed once, none of them has an error again.
proof fn lemma_no_failure<H: Host>(
    host: &H,
    f: Seq<String>,
    g: Seq<String>,
    a: State,
    b: State,
    j: int,
    n: int,
    before: State,
    x: ParseOutcome,
    end: State,
)
    requires
        parses_one_way(host),
        texts(f) == texts(g),
        a@ == b@,
        0 <= j < n <= g.len(),
        files_parse(host, g.take(n), b, end),
    ensures
        !file_fails(host, f, a, j, before, x),
{
    if file_fails(host, f, a, j, before, x) {
        let (other, y) = lemma_file(host, g.take(n), b, end, j);
        assert(g.take(n).take(j) =~= g.take(j));
        lemma_texts_take(f, g, j);
        lemma_files_agree(host, f.take(j), g.take(j), a, b, before, other);
        assert(texts(f)[j] == f[j]@ && texts(g)[j] == g[j]@);
        assert(g.take(n)[j] == g[j]);
        assert(same_parse(x, y));
        assert(messages(x.messages@).len() == messages(y.messages@).len());
    }
}

/// The banks of the same state come to the same.
proof fn lemma_state_bank_agrees<H: Host>(
    host: &H,
    a: &State,
    b: &State,
    i: int,
    x: BankResolution,
    y: BankResolution,
)
    requires
        is_deterministic(host),
        a@ == b@,
        a.can_resolve(),
        0 <= i < a.banks@.len(),
        bank_resolves(a, host, a.banks@[i], a.bankdata@[i], x),
        bank_resolves(b, host, b.banks@[i], b.bankdata@[i], y),
    ensures
        x == y,
{
    assert(a@.banks.len() == a.banks@.len() && b@.banks.len() == b.banks@.len());
    assert(a@.bankdata.len() == a.bankdata@.len() && b@.bankdata.len() == b.bankdata@.len());
    assert(a@.banks[i] == a.banks@[i]@ && b@.banks[i] == b.banks@[i]@);
    assert(a@.bankdata[i] == a.bankdata@[i]@ && b@.bankdata[i] == b.bankdata@[i]@);
    let lines = a.bankdata@[i].invocations@;
    let others = b.bankdata@[i].invocations@;
    assert(a@.bankdata[i].invocations.len() == lines.len());
    assert(b@.bankdata[i].invocations.len() == others.len());
    assert(a.bankdata_ok(a.banks@[i], a.bankdata@[i]));
    assert forall|k: int| 0 <= k < lines.len() implies {
        &&& line_alike(a, b, lines[k], others[k])
        &&& evaluate_alike(
            final_scope(a, host, &lines[k].ctx),
            final_scope(b, host, &others[k].ctx),
        )
    } by {
        assert(a@.bankdata[i].invocations[k] == lines[k]@);
        assert(b@.bankdata[i].invocations[k] == others[k]@);
        assert(a.invocation_ok(lines[k]));
        lemma_same_line(a, b, lines[k], others[k]);
        lemma_same_evaluation(
            host,
            final_scope(a, host, &lines[k].ctx),
            final_scope(b, host, &others[k].ctx),
        );
    }
    lemma_bank_agrees(
        a,
        b,
        host,
        a.banks@[i],
        b.banks@[i],
        a.bankdata@[i],
        b.bankdata@[i],
        x,
        y,
    );
}

/// The first banks of the same state come to the same.
proof fn lemma_banks_agree<H: Host>(
    host: &H,
    a: &State,
    b: &State,
    x: Seq<BitVecView>,
    y: Seq<BitVecView>,
)
    requires
        is_deterministic(host),
        a@ == b@,
        a.can_resolve(),
        banks_resolve(a, host, x),
        banks_resolve(b, host, y),
        x.len() == y.len(),
    ensures
        x == y,
        combined(a.banks@, x) == combined(b.banks@, y),
{
    assert(a@.banks.len() == a.banks@.len() && b@.banks.len() == b.banks@.len());
    assert forall|i: int| 0 <= i < x.len() implies x[i] == y[i] by {
        lemma_state_bank_agrees(
            host,
            a,
            b,
            i,
            BankResolution { result: Ok(x[i]), messages: Seq::empty() },
            BankResolution { result: Ok(y[i]), messages: Seq::empty() },
        );
    }
    assert(x =~= y);
    assert forall|i: int| 0 <= i < x.len() implies #[trigger] a.banks@[i].output_offset
        == b.banks@[i].output_offset by {
        assert(a@.banks[i] == a.banks@[i]@ && b@.banks[i] == b.banks@[i]@);
    }
    lemma_same_combined(a.banks@, b.banks@, x);
}

/// Banks with the same place in the output make up the same output.
proof fn lemma_same_combined(a: Seq<Bank>, b: Seq<Bank>, bits: Seq<BitVecView>)
    requires
        forall|i: int|
            0 <= i < bits.len() ==> #[trigger] a[i].output_offset == b[i].output_offset,
    ensures
        combined(a, bits) == combined(b, bits),
    decreases bits.len(),
{
    if bits.len() > 0 {
        let k = bits.len() - 1;
        assert(a[k].output_offset == b[k].output_offset);
        lemma_same_combined(a, b, bits.drop_last());
    }
}

/// How a pass goes: a file has an error, all banks are resolved, or one has an error.
enum Pass {
    File(int, State, ParseOutcome),
    Done(State, Seq<BitVecView>),
    Bank(State, Seq<BitVecView>, BankResolution),
}

/// Whether a pass may go like that.
spec fn goes<H: Host>(host: &H, files: Seq<String>, start: State, pass: Pass) -> bool {
    match pass {
        Pass::File(k, before, outcome) => file_fails(host, files, start, k, before, outcome),
        Pass::Done(parsed, bits) => {
            &&& files_parse(host, files, start, parsed)
            &&& banks_resolve(&parsed, host, bits)
            &&& bits.len() == parsed.banks@.len()
        },
        Pass::Bank(parsed, bits, failed) => {
            &&& files_parse(host, files, start, parsed)
            &&& bank_fails(&parsed, host, bits, failed)
        },
    }
}

/// Whether two passes go the same way.
spec fn same_way(x: Pass, y: Pass) -> bool {
    match (x, y) {
        (Pass::File(_, _, p), Pass::File(_, _, q)) => same_parse(p, q),
        (Pass::Done(a, p), Pass::Done(b, q)) => {
            &&& a@ == b@
            &&& combined(a.banks@, p) == combined(b.banks@, q)
        },
        (Pass::Bank(a, _, p), Pass::Bank(b, _, q)) => {
            &&& a@ == b@
            &&& p == q
        },
        _ => false,
    }
}

/// The same pass goes the same way again.
proof fn lemma_passes_agree<H: Host>(
    host: &H,
    f: Seq<String>,
    g: Seq<String>,
    a: State,
    b: State,
    x: Pass,
    y: Pass,
)
    requires
        is_deterministic(host),
        parses_well(host, f),
        texts(f) == texts(g),
        a.is_initial(),
        a@ == b@,
        goes(host, f, a, x),
        goes(host, g, b, y),
    ensures
        same_way(x, y),
{
    lemma_texts_take(f, g, 0);
    let n = f.len() as int;
    assert(f.take(n) =~= f && g.take(n) =~= g);
    match (x, y) {
        (Pass::File(j, p, u), Pass::File(k, q, v)) => {
            lemma_failures_agree(host, f, g, a, b, j, k, p, q, u, v);
        },
        (Pass::File(j, p, u), Pass::Done(q, _)) => {
            lemma_no_failure(host, f, g, a, b, j, n, p, u, q);
        },
        (Pass::File(j, p, u), Pass::Bank(q, _, _)) => {
            lemma_no_failure(host, f, g, a, b, j, n, p, u, q);
        },
        (Pass::Done(p, _), Pass::File(k, q, v)) => {
            lemma_no_failure(host, g, f, b, a, k, n, q, v, p);
        },
        (Pass::Bank(p, _, _), Pass::File(k, q, v)) => {
            lemma_no_failure(host, g, f, b, a, k, n, q, v, p);
        },
        (Pass::Done(p, u), Pass::Done(q, v)) => {
            lemma_files_agree(host, f, g, a, b, p, q);
            assert(p@.banks.len() == p.banks@.len() && q@.banks.len() == q.banks@.len());
            lemma_banks_agree(host, &p, &q, u, v);
        },
        (Pass::Done(p, u), Pass::Bank(q, v, w)) => {
            lemma_files_agree(host, f, g, a, b, p, q);
            assert(p@.banks.len() == p.banks@.len() && q@.banks.len() == q.banks@.len());
            lemma_state_bank_agrees(host, &p, &q, v.len() as int, resolved(u[v.len() as int]), w);
        },
        (Pass::Bank(p, u, w), Pass::Done(q, v)) => {
            lemma_files_agree(host, f, g, a, b, p, q);
            assert(p@.banks.len() == p.banks@.len() && q@.banks.len() == q.banks@.len());
            lemma_state_bank_agrees(host, &p, &q, u.len() as int, w, resolved(v[u.len() as int]));
        },
        (Pass::Bank(p, u, w), Pass::Bank(q, v, z)) => {
            lemma_files_agree(host, f, g, a, b, p, q);
            assert(p@.banks.len() == p.banks@.len() && q@.banks.len() == q.banks@.len());
            let m = u.len() as int;
            let k = v.len() as int;
            if m < k {
                lemma_state_bank_agrees(host, &p, &q, m, w, resolved(v[m]));
            } else if k < m {
                lemma_state_bank_agrees(host, &p, &q, k, resolved(u[k]), z);
            } else {
                lemma_state_bank_agrees(host, &p, &q, k, w, z);
            }
        },
    }
}

/// What a bank comes to that is resolved without an error.
spec fn resolved(bits: BitVecView) -> BankResolution {
    BankResolution { result: Ok(bits), messages: Seq::empty() }
}

/// How the first pass of an assembly went, and what came of it.
proof fn lemma_first_pass<H: Host>(
    host: &H,
    files: Seq<String>,
    iteration: nat,
    max_iterations: nat,
    guesses: SymbolManager,
    end: Assembly,
) -> (r: (State, Pass))
    requires
        assembles(host, files, iteration, max_iterations, guesses, end),
    ensures
        pass_starts(r.0, iteration, guesses),
        goes(host, files, r.0, r.1),
        match r.1 {
            Pass::File(_, _, outcome) => end == (Assembly {
                state: outcome.state,
                output: None,
                messages: messages(outcome.messages@),
            }),
            Pass::Done(parsed, bits) => {
                &&& end.output == Some((combined(parsed.banks@, bits), parsed.symbols))
                &&& end.messages.len() == 0
                &&& end.state.symbols.is_empty()
                &&& end.state == (State { symbols: end.state.symbols, ..parsed })
            },
            Pass::Bank(parsed, _, failed) => if iteration + 1 >= max_iterations {
                end == (Assembly { state: parsed, output: None, messages: failed.messages })
            } else {
                assembles(host, files, iteration + 1, max_iterations, parsed.symbols, end)
            },
        },
{
    if pass_ends(host, files, iteration, guesses, end) {
        let start = choose|start: State|
            {
                &&& #[trigger] pass_starts(start, iteration, guesses)
                &&& {
                    ||| parse_ends(host, files, start, end)
                    ||| exists|parsed: State|
                        #[trigger] files_parse(host, files, start, parsed) && banks_end(
                            host,
                            parsed,
                            end,
                        )
                }
            };
        if parse_ends(host, files, start, end) {
            let (k, before, outcome) = choose|k: int, before: State, outcome: ParseOutcome|
                {
                    &&& #[trigger] file_fails(host, files, start, k, before, outcome)
                    &&& end == (Assembly {
                        state: outcome.state,
                        output: None,
                        messages: messages(outcome.messages@),
                    })
                };
            (start, Pass::File(k, before, outcome))
        } else {
            let parsed = choose|parsed: State|
                #[trigger] files_parse(host, files, start, parsed) && banks_end(host, parsed, end);
            let bits = lemma_bank_bits(host, parsed, end);
            (start, Pass::Done(parsed, bits))
        }
    } else {
        let (parsed, failed) = lemma_failed_pass(
            host,
            files,
            iteration,
            max_iterations,
            guesses,
            end,
        );
        let (start, bits) = choose|start: State, bits: Seq<BitVecView>|
            {
                &&& #[trigger] pass_starts(start, iteration, guesses)
                &&& files_parse(host, files, start, parsed)
                &&& #[trigger] bank_fails(&parsed, host, bits, failed)
            };
        (start, Pass::Bank(parsed, bits, failed))
    }
}

/// Whether two assemblies end the same way: with the same output or without one, with
/// the same messages, and in the same state.
pub open spec fn same_end(x: Assembly, y: Assembly) -> bool {
    &&& x.state@ == y.state@
    &&& x.messages == y.messages
    &&& match (x.output, y.output) {
        (Some(p), Some(q)) => p.0 == q.0 && p.1@ == q.1@,
        (None, None) => true,
        _ => false,
    }
}

/// Assembling the same files again ends the same way, if the host always does the
/// same. What the assembler held before plays no part.
pub proof fn law_assembling_repeats<H: Host>(
    host: &H,
    f: Seq<String>,
    g: Seq<String>,
    iteration: nat,
    max_iterations: nat,
    guesses: SymbolManager,
    others: SymbolManager,
    x: Assembly,
    y: Assembly,
)
    requires
        is_deterministic(host),
        parses_well(host, f),
        texts(f) == texts(g),
        guesses@ == others@,
        assembles(host, f, iteration, max_iterations, guesses, x),
        assembles(host, g, iteration, max_iterations, others, y),
    ensures
        same_end(x, y),
    decreases max_iterations - iteration,
{
    let (a, p) = lemma_first_pass(host, f, iteration, max_iterations, guesses, x);
    let (b, q) = lemma_first_pass(host, g, iteration, max_iterations, others, y);
    lemma_initial_alike(a, b);
    lemma_passes_agree(host, f, g, a, b, p, q);
    match (p, q) {
        (Pass::Done(u, _), Pass::Done(v, _)) => {
            lemma_empty_alike(x.state.symbols, y.state.symbols);
            assert(x.messages =~= y.messages);
            assert(u@.symbols == v@.symbols);
            assert(x.state@ =~= y.state@);
        },
        (Pass::Bank(u, _, _), Pass::Bank(v, _, _)) => {
            if iteration + 1 < max_iterations {
                assert(u@.symbols == v@.symbols);
                law_assembling_repeats(
                    host,
                    f,
                    g,
                    iteration + 1,
                    max_iterations,
                    u.symbols,
                    v.symbols,
                    x,
                    y,
                );
            }
        },
        _ => {},
    }
}

/// A larger limit of passes never changes a success: with a host that always does the
/// same, the output and the messages are those of the smaller limit.
pub proof fn law_limit_keeps_success<H: Host>(
    host: &H,
    f: Seq<String>,
    g: Seq<String>,
    max_iterations: nat,
    more: nat,
    guesses: SymbolManager,
    others: SymbolManager,
    x: Assembly,
    y: Assembly,
)
    requires
        is_deterministic(host),
        parses_well(host, f),
        texts(f) == texts(g),
        guesses@ == others@,
        max_iterations <= more,
        assembles(host, f, 0, max_iterations, guesses, x),
        x.output is Some,
        assembles(host, g, 0, more, others, y),
    ensures
        same_end(x, y),
{
    law_more_passes_do_no_harm(host, f, 0, max_iterations, more, guesses, x);
    law_assembling_repeats(host, f, g, 0, more, guesses, others, x, y);
}

/// A limit of no passes is a limit of one pass.
pub proof fn law_one_pass_at_least<H: Host>(
    host: &H,
    files: Seq<String>,
    guesses: SymbolManager,
    end: Assembly,
)
    ensures
        assembles(host, files, 0, 0, guesses, end) == assembles(host, files, 0, 1, guesses, end),
{
}

} // verus!
