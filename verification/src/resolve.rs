//! Instructions and data elements: which rule a line matches, and the value that
//! it stands for.
use vstd::prelude::*;

use crate::bank::{DataInvocation, Invocation, InvocationKind};
use crate::constrain::{constrained, data_element, data_element_messages};
use crate::diagn::{
    enclosed_in, error, lemma_with_nothing, lemma_with_with, MessageView, Report, ReportView, Span,
};
use crate::expr::{result_view, EvalContext, EvalOutcome, Expr, Resolution, Value, ValueView};
use crate::host::{Host, Scope, ScopeView};
use crate::ruleset::{
    PatternParameterType, Rule, RuleInvocationArgument, RuleInvocationCandidate,
};
use crate::state::State;

verus! {

/// The values of the parameters, if all arguments have one, and the messages
/// that finding them gave.
#[verifier::ext_equal]
pub struct Binding {
    pub locals: Option<Map<Seq<char>, ValueView>>,
    pub messages: Seq<MessageView>,
}

/// Whether evaluating `expr` may come to `r`.
pub open spec fn evaluates<H: Host>(
    scope: ScopeView<'_, H>,
    expr: Expr,
    locals: Map<Seq<char>, ValueView>,
    r: Resolution,
) -> bool {
    exists|eval_ctx: EvalContext, seen: Scope<'_, H>, outcome: EvalOutcome|
        {
            &&& eval_ctx@ == locals
            &&& seen@ == scope
            &&& #[trigger] call_ensures(H::eval, (scope.host, &expr, &eval_ctx, &seen), outcome)
            &&& r == outcome@
        }
}

/// What an expression comes to as an argument of that type.
pub open spec fn as_argument(typ: PatternParameterType, span: Span, r: Resolution) -> Resolution {
    match r.result {
        Err(()) => r,
        Ok(value) => match constrained(typ, value) {
            Ok(passed) => Resolution { result: Ok(passed), messages: r.messages },
            Err(text) => Resolution {
                result: Err(()),
                messages: r.messages.push(error(text, span)),
            },
        },
    }
}

/// What an expression comes to as a data element.
pub open spec fn as_data(data: DataInvocation, r: Resolution) -> Resolution {
    match r.result {
        Err(()) => r,
        Ok(value) => Resolution {
            result: Ok(data_element(data.elem_size, value)),
            messages: r.messages + data_element_messages(data.elem_size, value, data.expr.span),
        },
    }
}

/// Whether a data element may come to `r`.
pub open spec fn data_resolves<H: Host>(
    scope: ScopeView<'_, H>,
    data: DataInvocation,
    r: Resolution,
) -> bool {
    exists|e: Resolution|
        #[trigger] evaluates(scope, data.expr, Map::empty(), e) && r == as_data(data, e)
}

/// Whether no try was a success.
pub open spec fn no_success(tries: Seq<Resolution>) -> bool {
    forall|i: int| 0 <= i < tries.len() ==> (#[trigger] tries[i]).result is Err
}

/// Whether try `k` was a success, and no later one was.
pub open spec fn is_last_success(tries: Seq<Resolution>, k: int) -> bool {
    &&& 0 <= k < tries.len()
    &&& tries[k].result is Ok
    &&& forall|i: int| k < i < tries.len() ==> (#[trigger] tries[i]).result is Err
}

/// Whether try `k` was a success, and no other one was.
pub open spec fn is_only_success(tries: Seq<Resolution>, k: int) -> bool {
    &&& 0 <= k < tries.len()
    &&& tries[k].result is Ok
    &&& forall|i: int|
        0 <= i < tries.len() && i != k ==> (#[trigger] tries[i]).result is Err
}

/// Whether two tries were successes.
pub open spec fn several_successes(tries: Seq<Resolution>) -> bool {
    exists|i: int, j: int|
        0 <= i < j < tries.len() && (#[trigger] tries[i]).result is Ok && (
        #[trigger] tries[j]).result is Ok
}

/// Whether `r` follows from what the candidates of an instruction came to: `tries`
/// when each of them was tried, and `again` when the only one that matches was
/// taken.
pub open spec fn settles(
    final_pass: bool,
    span: Span,
    tries: Seq<Resolution>,
    again: Resolution,
    r: Resolution,
) -> bool {
    if no_success(tries) {
        r == (Resolution { result: Err(()), messages: Seq::empty() })
    } else if !final_pass {
        exists|k: int| #[trigger] is_last_success(tries, k) && r == tries[k]
    } else if several_successes(tries) {
        r == (Resolution {
            result: Err(()),
            messages: seq![error("multiple matches for instruction"@, span)],
        })
    } else {
        r == again
    }
}

/// Whether an instruction that one of `candidates` has to match may come to `r`.
///
/// In the final pass exactly one of them has to. Before that, the last one that
/// does is taken.
pub open spec fn candidates_resolve<H: Host>(
    scope: ScopeView<'_, H>,
    span: Span,
    candidates: Seq<RuleInvocationCandidate>,
    r: Resolution,
) -> bool
    decreases candidates,
{
    if scope.final_pass && candidates.len() == 1 {
        candidate_resolves(scope, span, candidates[0], r)
    } else {
        exists|tries: Seq<Resolution>, again: Resolution|
            {
                &&& tries.len() == candidates.len()
                &&& forall|i: int|
                    #![trigger tries[i]]
                    0 <= i < candidates.len() ==> candidate_resolves(
                        scope,
                        span,
                        candidates[i],
                        tries[i],
                    )
                &&& forall|k: int|
                    #![trigger is_only_success(tries, k)]
                    0 <= k < candidates.len() && scope.final_pass && is_only_success(tries, k)
                        ==> candidate_resolves(scope, span, candidates[k], again)
                &&& #[trigger] settles(scope.final_pass, span, tries, again, r)
            }
    }
}

/// Whether an instruction that matches `candidate` may come to `r`.
pub open spec fn candidate_resolves<H: Host>(
    scope: ScopeView<'_, H>,
    span: Span,
    candidate: RuleInvocationCandidate,
    r: Resolution,
) -> bool
    decreases candidate,
{
    let rule = scope.state.rule_of(candidate.rule_ref);
    exists|b: Binding|
        {
            &&& arguments_bind(scope, span, rule, candidate.args@, b)
            &&& #[trigger] produces(scope, rule, b, r)
        }
}

/// Whether a rule with the parameters `b` may come to `r`.
pub open spec fn produces<H: Host>(
    scope: ScopeView<'_, H>,
    rule: Rule,
    b: Binding,
    r: Resolution,
) -> bool {
    match b.locals {
        None => r == (Resolution { result: Err(()), messages: b.messages }),
        Some(locals) => exists|e: Resolution|
            {
                &&& #[trigger] evaluates(scope, rule.production, locals, e)
                &&& r == (Resolution { result: e.result, messages: b.messages + e.messages })
            },
    }
}

/// Whether binding the first parameters of a rule to `args` may come to `b`. The
/// first argument without a value ends it.
pub open spec fn arguments_bind<H: Host>(
    scope: ScopeView<'_, H>,
    span: Span,
    rule: Rule,
    args: Seq<RuleInvocationArgument>,
    b: Binding,
) -> bool
    decreases args,
{
    if args.len() == 0 {
        b == (Binding { locals: Some(Map::empty()), messages: Seq::empty() })
    } else {
        let parameter = rule.parameters@[args.len() - 1];
        exists|before: Binding, a: Resolution|
            {
                &&& arguments_bind(scope, span, rule, args.drop_last(), before)
                &&& before.locals is Some ==> argument_resolves(
                    scope,
                    span,
                    parameter.typ,
                    args.last(),
                    a,
                )
                &&& b == #[trigger] bound(before, parameter.name@, a)
            }
    }
}

/// The binding after one more parameter, whose argument comes to `a`.
pub open spec fn bound(before: Binding, name: Seq<char>, a: Resolution) -> Binding {
    match before.locals {
        None => before,
        Some(locals) => Binding {
            locals: match a.result {
                Ok(value) => Some(locals.insert(name, value)),
                Err(()) => None,
            },
            messages: before.messages + a.messages,
        },
    }
}

/// Whether an argument may come to `r`.
pub open spec fn argument_resolves<H: Host>(
    scope: ScopeView<'_, H>,
    span: Span,
    typ: PatternParameterType,
    arg: RuleInvocationArgument,
    r: Resolution,
) -> bool
    decreases arg,
{
    match arg {
        RuleInvocationArgument::Expression(expr) => exists|e: Resolution|
            {
                &&& #[trigger] evaluates(scope, expr, Map::empty(), e)
                &&& r == as_argument(typ, expr.span, e)
            },
        RuleInvocationArgument::NestedRuleset(candidates) => candidates_resolve(
            scope,
            span,
            candidates@,
            r,
        ),
    }
}

impl State {
    /// Whether the candidates are rules of the state with arguments that suit them.
    pub open spec fn candidates_ok(self, candidates: Seq<RuleInvocationCandidate>) -> bool
        decreases candidates,
    {
        forall|i: int|
            0 <= i < candidates.len() ==> self.candidate_ok(#[trigger] candidates[i])
    }

    /// Whether the candidate is a rule of the state with arguments that suit it:
    /// each has a parameter, and an expression is no argument for a ruleset.
    pub open spec fn candidate_ok(self, candidate: RuleInvocationCandidate) -> bool
        decreases candidate,
    {
        let rule = self.rule_of(candidate.rule_ref);
        &&& self.has_rule(candidate.rule_ref)
        &&& candidate.args@.len() <= rule.parameters@.len()
        &&& forall|i: int|
            0 <= i < candidate.args@.len() ==> self.argument_ok(
                rule.parameters@[i].typ,
                #[trigger] candidate.args@[i],
            )
    }

    /// Whether the argument suits a parameter of that type.
    pub open spec fn argument_ok(
        self,
        typ: PatternParameterType,
        arg: RuleInvocationArgument,
    ) -> bool
        decreases arg,
    {
        match arg {
            RuleInvocationArgument::Expression(_) => !(typ is Ruleset),
            RuleInvocationArgument::NestedRuleset(candidates) => self.candidates_ok(candidates@),
        }
    }

    /// The value of a data element.
    pub fn resolve_data_invocation<H: Host>(
        &self,
        report: &mut Report,
        invocation: &Invocation,
        host: &H,
        final_pass: bool,
    ) -> (r: Result<Value, ()>)
        requires
            invocation.kind is Data,
        ensures
            exists|d: Resolution|
                {
                    &&& #[trigger] data_resolves(
                        ScopeView { state: self, ctx: &invocation.ctx, host, final_pass },
                        invocation.kind->Data_0,
                        d,
                    )
                    &&& result_view(r) == d.result
                    &&& final(report)@ == old(report)@.with(d.messages)
                },
    {
        let ghost scope = ScopeView { state: self, ctx: &invocation.ctx, host, final_pass };
        let data_invoc = invocation.get_data_invoc();
        let mut eval_ctx = EvalContext::new();
        let ghost start = eval_ctx;
        let resolved = self.eval_expr(
            report,
            &data_invoc.expr,
            &invocation.ctx,
            &mut eval_ctx,
            host,
            final_pass,
        );
        let ghost e = evaluated(scope, data_invoc.expr, start, resolved, old(report)@, report@);
        let ghost d = as_data(*data_invoc, e);
        assert(data_resolves(scope, *data_invoc, d));
        match resolved {
            Err(()) => Err(()),
            Ok(value) => {
                let mut value = value;
                let ghost given = value@;
                State::constrain_data_element(
                    &mut value,
                    data_invoc.elem_size,
                    report,
                    data_invoc.expr.span(),
                );
                proof {
                    lemma_with_with(
                        old(report)@,
                        e.messages,
                        data_element_messages(
                            data_invoc.elem_size,
                            given,
                            data_invoc.expr.span,
                        ),
                    );
                }
                Ok(value)
            },
        }
    }

    /// The value of an instruction.
    pub fn resolve_rule_invocation<H: Host>(
        &self,
        report: &mut Report,
        invocation: &Invocation,
        host: &H,
        final_pass: bool,
    ) -> (r: Result<Value, ()>)
        requires
            invocation.kind matches InvocationKind::Rule(rule) && self.candidates_ok(
                rule.candidates@,
            ),
        ensures
            exists|c: Resolution|
                {
                    &&& #[trigger] candidates_resolve(
                        ScopeView { state: self, ctx: &invocation.ctx, host, final_pass },
                        invocation.span,
                        invocation.kind->Rule_0.candidates@,
                        c,
                    )
                    &&& result_view(r) == c.result
                    &&& final(report)@ == old(report)@.with(c.messages)
                },
    {
        self.resolve_rule_invocation_candidates(
            report,
            invocation,
            &invocation.get_rule_invoc().candidates,
            host,
            final_pass,
        )
    }

    /// The value of an instruction, or of a part of one, that one of the candidates
    /// has to match.
    pub fn resolve_rule_invocation_candidates<H: Host>(
        &self,
        report: &mut Report,
        invocation: &Invocation,
        candidates: &Vec<RuleInvocationCandidate>,
        host: &H,
        final_pass: bool,
    ) -> (r: Result<Value, ()>)
        requires
            self.candidates_ok(candidates@),
        ensures
            exists|c: Resolution|
                {
                    &&& #[trigger] candidates_resolve(
                        ScopeView { state: self, ctx: &invocation.ctx, host, final_pass },
                        invocation.span,
                        candidates@,
                        c,
                    )
                    &&& result_view(r) == c.result
                    &&& final(report)@ == old(report)@.with(c.messages)
                },
        decreases candidates,
    {
        let ghost scope = ScopeView { state: self, ctx: &invocation.ctx, host, final_pass };
        let ghost span = invocation.span;
        proof {
            lemma_with_nothing(report@);
        }
        if final_pass && candidates.len() == 1 {
            assert(self.candidate_ok(candidates@[0]));
            let resolved = self.resolve_rule_invocation_candidate(
                report,
                invocation,
                &candidates[0],
                host,
                final_pass,
            );
            proof {
                let c = choose|c: Resolution|
                    {
                        &&& #[trigger] candidate_resolves(scope, span, candidates@[0], c)
                        &&& result_view(resolved) == c.result
                        &&& report@ == old(report)@.with(c.messages)
                    };
                assert(candidates_resolve(scope, span, candidates@, c));
            }
            return resolved;
        }
        let mut successful: usize = 0;
        let mut only: usize = 0;
        let mut last: Option<(Value, Report)> = None;
        let ghost mut tries: Seq<Resolution> = Seq::empty();
        let ghost mut latest: int = 0;

        let mut index: usize = 0;
        while index < candidates.len()
            invariant
                index <= candidates@.len(),
                self.candidates_ok(candidates@),
                scope == (ScopeView { state: self, ctx: &invocation.ctx, host, final_pass }),
                span == invocation.span,
                report@ == old(report)@,
                tries.len() == index,
                forall|i: int|
                    #![trigger tries[i]]
                    0 <= i < index ==> candidate_resolves(scope, span, candidates@[i], tries[i]),
                successful <= index,
                successful == 0 ==> no_success(tries),
                successful == 1 ==> is_only_success(tries, only as int),
                successful > 1 ==> several_successes(tries),
                successful > 0 ==> only < index && tries[only as int].result is Ok,
                (last is Some) == (successful > 0),
                last matches Some(l) ==> {
                    &&& is_last_success(tries, latest)
                    &&& tries[latest].result == Ok::<ValueView, ()>(l.0@)
                    &&& l.1@.messages == tries[latest].messages
                },
            decreases candidates@.len() - index,
        {
            let candidate = &candidates[index];
            let mut candidate_report = Report::new();
            assert(self.candidate_ok(candidates@[index as int]));

            let resolved = self.resolve_rule_invocation_candidate(
                &mut candidate_report,
                invocation,
                candidate,
                host,
                final_pass,
            );
            let ghost before = tries;
            proof {
                let c = choose|c: Resolution|
                    {
                        &&& #[trigger] candidate_resolves(scope, span, *candidate, c)
                        &&& result_view(resolved) == c.result
                        &&& candidate_report@ == ReportView::empty().with(c.messages)
                    };
                assert(candidate_report@.messages =~= c.messages) by {
                    assert forall|i: int| 0 <= i < c.messages.len() implies #[trigger] enclosed_in(
                        Seq::empty(),
                        c.messages,
                    )[i] == c.messages[i] by {
                        assert(Seq::empty() + c.messages[i].parents =~= c.messages[i].parents);
                    }
                }
                tries = before.push(c);
                assert forall|i: int| 0 <= i < before.len() implies #[trigger] tries[i]
                    == before[i] by {}
            }
            match resolved {
                Ok(value) => {
                    proof {
                        latest = index as int;
                        if successful > 0 {
                            assert(tries[only as int] == before[only as int]);
                            assert(tries[index as int].result is Ok);
                            assert(several_successes(tries));
                        }
                    }
                    if successful == 0 {
                        only = index;
                    }
                    successful += 1;
                    last = Some((value, candidate_report));
                },
                Err(()) => {
                    proof {
                        if successful > 0 {
                            assert(tries[latest] == before[latest]);
                            assert(tries[only as int] == before[only as int]);
                        }
                        if successful > 1 {
                            let (i, j) = choose|i: int, j: int|
                                0 <= i < j < before.len() && (#[trigger] before[i]).result is Ok
                                    && (#[trigger] before[j]).result is Ok;
                            assert(tries[i] == before[i] && tries[j] == before[j]);
                            assert(several_successes(tries));
                        }
                    }
                },
            }
            index += 1;
        }
        match last {
            None => {
                let ghost none = Resolution { result: Err(()), messages: Seq::empty() };
                proof {
                    lemma_candidates(scope, span, candidates@, tries, none, none);
                }
                Err(())
            },
            Some((value, candidate_report)) => {
                if final_pass {
                    if successful > 1 {
                        report.error_span("multiple matches for instruction", invocation.span);
                        let ghost many = Resolution {
                            result: Err(()),
                            messages: seq![error("multiple matches for instruction"@, span)],
                        };
                        proof {
                            lemma_candidates(scope, span, candidates@, tries, many, many);
                        }
                        return Err(());
                    }
                    assert(self.candidate_ok(candidates@[only as int]));
                    let resolved = self.resolve_rule_invocation_candidate(
                        report,
                        invocation,
                        &candidates[only],
                        host,
                        final_pass,
                    );
                    proof {
                        let c = choose|c: Resolution|
                            {
                                &&& #[trigger] candidate_resolves(
                                    scope,
                                    span,
                                    candidates@[only as int],
                                    c,
                                )
                                &&& result_view(resolved) == c.result
                                &&& report@ == old(report)@.with(c.messages)
                            };
                        lemma_candidates(scope, span, candidates@, tries, c, c);
                    }
                    resolved
                } else {
                    candidate_report.transfer_to(report);
                    proof {
                        let c = tries[latest];
                        lemma_candidates(scope, span, candidates@, tries, c, c);
                    }
                    Ok(value)
                }
            },
        }
    }

    /// The value of an instruction, or of a part of one, that matches the candidate.
    pub fn resolve_rule_invocation_candidate<H: Host>(
        &self,
        report: &mut Report,
        invocation: &Invocation,
        candidate: &RuleInvocationCandidate,
        host: &H,
        final_pass: bool,
    ) -> (r: Result<Value, ()>)
        requires
            self.candidate_ok(*candidate),
        ensures
            exists|c: Resolution|
                {
                    &&& #[trigger] candidate_resolves(
                        ScopeView { state: self, ctx: &invocation.ctx, host, final_pass },
                        invocation.span,
                        *candidate,
                        c,
                    )
                    &&& result_view(r) == c.result
                    &&& final(report)@ == old(report)@.with(c.messages)
                },
        decreases candidate,
    {
        let ghost scope = ScopeView { state: self, ctx: &invocation.ctx, host, final_pass };
        let ghost span = invocation.span;
        let rule = self.get_rule(candidate.rule_ref).unwrap();
        let mut eval_ctx = EvalContext::new();
        let ghost mut b = Binding { locals: Some(eval_ctx@), messages: Seq::empty() };
        proof {
            lemma_with_nothing(report@);
            assert(candidate.args@.take(0) =~= Seq::empty());
            assert(arguments_bind(scope, span, *rule, candidate.args@.take(0), b));
        }
        let mut arg_index: usize = 0;
        while arg_index < candidate.args.len()
            invariant
                arg_index <= candidate.args@.len(),
                self.candidate_ok(*candidate),
                scope == (ScopeView { state: self, ctx: &invocation.ctx, host, final_pass }),
                span == invocation.span,
                *rule == self.rule_of(candidate.rule_ref),
                b.locals == Some(eval_ctx@),
                arguments_bind(scope, span, *rule, candidate.args@.take(arg_index as int), b),
                report@ == old(report)@.with(b.messages),
            decreases candidate.args@.len() - arg_index,
        {
            let ghost args = candidate.args@.take(arg_index + 1);
            let ghost before = b;
            let ghost typ = rule.parameters@[arg_index as int].typ;
            let ghost name = rule.parameters@[arg_index as int].name@;
            let ghost arg = candidate.args@[arg_index as int];
            proof {
                assert(args.drop_last() =~= candidate.args@.take(arg_index as int));
                assert(args.last() == arg);
                assert(self.argument_ok(typ, arg));
            }
            let ghost entry = report@;
            let arg_value = self.resolve_rule_invocation_argument(
                report,
                invocation,
                rule.parameters[arg_index].typ,
                &candidate.args[arg_index],
                host,
                final_pass,
            );
            proof {
                let a = choose|a: Resolution|
                    {
                        &&& #[trigger] argument_resolves(scope, span, typ, arg, a)
                        &&& result_view(arg_value) == a.result
                        &&& report@ == entry.with(a.messages)
                    };
                b = bound(before, name, a);
                assert(arguments_bind(scope, span, *rule, args, b));
                lemma_with_with(old(report)@, before.messages, a.messages);
            }
            match arg_value {
                Err(()) => {
                    proof {
                        lemma_bind_ended(scope, span, *rule, candidate.args@, arg_index + 1, b);
                        let c = Resolution { result: Err(()), messages: b.messages };
                        lemma_candidate(scope, span, *candidate, b, c);
                    }
                    return Err(());
                },
                Ok(arg_value) => {
                    eval_ctx.set_local(&rule.parameters[arg_index].name, arg_value);
                },
            }
            arg_index += 1;
        }
        let ghost start = eval_ctx;
        let ghost entry = report@;
        let resolved = self.eval_expr(
            report,
            &rule.production,
            &invocation.ctx,
            &mut eval_ctx,
            host,
            final_pass,
        );
        proof {
            let e = evaluated(scope, rule.production, start, resolved, entry, report@);
            let c = Resolution { result: e.result, messages: b.messages + e.messages };
            assert(candidate.args@.take(arg_index as int) =~= candidate.args@);
            assert(b.locals == Some(start@));
            assert(evaluates(scope, rule.production, b.locals->Some_0, e));
            lemma_candidate(scope, span, *candidate, b, c);
            lemma_with_with(old(report)@, b.messages, e.messages);
        }
        resolved
    }

    /// The value of an argument for a parameter of that type.
    fn resolve_rule_invocation_argument<H: Host>(
        &self,
        report: &mut Report,
        invocation: &Invocation,
        typ: PatternParameterType,
        arg: &RuleInvocationArgument,
        host: &H,
        final_pass: bool,
    ) -> (r: Result<Value, ()>)
        requires
            self.argument_ok(typ, *arg),
        ensures
            exists|a: Resolution|
                {
                    &&& #[trigger] argument_resolves(
                        ScopeView { state: self, ctx: &invocation.ctx, host, final_pass },
                        invocation.span,
                        typ,
                        *arg,
                        a,
                    )
                    &&& result_view(r) == a.result
                    &&& final(report)@ == old(report)@.with(a.messages)
                },
        decreases arg,
    {
        let ghost scope = ScopeView { state: self, ctx: &invocation.ctx, host, final_pass };
        let ghost span = invocation.span;
        match arg {
            RuleInvocationArgument::Expression(expr) => {
                let mut eval_ctx = EvalContext::new();
                let ghost start = eval_ctx;
                let resolved = self.eval_expr(
                    report,
                    expr,
                    &invocation.ctx,
                    &mut eval_ctx,
                    host,
                    final_pass,
                );
                let ghost e = evaluated(scope, *expr, start, resolved, old(report)@, report@);
                let ghost a = as_argument(typ, expr.span, e);
                assert(argument_resolves(scope, span, typ, *arg, a));
                match resolved {
                    Err(()) => Err(()),
                    Ok(arg_value) => {
                        let mut arg_value = arg_value;
                        let ghost given = arg_value@;
                        let checked = State::check_and_constrain_argument(
                            &mut arg_value,
                            typ,
                            report,
                            expr.span(),
                        );
                        match checked {
                            Ok(()) => Ok(arg_value),
                            Err(()) => {
                                proof {
                                    let last = error(constrained(typ, given)->Err_0, expr.span);
                                    lemma_with_with(old(report)@, e.messages, seq![last]);
                                    assert(e.messages + seq![last] =~= e.messages.push(last));
                                }
                                Err(())
                            },
                        }
                    },
                }
            },
            RuleInvocationArgument::NestedRuleset(inner_candidates) => {
                let resolved = self.resolve_rule_invocation_candidates(
                    report,
                    invocation,
                    inner_candidates,
                    host,
                    final_pass,
                );
                proof {
                    let c = choose|c: Resolution|
                        {
                            &&& #[trigger] candidates_resolve(
                                scope,
                                span,
                                inner_candidates@,
                                c,
                            )
                            &&& result_view(resolved) == c.result
                            &&& report@ == old(report)@.with(c.messages)
                        };
                    assert(argument_resolves(scope, span, typ, *arg, c));
                }
                resolved
            },
        }
    }
}

/// What an evaluation came to, given what `State::eval_expr` says of it.
proof fn evaluated<H: Host>(
    scope: ScopeView<'_, H>,
    expr: Expr,
    eval_ctx: EvalContext,
    result: Result<Value, ()>,
    before: ReportView,
    after: ReportView,
) -> (e: Resolution)
    requires
        exists|seen: Scope<'_, H>, outcome: EvalOutcome|
            {
                &&& seen@ == scope
                &&& #[trigger] call_ensures(
                    H::eval,
                    (scope.host, &expr, &eval_ctx, &seen),
                    outcome,
                )
                &&& result == outcome.result
                &&& after == before.with(outcome@.messages)
            },
    ensures
        evaluates(scope, expr, eval_ctx@, e),
        e.result == result_view(result),
        after == before.with(e.messages),
{
    let (seen, outcome) = choose|seen: Scope<'_, H>, outcome: EvalOutcome|
        {
            &&& seen@ == scope
            &&& #[trigger] call_ensures(H::eval, (scope.host, &expr, &eval_ctx, &seen), outcome)
            &&& result == outcome.result
            &&& after == before.with(outcome@.messages)
        };
    outcome@
}

/// What a candidate comes to, step by step.
pub proof fn lemma_candidate<H: Host>(
    scope: ScopeView<'_, H>,
    span: Span,
    candidate: RuleInvocationCandidate,
    b: Binding,
    r: Resolution,
)
    requires
        arguments_bind(
            scope,
            span,
            scope.state.rule_of(candidate.rule_ref),
            candidate.args@,
            b,
        ),
        produces(scope, scope.state.rule_of(candidate.rule_ref), b, r),
    ensures
        candidate_resolves(scope, span, candidate, r),
{
}

/// What several candidates come to, step by step.
pub proof fn lemma_candidates<H: Host>(
    scope: ScopeView<'_, H>,
    span: Span,
    candidates: Seq<RuleInvocationCandidate>,
    tries: Seq<Resolution>,
    again: Resolution,
    r: Resolution,
)
    requires
        !(scope.final_pass && candidates.len() == 1),
        tries.len() == candidates.len(),
        forall|i: int|
            #![trigger tries[i]]
            0 <= i < candidates.len() ==> candidate_resolves(scope, span, candidates[i], tries[i]),
        forall|k: int|
            #![trigger is_only_success(tries, k)]
            scope.final_pass && is_only_success(tries, k) ==> candidate_resolves(
                scope,
                span,
                candidates[k],
                again,
            ),
        settles(scope.final_pass, span, tries, again, r),
    ensures
        candidates_resolve(scope, span, candidates, r),
{
}

/// Arguments after one without a value change nothing.
proof fn lemma_bind_ended<H: Host>(
    scope: ScopeView<'_, H>,
    span: Span,
    rule: Rule,
    args: Seq<RuleInvocationArgument>,
    n: int,
    b: Binding,
)
    requires
        0 <= n <= args.len(),
        b.locals is None,
        arguments_bind(scope, span, rule, args.take(n), b),
    ensures
        arguments_bind(scope, span, rule, args, b),
    decreases args.len(),
{
    if n == args.len() {
        assert(args.take(n) =~= args);
    } else {
        assert(args.drop_last().take(n) =~= args.take(n));
        lemma_bind_ended(scope, span, rule, args.drop_last(), n, b);
        let a = Resolution { result: Err(()), messages: Seq::empty() };
        assert(b == bound(b, rule.parameters@[args.len() - 1].name@, a));
    }
}

/// The tries behind the outcome of an instruction.
pub proof fn lemma_tries<H: Host>(
    scope: ScopeView<'_, H>,
    span: Span,
    candidates: Seq<RuleInvocationCandidate>,
    r: Resolution,
) -> (t: (Seq<Resolution>, Resolution))
    requires
        candidates_resolve(scope, span, candidates, r),
        !(scope.final_pass && candidates.len() == 1),
    ensures
        t.0.len() == candidates.len(),
        forall|i: int|
            #![trigger t.0[i]]
            0 <= i < candidates.len() ==> candidate_resolves(scope, span, candidates[i], t.0[i]),
        forall|k: int|
            #![trigger is_only_success(t.0, k)]
            0 <= k < candidates.len() && scope.final_pass && is_only_success(t.0, k)
                ==> candidate_resolves(scope, span, candidates[k], t.1),
        settles(scope.final_pass, span, t.0, t.1, r),
{
    choose|tries: Seq<Resolution>, again: Resolution|
        {
            &&& tries.len() == candidates.len()
            &&& forall|i: int|
                #![trigger tries[i]]
                0 <= i < candidates.len() ==> candidate_resolves(
                    scope,
                    span,
                    candidates[i],
                    tries[i],
                )
            &&& forall|k: int|
                #![trigger is_only_success(tries, k)]
                0 <= k < candidates.len() && scope.final_pass && is_only_success(tries, k)
                    ==> candidate_resolves(scope, span, candidates[k], again)
            &&& #[trigger] settles(scope.final_pass, span, tries, again, r)
        }
}

/// The last step in binding the parameters of a rule.
pub proof fn lemma_last_argument<H: Host>(
    scope: ScopeView<'_, H>,
    span: Span,
    rule: Rule,
    args: Seq<RuleInvocationArgument>,
    b: Binding,
) -> (t: (Binding, Resolution))
    requires
        arguments_bind(scope, span, rule, args, b),
        args.len() > 0,
    ensures
        arguments_bind(scope, span, rule, args.drop_last(), t.0),
        t.0.locals is Some ==> argument_resolves(
            scope,
            span,
            rule.parameters@[args.len() - 1].typ,
            args.last(),
            t.1,
        ),
        b == bound(t.0, rule.parameters@[args.len() - 1].name@, t.1),
{
    let parameter = rule.parameters@[args.len() - 1];
    choose|before: Binding, a: Resolution|
        {
            &&& arguments_bind(scope, span, rule, args.drop_last(), before)
            &&& before.locals is Some ==> argument_resolves(
                scope,
                span,
                parameter.typ,
                args.last(),
                a,
            )
            &&& b == #[trigger] bound(before, parameter.name@, a)
        }
}

} // verus!
