//! Which rule an instruction matches, and what the rule makes of its arguments.
use vstd::prelude::*;

use crate::diagn::{MessageView, Span};
use crate::expr::{Resolution, ValueView};
use crate::host::{Host, ScopeView};
use crate::laws::sizes::is_plain_message;
use crate::repeat::lemma_only_success;
use crate::resolve::{
    argument_resolves, arguments_bind, candidate_resolves, candidates_resolve, evaluates,
    is_last_success, is_only_success, lemma_last_argument, lemma_tries, no_success, produces,
    several_successes, Binding,
};
use crate::ruleset::{
    PatternParameterType, Rule, RuleInvocationArgument, RuleInvocationCandidate,
};

verus! {

/// Whether the results of the arguments are those of the first parameters of a rule.
pub open spec fn are_results<H: Host>(
    scope: ScopeView<'_, H>,
    span: Span,
    rule: Rule,
    args: Seq<RuleInvocationArgument>,
    results: Seq<Resolution>,
) -> bool {
    &&& results.len() <= args.len()
    &&& forall|i: int|
        0 <= i < results.len() ==> argument_resolves(
            scope,
            span,
            rule.parameters@[i].typ,
            args[i],
            #[trigger] results[i],
        )
    &&& forall|i: int| 0 <= i < results.len() - 1 ==> (#[trigger] results[i]).result is Ok
}

/// Whether the names stand for the results of the arguments: every parameter for the
/// result of its own argument, unless a later parameter has the same name, and no other
/// name for anything.
pub open spec fn are_locals(
    rule: Rule,
    results: Seq<Resolution>,
    locals: Map<Seq<char>, ValueView>,
) -> bool {
    &&& forall|i: int|
        #![trigger results[i]]
        0 <= i < results.len() && (forall|j: int|
            i < j < results.len() ==> (#[trigger] rule.parameters@[j]).name@
                != rule.parameters@[i].name@) ==> {
            &&& locals.contains_key(rule.parameters@[i].name@)
            &&& results[i].result == Ok::<ValueView, ()>(locals[rule.parameters@[i].name@])
        }
    &&& forall|name: Seq<char>| #[trigger]
        locals.contains_key(name) ==> exists|i: int|
            0 <= i < results.len() && (#[trigger] rule.parameters@[i]).name@ == name
}

/// All messages of the results, in order.
pub open spec fn all_messages(results: Seq<Resolution>) -> Seq<MessageView> {
    results.map_values(|r: Resolution| r.messages).flatten_alt()
}

/// The results of the arguments behind the parameters of a rule.
proof fn lemma_results<H: Host>(
    scope: ScopeView<'_, H>,
    span: Span,
    rule: Rule,
    args: Seq<RuleInvocationArgument>,
    b: Binding,
) -> (results: Seq<Resolution>)
    requires
        arguments_bind(scope, span, rule, args, b),
    ensures
        are_results(scope, span, rule, args, results),
        b.messages == all_messages(results),
        match b.locals {
            Some(locals) => {
                &&& results.len() == args.len()
                &&& forall|i: int|
                    0 <= i < results.len() ==> (#[trigger] results[i]).result is Ok
                &&& are_locals(rule, results, locals)
            },
            None => results.len() > 0 && results.last().result is Err,
        },
    decreases args.len(),
{
    if args.len() == 0 {
        let results = Seq::<Resolution>::empty();
        assert(results.map_values(|r: Resolution| r.messages) =~= Seq::empty());
        assert(b.messages =~= all_messages(results));
        results
    } else {
        let k = args.len() - 1;
        let (before, a) = lemma_last_argument(scope, span, rule, args, b);
        let first = lemma_results(scope, span, rule, args.drop_last(), before);
        assert forall|i: int| 0 <= i < first.len() implies argument_resolves(
            scope,
            span,
            rule.parameters@[i].typ,
            args[i],
            #[trigger] first[i],
        ) by {
            assert(args.drop_last()[i] == args[i]);
        }
        match before.locals {
            None => first,
            Some(locals) => {
                let results = first.push(a);
                let name = rule.parameters@[k].name@;
                assert forall|i: int| 0 <= i < results.len() implies argument_resolves(
                    scope,
                    span,
                    rule.parameters@[i].typ,
                    args[i],
                    #[trigger] results[i],
                ) by {
                    if i < k {
                        assert(results[i] == first[i]);
                    }
                }
                assert forall|i: int| 0 <= i < results.len() - 1 implies (
                #[trigger] results[i]).result is Ok by {
                    assert(results[i] == first[i]);
                }
                assert(all_messages(results) == all_messages(first) + a.messages) by {
                    let rows = results.map_values(|r: Resolution| r.messages);
                    assert(rows.drop_last() =~= first.map_values(|r: Resolution| r.messages));
                }
                if let Ok(value) = a.result {
                    let after = locals.insert(name, value);
                    assert(b.locals == Some(after));
                    assert(are_locals(rule, results, after)) by {
                        assert forall|i: int|
                            #![trigger results[i]]
                            0 <= i < results.len() && (forall|j: int|
                                i < j < results.len() ==> (#[trigger] rule.parameters@[j]).name@
                                    != rule.parameters@[i].name@) implies {
                            &&& after.contains_key(rule.parameters@[i].name@)
                            &&& results[i].result == Ok::<ValueView, ()>(
                                after[rule.parameters@[i].name@],
                            )
                        } by {
                            if i < k {
                                assert(results[i] == first[i]);
                                assert(rule.parameters@[k].name@ != rule.parameters@[i].name@);
                            }
                        }
                        assert forall|other: Seq<char>| #[trigger]
                            after.contains_key(other) implies exists|i: int|
                            0 <= i < results.len() && (#[trigger] rule.parameters@[i]).name@
                                == other by {
                            if other == name {
                                assert(rule.parameters@[k].name@ == other);
                            } else {
                                assert(locals.contains_key(other));
                                let i = choose|i: int|
                                    0 <= i < first.len() && (
                                    #[trigger] rule.parameters@[i]).name@ == other;
                                assert(rule.parameters@[i].name@ == other);
                            }
                        }
                    }
                    assert forall|i: int| 0 <= i < results.len() implies (
                    #[trigger] results[i]).result is Ok by {
                        if i < k {
                            assert(results[i] == first[i]);
                        }
                    }
                }
                results
            },
        }
    }
}

/// The rule that a candidate names.
pub open spec fn named_rule<H: Host>(
    scope: ScopeView<'_, H>,
    candidate: RuleInvocationCandidate,
) -> Rule {
    let rulesets = scope.state.rulesets@;
    rulesets[candidate.rule_ref.ruleset_ref.index as int].rules@[candidate.rule_ref.index as int]
}

/// Whether `r` follows from the results of the arguments: the first one without a value
/// ends it, and otherwise the production of the rule is evaluated with `locals` and comes
/// to `e`.
pub open spec fn follows_from_arguments<H: Host>(
    scope: ScopeView<'_, H>,
    rule: Rule,
    args: Seq<RuleInvocationArgument>,
    results: Seq<Resolution>,
    locals: Map<Seq<char>, ValueView>,
    e: Resolution,
    r: Resolution,
) -> bool {
    if results.len() > 0 && results.last().result is Err {
        &&& r.result is Err
        &&& r.messages == all_messages(results)
    } else {
        &&& results.len() == args.len()
        &&& are_locals(rule, results, locals)
        &&& evaluates(scope, rule.production, locals, e)
        &&& r.result == e.result
        &&& r.messages == all_messages(results) + e.messages
    }
}

/// The production of a rule is evaluated with every parameter bound to the result of its
/// own argument, and with no other local names. An instruction comes to what that comes to;
/// an argument without a value, of which the first one counts, leaves it without one. The
/// messages are those of the arguments and of the production, in order.
pub proof fn law_production_sees_every_argument<H: Host>(
    scope: ScopeView<'_, H>,
    span: Span,
    candidate: RuleInvocationCandidate,
    r: Resolution,
)
    requires
        candidate_resolves(scope, span, candidate, r),
    ensures
        exists|
            results: Seq<Resolution>,
            locals: Map<Seq<char>, ValueView>,
            e: Resolution,
        |
            {
                &&& are_results(
                    scope,
                    span,
                    named_rule(scope, candidate),
                    candidate.args@,
                    results,
                )
                &&& #[trigger] follows_from_arguments(
                    scope,
                    named_rule(scope, candidate),
                    candidate.args@,
                    results,
                    locals,
                    e,
                    r,
                )
            },
{
    let rule = scope.state.rule_of(candidate.rule_ref);
    assert(rule == named_rule(scope, candidate));
    let b = choose|b: Binding|
        {
            &&& arguments_bind(scope, span, rule, candidate.args@, b)
            &&& #[trigger] produces(scope, rule, b, r)
        };
    let results = lemma_results(scope, span, rule, candidate.args@, b);
    match b.locals {
        None => {
            assert(follows_from_arguments(
                scope,
                rule,
                candidate.args@,
                results,
                Map::empty(),
                r,
                r,
            ));
        },
        Some(locals) => {
            let e = choose|e: Resolution|
                {
                    &&& #[trigger] evaluates(scope, rule.production, locals, e)
                    &&& r == (Resolution { result: e.result, messages: b.messages + e.messages })
                };
            assert(evaluates(scope, rule.production, locals, e));
            if results.len() > 0 {
                assert(results[results.len() - 1].result is Ok);
            }
            assert(follows_from_arguments(
                scope,
                rule,
                candidate.args@,
                results,
                locals,
                e,
                r,
            ));
        },
    }
}

/// An argument that is part of the line is resolved as an instruction is, among its own
/// candidates.
pub proof fn law_nested_argument_is_an_instruction<H: Host>(
    scope: ScopeView<'_, H>,
    span: Span,
    typ: PatternParameterType,
    candidates: Vec<RuleInvocationCandidate>,
    r: Resolution,
)
    ensures
        argument_resolves(scope, span, typ, RuleInvocationArgument::NestedRuleset(candidates), r)
            == candidates_resolve(scope, span, candidates@, r),
{
}

/// Whether `tries` are what the candidates came to, one for one.
pub open spec fn are_tries<H: Host>(
    scope: ScopeView<'_, H>,
    span: Span,
    candidates: Seq<RuleInvocationCandidate>,
    tries: Seq<Resolution>,
) -> bool {
    &&& tries.len() == candidates.len()
    &&& forall|i: int|
        0 <= i < tries.len() ==> candidate_resolves(
            scope,
            span,
            candidates[i],
            #[trigger] tries[i],
        )
}

/// Before the final pass, an instruction has the value and the messages of the last
/// candidate that has a value. If none has one, it has none, and no messages.
pub proof fn law_last_match_counts_before_the_end<H: Host>(
    scope: ScopeView<'_, H>,
    span: Span,
    candidates: Seq<RuleInvocationCandidate>,
    r: Resolution,
)
    requires
        candidates_resolve(scope, span, candidates, r),
        !scope.final_pass,
    ensures
        exists|tries: Seq<Resolution>|
            {
                &&& #[trigger] are_tries(scope, span, candidates, tries)
                &&& match r.result {
                    Ok(_) => exists|k: int|
                        {
                            &&& 0 <= k < tries.len()
                            &&& #[trigger] tries[k] == r
                            &&& forall|i: int|
                                k < i < tries.len() ==> (#[trigger] tries[i]).result is Err
                        },
                    Err(_) => {
                        &&& forall|i: int|
                            0 <= i < tries.len() ==> (#[trigger] tries[i]).result is Err
                        &&& r.messages.len() == 0
                    },
                }
            },
{
    let (tries, again) = lemma_tries(scope, span, candidates, r);
    assert(are_tries(scope, span, candidates, tries));
    if !no_success(tries) {
        let k = choose|k: int| #[trigger] is_last_success(tries, k) && r == tries[k];
        assert(tries[k] == r);
    }
}

/// In the final pass, an instruction with one candidate comes to what the candidate comes
/// to. With more, just one of them is to match, and is then resolved once more: none leave
/// it without a value and without messages, and several are an error with one message.
pub proof fn law_final_pass_wants_one_match<H: Host>(
    scope: ScopeView<'_, H>,
    span: Span,
    candidates: Seq<RuleInvocationCandidate>,
    r: Resolution,
)
    requires
        candidates_resolve(scope, span, candidates, r),
        scope.final_pass,
    ensures
        candidates.len() == 1 ==> candidate_resolves(scope, span, candidates[0], r),
        candidates.len() != 1 ==> exists|tries: Seq<Resolution>|
            {
                &&& #[trigger] are_tries(scope, span, candidates, tries)
                &&& {
                    ||| is_unmatched(tries, r)
                    ||| is_ambiguous(tries, span, r)
                    ||| exists|k: int|
                        {
                            &&& #[trigger] is_the_match(tries, k)
                            &&& candidate_resolves(scope, span, candidates[k], r)
                        }
                }
            },
{
    if candidates.len() != 1 {
        let (tries, again) = lemma_tries(scope, span, candidates, r);
        assert(are_tries(scope, span, candidates, tries));
        if no_success(tries) {
            assert(is_unmatched(tries, r));
        } else if several_successes(tries) {
            assert(is_ambiguous(tries, span, r));
        } else {
            let k = lemma_only_success(tries);
            assert(is_only_success(tries, k));
            assert(is_the_match(tries, k));
            assert(candidate_resolves(scope, span, candidates[k], r));
        }
    }
}

/// Whether no candidate has a value, and nothing is said of it.
pub open spec fn is_unmatched(tries: Seq<Resolution>, r: Resolution) -> bool {
    &&& forall|i: int| 0 <= i < tries.len() ==> (#[trigger] tries[i]).result is Err
    &&& r.result is Err
    &&& r.messages.len() == 0
}

/// Whether two candidates have values, and one message says so.
pub open spec fn is_ambiguous(tries: Seq<Resolution>, span: Span, r: Resolution) -> bool {
    &&& exists|i: int, j: int|
        0 <= i < j < tries.len() && (#[trigger] tries[i]).result is Ok && (
        #[trigger] tries[j]).result is Ok
    &&& r.result is Err
    &&& r.messages.len() == 1
    &&& is_plain_message(r.messages[0], "multiple matches for instruction"@, span)
}

/// Whether candidate `k` has a value, and no other one has.
pub open spec fn is_the_match(tries: Seq<Resolution>, k: int) -> bool {
    &&& 0 <= k < tries.len()
    &&& tries[k].result is Ok
    &&& forall|i: int| 0 <= i < tries.len() && i != k ==> (#[trigger] tries[i]).result is Err
}

} // verus!
