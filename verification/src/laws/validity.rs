//! What a state needs to be resolved.
use vstd::prelude::*;

use crate::bank::{Bank, BankData, Invocation, InvocationKind};
use crate::ruleset::{PatternParameterType, RuleInvocationArgument, RuleInvocationCandidate};
use crate::state::{Context, State};

verus! {

/// A place has an address if it is in a bank that there is, in words of one bit at least.
pub proof fn law_place_needs_a_bank_and_words(state: State, ctx: Context)
    ensures
        state.has_place(ctx) <==> ctx.bank_ref.index < state.banks@.len() && ctx.cur_wordsize > 0,
{
}

/// A line can be resolved if it has a place, if a machine word holds where it ends, and if
/// all candidates of an instruction can be tried. Nothing else is asked of it.
pub proof fn law_line_needs_a_place_and_rules(state: State, invoc: Invocation)
    ensures
        state.invocation_ok(invoc) <==> {
            &&& ctx_is_placed(state, invoc.ctx)
            &&& invoc.ctx.bit_offset + (if invoc.kind is Label {
                0
            } else {
                invoc.size_guess as int
            }) <= usize::MAX
            &&& match invoc.kind {
                InvocationKind::Rule(rule) => forall|i: int|
                    0 <= i < rule.candidates@.len() ==> state.candidate_ok(
                        #[trigger] rule.candidates@[i],
                    ),
                _ => true,
            }
        },
{
}

/// Whether the context is in a bank that there is.
pub open spec fn ctx_is_placed(state: State, ctx: Context) -> bool {
    ctx.bank_ref.index < state.banks@.len() && ctx.cur_wordsize > 0
}

/// A candidate can be tried if there is such a rule, with a parameter for each argument.
/// An expression is no argument for a parameter that is a ruleset, and the candidates of
/// a nested argument are to be such as can be tried.
pub proof fn law_candidate_needs_a_rule_with_parameters(
    state: State,
    candidate: RuleInvocationCandidate,
)
    ensures
        state.candidate_ok(candidate) <==> {
            let group = candidate.rule_ref.ruleset_ref.index as int;
            let index = candidate.rule_ref.index as int;
            &&& group < state.rulesets@.len()
            &&& index < state.rulesets@[group].rules@.len()
            &&& candidate.args@.len() <= state.rulesets@[group].rules@[index].parameters@.len()
            &&& forall|i: int|
                0 <= i < candidate.args@.len() ==> state.argument_ok(
                    state.rulesets@[group].rules@[index].parameters@[i].typ,
                    #[trigger] candidate.args@[i],
                )
        },
{
}

/// The same of one argument.
pub proof fn law_argument_suits_its_parameter(
    state: State,
    typ: PatternParameterType,
    arg: RuleInvocationArgument,
)
    ensures
        state.argument_ok(typ, arg) <==> match arg {
            RuleInvocationArgument::Expression(_) => !(typ is Ruleset),
            RuleInvocationArgument::NestedRuleset(candidates) => forall|i: int|
                0 <= i < candidates@.len() ==> state.candidate_ok(#[trigger] candidates@[i]),
        },
{
}

/// A bank can be resolved if all its lines can be, and if a machine word holds the size of
/// a bank that is to be filled.
pub proof fn law_bank_needs_its_lines(state: State, bank: Bank, bankdata: BankData)
    ensures
        state.bankdata_ok(bank, bankdata) <==> {
            &&& forall|i: int|
                0 <= i < bankdata.invocations@.len() ==> state.invocation_ok(
                    #[trigger] bankdata.invocations@[i],
                )
            &&& bank.fill ==> (bank.addr_size matches Some(words) ==> words * bank.wordsize
                <= usize::MAX)
        },
{
}

/// The output can be made if every bank has data and can be resolved, and if a machine word
/// holds where each line and each filled bank ends in the output.
pub proof fn law_output_needs_all_banks(state: State)
    ensures
        state.can_resolve() <==> {
            &&& state.banks@.len() <= state.bankdata@.len()
            &&& forall|i: int|
                0 <= i < state.banks@.len() ==> state.bankdata_ok(
                    #[trigger] state.banks@[i],
                    state.bankdata@[i],
                ) && ends_in_reach(state.banks@[i], state.bankdata@[i])
        },
{
    assert forall|i: int| 0 <= i < state.banks@.len() implies ends_in_reach(
        #[trigger] state.banks@[i],
        state.bankdata@[i],
    ) == State::output_fits(state.banks@[i], state.bankdata@[i]) by {
        lemma_reach(state.banks@[i], state.bankdata@[i]);
    }
}

/// Whether a machine word holds where each line of the bank ends in the output, and where
/// the bank does if it is filled.
pub open spec fn ends_in_reach(bank: Bank, bankdata: BankData) -> bool {
    bank.output_offset matches Some(offset) ==> {
        &&& forall|i: int|
            0 <= i < bankdata.invocations@.len() ==> {
                let invoc = #[trigger] bankdata.invocations@[i];
                offset + invoc.ctx.bit_offset + (if invoc.kind is Label {
                    0
                } else {
                    invoc.size_guess as int
                }) <= usize::MAX
            }
        &&& bank.fill ==> (bank.addr_size matches Some(words) ==> offset + words * bank.wordsize
            <= usize::MAX)
    }
}

/// The two ways to put it are the same.
proof fn lemma_reach(bank: Bank, bankdata: BankData)
    ensures
        ends_in_reach(bank, bankdata) == State::output_fits(bank, bankdata),
{
    if let Some(offset) = bank.output_offset {
        assert forall|i: int| 0 <= i < bankdata.invocations@.len() implies {
            let invoc = #[trigger] bankdata.invocations@[i];
            invoc.end() == invoc.ctx.bit_offset + (if invoc.kind is Label {
                0
            } else {
                invoc.size_guess as int
            })
        } by {}
        if State::output_fits(bank, bankdata) {
            assert forall|i: int| 0 <= i < bankdata.invocations@.len() implies {
                let invoc = #[trigger] bankdata.invocations@[i];
                offset + invoc.ctx.bit_offset + (if invoc.kind is Label {
                    0
                } else {
                    invoc.size_guess as int
                }) <= usize::MAX
            } by {
                assert(offset + bankdata.invocations@[i].end() <= usize::MAX);
            }
        }
    }
}

} // verus!
