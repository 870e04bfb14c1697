//! Whether a state can be assembled.
use vstd::prelude::*;

use crate::bank::{Bank, BankData, Invocation, InvocationKind};
use crate::ruleset::{
    PatternParameterType, RuleInvocationArgument, RuleInvocationCandidate,
};
use crate::state::State;

verus! {

impl State {
    /// Whether all banks can be resolved and put into the output. A host that is
    /// not sure of its parser can ask this of what it gives to the assembler.
    pub fn is_resolvable(&self) -> (r: bool)
        ensures
            r == self.can_resolve(),
    {
        if self.banks.len() > self.bankdata.len() {
            return false;
        }
        let mut i: usize = 0;
        while i < self.banks.len()
            invariant
                i <= self.banks@.len(),
                self.banks@.len() <= self.bankdata@.len(),
                forall|j: int|
                    #![trigger self.banks@[j]]
                    0 <= j < i ==> self.bankdata_ok(self.banks@[j], self.bankdata@[j])
                        && State::output_fits(self.banks@[j], self.bankdata@[j]),
            decreases self.banks@.len() - i,
        {
            let bank = &self.banks[i];
            let bankdata = &self.bankdata[i];
            if !self.is_bankdata_ok(bank, bankdata) || !State::does_output_fit(bank, bankdata) {
                assert(self.banks@[i as int] == *bank);
                return false;
            }
            i += 1;
        }
        true
    }

    /// Whether a bank with that data can be resolved.
    pub fn is_bankdata_ok(&self, bank: &Bank, bankdata: &BankData) -> (r: bool)
        ensures
            r == self.bankdata_ok(*bank, *bankdata),
    {
        let mut i: usize = 0;
        while i < bankdata.invocations.len()
            invariant
                i <= bankdata.invocations@.len(),
                forall|j: int|
                    0 <= j < i ==> self.invocation_ok(#[trigger] bankdata.invocations@[j]),
            decreases bankdata.invocations@.len() - i,
        {
            if !self.is_invocation_ok(&bankdata.invocations[i]) {
                assert(!self.invocation_ok(bankdata.invocations@[i as int]));
                return false;
            }
            i += 1;
        }
        !bank.fill || State::reach(bank, 0) <= usize::MAX as u128
    }

    /// Whether a line of a bank can be resolved.
    fn is_invocation_ok(&self, invoc: &Invocation) -> (r: bool)
        ensures
            r == self.invocation_ok(*invoc),
    {
        if invoc.ctx.bank_ref.index >= self.banks.len() || invoc.ctx.cur_wordsize == 0 {
            return false;
        }
        if State::end_of(invoc) > usize::MAX as u128 {
            return false;
        }
        match &invoc.kind {
            InvocationKind::Rule(rule) => self.are_candidates_ok(&rule.candidates),
            _ => true,
        }
    }

    /// Whether a machine word holds where each line of the bank ends in the output.
    fn does_output_fit(bank: &Bank, bankdata: &BankData) -> (r: bool)
        ensures
            r == State::output_fits(*bank, *bankdata),
    {
        match bank.output_offset {
            None => true,
            Some(offset) => {
                let mut i: usize = 0;
                while i < bankdata.invocations.len()
                    invariant
                        i <= bankdata.invocations@.len(),
                        bank.output_offset == Some(offset),
                        forall|j: int|
                            #![trigger bankdata.invocations@[j]]
                            0 <= j < i ==> offset + bankdata.invocations@[j].end() <= usize::MAX,
                    decreases bankdata.invocations@.len() - i,
                {
                    if offset as u128 + State::end_of(&bankdata.invocations[i])
                        > usize::MAX as u128 {
                        assert(offset + bankdata.invocations@[i as int].end() > usize::MAX);
                        return false;
                    }
                    i += 1;
                }
                !bank.fill || State::reach(bank, offset) <= usize::MAX as u128
            },
        }
    }

    /// The position after the bits that the invocation is expected to take.
    fn end_of(invoc: &Invocation) -> (r: u128)
        ensures
            r == invoc.end(),
            r <= 2 * usize::MAX,
    {
        match &invoc.kind {
            InvocationKind::Label(_) => invoc.ctx.bit_offset as u128,
            _ => invoc.ctx.bit_offset as u128 + invoc.size_guess as u128,
        }
    }

    /// The position after the bits of a bank that starts at `offset`, or zero if the
    /// bank has no limit.
    fn reach(bank: &Bank, offset: usize) -> (r: u128)
        ensures
            r == (match bank.bit_size() {
                Some(size) => offset + size,
                None => 0,
            }),
    {
        match bank.addr_size {
            Some(addr_size) => offset as u128 + bank.limit(addr_size),
            None => 0,
        }
    }

    /// Whether the candidates are rules of the state with arguments that suit them.
    pub fn are_candidates_ok(&self, candidates: &Vec<RuleInvocationCandidate>) -> (r: bool)
        ensures
            r == self.candidates_ok(candidates@),
        decreases candidates,
    {
        let mut i: usize = 0;
        while i < candidates.len()
            invariant
                i <= candidates@.len(),
                forall|j: int| 0 <= j < i ==> self.candidate_ok(#[trigger] candidates@[j]),
            decreases candidates@.len() - i,
        {
            if !self.is_candidate_ok(&candidates[i]) {
                assert(!self.candidate_ok(candidates@[i as int]));
                return false;
            }
            i += 1;
        }
        true
    }

    /// Whether the candidate is a rule of the state with arguments that suit it.
    pub fn is_candidate_ok(&self, candidate: &RuleInvocationCandidate) -> (r: bool)
        ensures
            r == self.candidate_ok(*candidate),
        decreases candidate,
    {
        let rule_ref = candidate.rule_ref;
        if rule_ref.ruleset_ref.index >= self.rulesets.len() {
            return false;
        }
        if rule_ref.index >= self.rulesets[rule_ref.ruleset_ref.index].rules.len() {
            return false;
        }
        let rule = &self.rulesets[rule_ref.ruleset_ref.index].rules[rule_ref.index];
        if candidate.args.len() > rule.parameters.len() {
            return false;
        }
        let mut i: usize = 0;
        while i < candidate.args.len()
            invariant
                i <= candidate.args@.len(),
                *rule == self.rule_of(candidate.rule_ref),
                candidate.args@.len() <= rule.parameters@.len(),
                forall|j: int|
                    0 <= j < i ==> self.argument_ok(
                        rule.parameters@[j].typ,
                        #[trigger] candidate.args@[j],
                    ),
            decreases candidate.args@.len() - i,
        {
            if !self.is_argument_ok(rule.parameters[i].typ, &candidate.args[i]) {
                assert(!self.argument_ok(
                    rule.parameters@[i as int].typ,
                    candidate.args@[i as int],
                ));
                return false;
            }
            i += 1;
        }
        true
    }

    /// Whether the argument suits a parameter of that type.
    fn is_argument_ok(&self, typ: PatternParameterType, arg: &RuleInvocationArgument) -> (r: bool)
        ensures
            r == self.argument_ok(typ, *arg),
        decreases arg,
    {
        match arg {
            RuleInvocationArgument::Expression(_) => match typ {
                PatternParameterType::Ruleset(_) => false,
                _ => true,
            },
            RuleInvocationArgument::NestedRuleset(candidates) => self.are_candidates_ok(candidates),
        }
    }
}

} // verus!
