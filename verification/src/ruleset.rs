//! Rules, and the invocations of them that may match a line of the source.
use vstd::prelude::*;

use crate::diagn::Span;
use crate::expr::Expr;
use crate::state::{RuleRef, RulesetRef};

verus! {

/// What an argument may be.
#[derive(Copy, Clone, Debug, PartialEq, Eq)]
pub enum PatternParameterType {
    Unspecified,
    /// Anything that a rule of that ruleset matches.
    Ruleset(RulesetRef),
    /// A natural number of at most that many bits.
    Unsigned(usize),
    /// A number of at most that many bits, sign bit included.
    Signed(usize),
    /// Either of the two.
    Integer(usize),
}

/// A parameter of a rule.
#[derive(Debug)]
pub struct PatternParameter {
    pub name: String,
    pub typ: PatternParameterType,
}

/// A rule: its parameters, and the expression for the bits that it stands for.
#[derive(Debug)]
pub struct Rule {
    pub parameters: Vec<PatternParameter>,
    pub production: Expr,
    pub span: Span,
}

/// A named group of rules.
#[derive(Debug)]
pub struct Ruleset {
    pub name: String,
    pub rules: Vec<Rule>,
}

/// A rule that may match, and the arguments that it would get.
pub struct RuleInvocationCandidate {
    pub rule_ref: RuleRef,
    pub args: Vec<RuleInvocationArgument>,
}

/// An argument of a rule.
pub enum RuleInvocationArgument {
    Expression(Expr),
    /// A part of the line that rules of another ruleset may match.
    NestedRuleset(Vec<RuleInvocationCandidate>),
}

pub struct ParameterView {
    pub name: Seq<char>,
    pub typ: PatternParameterType,
}

#[verifier::ext_equal]
pub struct RuleView {
    pub parameters: Seq<ParameterView>,
    pub production: Expr,
    pub span: Span,
}

#[verifier::ext_equal]
pub struct RulesetView {
    pub name: Seq<char>,
    pub rules: Seq<RuleView>,
}

#[verifier::ext_equal]
pub struct CandidateView {
    pub rule_ref: RuleRef,
    pub args: Seq<ArgumentView>,
}

pub enum ArgumentView {
    Expression(Expr),
    NestedRuleset(Seq<CandidateView>),
}

impl View for PatternParameter {
    type V = ParameterView;

    open spec fn view(&self) -> ParameterView {
        ParameterView { name: self.name@, typ: self.typ }
    }
}

impl View for Rule {
    type V = RuleView;

    open spec fn view(&self) -> RuleView {
        RuleView {
            parameters: self.parameters@.map_values(|p: PatternParameter| p@),
            production: self.production,
            span: self.span,
        }
    }
}

impl View for Ruleset {
    type V = RulesetView;

    open spec fn view(&self) -> RulesetView {
        RulesetView { name: self.name@, rules: self.rules@.map_values(|r: Rule| r@) }
    }
}

/// The candidates, each by its rule and arguments.
pub open spec fn candidate_views(candidates: Seq<RuleInvocationCandidate>) -> Seq<CandidateView>
    decreases candidates,
{
    Seq::new(
        candidates.len(),
        |i: int|
            if 0 <= i < candidates.len() {
                candidate_view(candidates[i])
            } else {
                arbitrary()
            },
    )
}

/// A candidate, by its rule and arguments.
pub open spec fn candidate_view(candidate: RuleInvocationCandidate) -> CandidateView
    decreases candidate,
{
    CandidateView {
        rule_ref: candidate.rule_ref,
        args: Seq::new(
            candidate.args@.len(),
            |i: int|
                if 0 <= i < candidate.args@.len() {
                    argument_view(candidate.args@[i])
                } else {
                    arbitrary()
                },
        ),
    }
}

/// An argument, by its expression or its candidates.
pub open spec fn argument_view(arg: RuleInvocationArgument) -> ArgumentView
    decreases arg,
{
    match arg {
        RuleInvocationArgument::Expression(expr) => ArgumentView::Expression(expr),
        RuleInvocationArgument::NestedRuleset(candidates) => ArgumentView::NestedRuleset(
            candidate_views(candidates@),
        ),
    }
}

} // verus!
