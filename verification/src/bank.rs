//! Banks, and what the source puts into them.
use vstd::pervasive::unreached;
use vstd::prelude::*;

use crate::bigint::{plain_integer, BigInt, IntegerView};
use crate::diagn::Span;
use crate::expr::Expr;
use crate::ruleset::{candidate_views, CandidateView, RuleInvocationCandidate};
use crate::state::{BankRef, Context, ContextView};

verus! {

/// A region of addresses, and where in the output it goes.
#[derive(Debug)]
pub struct Bank {
    pub name: String,
    /// How many bits an address stands for.
    pub wordsize: usize,
    pub labelalign: usize,
    pub addr_start: BigInt,
    /// How many addresses there are, if there is a limit.
    pub addr_size: Option<usize>,
    /// The position of the first bit in the output, if the bank is part of it.
    pub output_offset: Option<usize>,
    /// Whether the bank is filled up to its size.
    pub fill: bool,
    pub decl_span: Option<Span>,
}

/// What was put into a bank so far.
pub struct BankData {
    pub bank_ref: BankRef,
    pub cur_bit_offset: usize,
    pub invocations: Vec<Invocation>,
}

/// A line of the source that takes part in the output.
pub struct Invocation {
    pub ctx: Context,
    /// The size in bits that the addresses after it rest on.
    pub size_guess: usize,
    pub span: Span,
    pub kind: InvocationKind,
}

/// What a line of the source is.
pub enum InvocationKind {
    Rule(RuleInvocation),
    Data(DataInvocation),
    Label(LabelInvocation),
}

/// An instruction, by the rules that may match it.
pub struct RuleInvocation {
    pub candidates: Vec<RuleInvocationCandidate>,
}

/// A data element.
pub struct DataInvocation {
    pub expr: Expr,
    /// The size in bits that the directive gives to it.
    pub elem_size: Option<usize>,
}

/// A label.
#[derive(Debug)]
pub struct LabelInvocation {}

#[verifier::ext_equal]
pub struct BankView {
    pub name: Seq<char>,
    pub wordsize: usize,
    pub labelalign: usize,
    pub addr_start: IntegerView,
    pub addr_size: Option<usize>,
    pub output_offset: Option<usize>,
    pub fill: bool,
    pub decl_span: Option<Span>,
}

pub enum InvocationKindView {
    Rule(Seq<CandidateView>),
    Data(DataInvocation),
    Label,
}

pub struct InvocationView {
    pub ctx: ContextView,
    pub size_guess: usize,
    pub span: Span,
    pub kind: InvocationKindView,
}

#[verifier::ext_equal]
pub struct BankDataView {
    pub bank_ref: BankRef,
    pub cur_bit_offset: usize,
    pub invocations: Seq<InvocationView>,
}

impl View for Bank {
    type V = BankView;

    open spec fn view(&self) -> BankView {
        BankView {
            name: self.name@,
            wordsize: self.wordsize,
            labelalign: self.labelalign,
            addr_start: self.addr_start@,
            addr_size: self.addr_size,
            output_offset: self.output_offset,
            fill: self.fill,
            decl_span: self.decl_span,
        }
    }
}

impl View for InvocationKind {
    type V = InvocationKindView;

    open spec fn view(&self) -> InvocationKindView {
        match self {
            InvocationKind::Rule(rule) => InvocationKindView::Rule(
                candidate_views(rule.candidates@),
            ),
            InvocationKind::Data(data) => InvocationKindView::Data(*data),
            InvocationKind::Label(_) => InvocationKindView::Label,
        }
    }
}

impl View for Invocation {
    type V = InvocationView;

    open spec fn view(&self) -> InvocationView {
        InvocationView {
            ctx: self.ctx@,
            size_guess: self.size_guess,
            span: self.span,
            kind: self.kind@,
        }
    }
}

impl View for BankData {
    type V = BankDataView;

    open spec fn view(&self) -> BankDataView {
        BankDataView {
            bank_ref: self.bank_ref,
            cur_bit_offset: self.cur_bit_offset,
            invocations: self.invocations@.map_values(|i: Invocation| i@),
        }
    }
}

impl Bank {
    /// How many bits the bank may hold, if there is a limit.
    pub open spec fn bit_size(self) -> Option<int> {
        match self.addr_size {
            Some(size) => Some(size * self.wordsize),
            None => None,
        }
    }

    /// Whether the two banks claim the same part of the output. A bank without a
    /// limit claims all that follows its first bit.
    pub open spec fn overlaps(self, other: Bank) -> bool {
        match (self.output_offset, other.output_offset) {
            (Some(start), Some(other_start)) => {
                &&& self.bit_size() matches Some(size) ==> start + size > other_start
                &&& other.bit_size() matches Some(size) ==> other_start + size > start
            },
            _ => false,
        }
    }

    /// Whether `size` bits from position `offset` on go beyond the bank.
    pub open spec fn exceeded_by(self, offset: usize, size: usize) -> bool {
        self.bit_size() matches Some(limit) && offset + size > limit
    }

    /// Whether the bank is the one that source before any bank goes to.
    pub open spec fn is_default(self) -> bool {
        &&& self.name@ == Seq::<char>::empty()
        &&& self.wordsize == 8
        &&& self.labelalign == 0
        &&& self.addr_start@ == plain_integer(0)
        &&& self.addr_size is None
        &&& self.output_offset == Some(0usize)
        &&& !self.fill
        &&& self.decl_span is None
    }

    /// The bank that source before any bank goes to.
    pub fn new_default() -> (r: Bank)
        ensures
            r.is_default(),
    {
        Bank {
            name: String::new(),
            wordsize: 8,
            labelalign: 0,
            addr_start: BigInt::from_usize(0),
            addr_size: None,
            output_offset: Some(0),
            fill: false,
            decl_span: None,
        }
    }

    /// `addr_size` times `wordsize`, as a number that always fits.
    pub(crate) fn limit(&self, addr_size: usize) -> (r: u128)
        ensures
            r == addr_size * self.wordsize,
            r <= 0xffff_ffff_ffff_fffe_0000_0000_0000_0001,
    {
        let a: u128 = addr_size as u128;
        let w: u128 = self.wordsize as u128;
        assert(a * w <= 0xffff_ffff_ffff_fffe_0000_0000_0000_0001) by (nonlinear_arith)
            requires
                a <= 0xffff_ffff_ffff_ffff,
                w <= 0xffff_ffff_ffff_ffff,
        ;
        a * w
    }

    /// Whether the two banks claim the same part of the output.
    pub fn output_overlaps(&self, other: &Bank) -> (r: bool)
        ensures
            r == self.overlaps(*other),
    {
        match (self.output_offset, other.output_offset) {
            (Some(start), Some(other_start)) => {
                let reaches_other = match self.addr_size {
                    Some(size) => start as u128 + self.limit(size) > other_start as u128,
                    None => true,
                };
                let is_reached = match other.addr_size {
                    Some(size) => other_start as u128 + other.limit(size) > start as u128,
                    None => true,
                };
                reaches_other && is_reached
            },
            _ => false,
        }
    }

    /// Whether `size` bits from position `offset` on go beyond the bank.
    pub fn is_exceeded_by(&self, offset: usize, size: usize) -> (r: bool)
        ensures
            r == self.exceeded_by(offset, size),
    {
        match self.addr_size {
            Some(addr_size) => offset as u128 + size as u128 > self.limit(addr_size),
            None => false,
        }
    }
}

impl Invocation {
    /// The position after the bits that the invocation is expected to take.
    pub open spec fn end(self) -> int {
        match self.kind {
            InvocationKind::Label(_) => self.ctx.bit_offset as int,
            _ => self.ctx.bit_offset + self.size_guess,
        }
    }

    /// The instruction of an invocation that is one.
    pub fn get_rule_invoc(&self) -> (r: &RuleInvocation)
        requires
            self.kind is Rule,
        ensures
            self.kind == InvocationKind::Rule(*r),
    {
        match &self.kind {
            InvocationKind::Rule(invoc) => invoc,
            _ => unreached(),
        }
    }

    /// The data element of an invocation that is one.
    pub fn get_data_invoc(&self) -> (r: &DataInvocation)
        requires
            self.kind is Data,
        ensures
            self.kind == InvocationKind::Data(*r),
    {
        match &self.kind {
            InvocationKind::Data(invoc) => invoc,
            _ => unreached(),
        }
    }
}

} // verus!
