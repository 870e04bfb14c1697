//! What the assembler needs from the program around it.
use vstd::prelude::*;

use crate::bigint::BigInt;
use crate::diagn::{Message, Report, Span};
use crate::eval::{answers, is_function, names_address, Answer};
use crate::expr::{
    answer_view, EvalContext, EvalFunctionInfo, EvalOutcome, EvalVariableInfo, Expr, Value,
};
use crate::state::{Context, State};
use crate::text::texts;

verus! {

/// Where an expression is evaluated, as an evaluator sees it: it can ask what a
/// variable stands for and what a function comes to, and nothing else.
pub struct Scope<'a, H> {
    state: &'a State,
    ctx: &'a Context,
    host: &'a H,
    final_pass: bool,
}

/// Where an expression is evaluated: the variables and functions that it uses
/// are those of the state, as seen from the context.
pub struct ScopeView<'a, H> {
    pub state: &'a State,
    pub ctx: &'a Context,
    pub host: &'a H,
    /// Whether the symbols have their final values.
    pub final_pass: bool,
}

impl<'a, H> View for Scope<'a, H> {
    type V = ScopeView<'a, H>;

    closed spec fn view(&self) -> ScopeView<'a, H> {
        ScopeView {
            state: self.state,
            ctx: self.ctx,
            host: self.host,
            final_pass: self.final_pass,
        }
    }
}

impl<'a, H> Scope<'a, H> {
    /// The scope at `ctx`.
    pub(crate) fn new(
        state: &'a State,
        ctx: &'a Context,
        host: &'a H,
        final_pass: bool,
    ) -> (r: Scope<'a, H>)
        ensures
            r@ == (ScopeView { state, ctx, host, final_pass }),
    {
        Scope { state, ctx, host, final_pass }
    }

    /// Whether the place is in a bank, so that it has an address.
    pub fn has_place(&self) -> (r: bool)
        ensures
            r == self@.state.has_place(*self@.ctx),
    {
        self.ctx.bank_ref.index < self.state.banks.len() && self.ctx.cur_wordsize > 0
    }

    /// What a variable stands for.
    pub fn variable(&self, report: &mut Report, info: &EvalVariableInfo) -> (r: Result<
        Value,
        bool,
    >)
        requires
            names_address(info.hierarchy_level, texts(info.hierarchy@)) ==> self@.state.has_place(
                *self@.ctx,
            ),
        ensures
            answer_view(r) == self@.state.variable(
                *self@.ctx,
                info.hierarchy_level,
                texts(info.hierarchy@),
                self@.final_pass,
            ),
            final(report)@ == old(report)@.with(
                self@.state.variable_messages(
                    *self@.ctx,
                    info.hierarchy_level,
                    texts(info.hierarchy@),
                    info.span,
                ),
            ),
    {
        self.state.eval_var(report, self.ctx, info, self.final_pass)
    }
}

impl<'a, H: FileServer> Scope<'a, H> {
    /// What a call of a built-in function comes to.
    pub fn function(&self, report: &mut Report, info: &EvalFunctionInfo) -> (r: Result<
        Value,
        bool,
    >)
        requires
            info.func matches Value::Function(name) && is_function(name@),
        ensures
            exists|answer: Answer|
                {
                    &&& #[trigger] answers(
                        self@.host,
                        *self@.ctx,
                        info.func->Function_0@,
                        info.args@,
                        info.span,
                        answer,
                    )
                    &&& answer_view(r) == answer.result
                    &&& final(report)@ == old(report)@.with(answer.messages)
                },
    {
        assert(self@.host == self.host && self@.ctx == self.ctx);
        self.state.eval_fn(report, self.ctx, info, self.host)
    }
}

/// A result and the messages that came with it.
pub struct Outcome<T> {
    pub result: Result<T, ()>,
    pub messages: Vec<Message>,
}

/// The state after a file was parsed.
pub struct ParseOutcome {
    pub state: State,
    pub result: Result<(), ()>,
    pub messages: Vec<Message>,
}

/// The files that the source may read, and their names.
///
/// Nothing is assumed of what these functions return.
pub trait FileServer: Sized {
    /// The text that the bytes of `bigint` spell.
    fn as_string(&self, bigint: &BigInt) -> String;

    /// The file that `navigated` names inside the file `current`.
    fn filename_navigate(&self, current: &String, navigated: &String, span: Span) -> Outcome<
        String,
    >;

    /// The bytes of a file.
    fn get_bytes(&self, filename: &String, span: Span) -> Outcome<Vec<u8>>;

    /// The characters of a file.
    fn get_chars(&self, filename: &String, span: Span) -> Outcome<Vec<char>>;
}

/// The language that the assembler works with.
///
/// Nothing is assumed of what these functions return.
pub trait Host: FileServer {
    /// Evaluates `expr`, whose local names are those of `eval_ctx`. For other names
    /// and for built-in functions it asks `scope`.
    fn eval(&self, expr: &Expr, eval_ctx: &EvalContext, scope: &Scope<'_, Self>) -> EvalOutcome;

    /// Parses a file into `state`.
    fn parse_file(&self, state: State, filename: &String) -> ParseOutcome;
}

} // verus!
