//! Expressions, their values, and what an evaluator asks of the assembler.
use vstd::prelude::*;

use crate::bigint::{BigInt, IntegerView};
use crate::diagn::{messages, Message, MessageView, Span};

verus! {

/// An expression of the source. The host that parsed it knows it by its number.
#[derive(Copy, Clone, Debug, PartialEq, Eq)]
pub struct Expr {
    pub id: usize,
    pub span: Span,
}

impl Expr {
    /// Where the expression stands.
    pub fn span(&self) -> (r: Span)
        ensures
            r == self.span,
    {
        self.span
    }
}

/// The value of an expression.
#[derive(Debug)]
pub enum Value {
    Void,
    Bool(bool),
    Integer(BigInt),
    /// A built-in function, by its name.
    Function(String),
}

pub enum ValueView {
    Void,
    Bool(bool),
    Integer(IntegerView),
    Function(Seq<char>),
}

impl View for Value {
    type V = ValueView;

    open spec fn view(&self) -> ValueView {
        match self {
            Value::Void => ValueView::Void,
            Value::Bool(b) => ValueView::Bool(*b),
            Value::Integer(n) => ValueView::Integer(n@),
            Value::Function(name) => ValueView::Function(name@),
        }
    }
}

impl Clone for Value {
    fn clone(&self) -> (r: Value)
        ensures
            r@ == self@,
    {
        match self {
            Value::Void => Value::Void,
            Value::Bool(b) => Value::Bool(*b),
            Value::Integer(n) => Value::Integer(n.clone()),
            Value::Function(name) => Value::Function(name.clone()),
        }
    }
}

impl Value {
    /// The integer `bigint` as a value.
    pub fn make_integer(bigint: BigInt) -> (r: Value)
        ensures
            r == Value::Integer(bigint),
            r@ == ValueView::Integer(bigint@),
    {
        Value::Integer(bigint)
    }
}

/// What a computation of a value comes to.
pub open spec fn result_view(result: Result<Value, ()>) -> Result<ValueView, ()> {
    match result {
        Ok(value) => Ok(value@),
        Err(e) => Err(e),
    }
}

/// The same, where an error says whether it was reported already.
pub open spec fn answer_view(answer: Result<Value, bool>) -> Result<ValueView, bool> {
    match answer {
        Ok(value) => Ok(value@),
        Err(reported) => Err(reported),
    }
}

/// A name that stands for a value inside one expression.
#[derive(Debug)]
pub struct Local {
    pub name: String,
    pub value: Value,
}

/// The names that an expression may use besides the symbols.
#[derive(Debug)]
pub struct EvalContext {
    /// The last entry of a name is the one that counts.
    pub locals: Vec<Local>,
}

/// What the names of `locals` stand for. A later entry goes before an earlier one.
pub open spec fn locals_map(locals: Seq<Local>) -> Map<Seq<char>, ValueView>
    decreases locals.len(),
{
    if locals.len() == 0 {
        Map::empty()
    } else {
        locals_map(locals.drop_last()).insert(locals.last().name@, locals.last().value@)
    }
}

impl View for EvalContext {
    type V = Map<Seq<char>, ValueView>;

    open spec fn view(&self) -> Map<Seq<char>, ValueView> {
        locals_map(self.locals@)
    }
}

impl EvalContext {
    /// No names.
    pub fn new() -> (r: EvalContext)
        ensures
            r@ == Map::<Seq<char>, ValueView>::empty(),
    {
        EvalContext { locals: Vec::new() }
    }

    /// Lets `name` stand for `value` from now on.
    pub fn set_local(&mut self, name: &String, value: Value)
        ensures
            final(self)@ == old(self)@.insert(name@, value@),
    {
        let local = Local { name: name.clone(), value };
        self.locals.push(local);
        assert(self.locals@.drop_last() =~= old(self).locals@);
    }

    /// What `name` stands for.
    pub fn get_local(&self, name: &String) -> (r: Option<&Value>)
        ensures
            match r {
                Some(value) => self@.contains_key(name@) && value@ == self@[name@],
                None => !self@.contains_key(name@),
            },
    {
        let mut i: usize = self.locals.len();
        assert(self.locals@.take(i as int) =~= self.locals@);
        while i > 0
            invariant
                i <= self.locals@.len(),
                self@.contains_key(name@) == locals_map(self.locals@.take(i as int)).contains_key(
                    name@,
                ),
                self@.contains_key(name@) ==> self@[name@] == locals_map(
                    self.locals@.take(i as int),
                )[name@],
            decreases i,
        {
            let ghost here = self.locals@.take(i as int);
            i -= 1;
            assert(here.drop_last() =~= self.locals@.take(i as int));
            if self.locals[i].name == *name {
                return Some(&self.locals[i].value);
            }
        }
        None
    }
}

/// The value of an expression and the messages that finding it gave.
pub struct EvalOutcome {
    pub result: Result<Value, ()>,
    /// The names after the evaluation.
    pub locals: EvalContext,
    pub messages: Vec<Message>,
}

/// A result and the messages that came with it.
#[verifier::ext_equal]
pub struct Resolution {
    pub result: Result<ValueView, ()>,
    pub messages: Seq<MessageView>,
}

impl View for EvalOutcome {
    type V = Resolution;

    open spec fn view(&self) -> Resolution {
        Resolution { result: result_view(self.result), messages: messages(self.messages@) }
    }
}

/// A variable that an expression reads.
#[derive(Debug)]
pub struct EvalVariableInfo {
    /// How many names of the current context precede the hierarchy.
    pub hierarchy_level: usize,
    pub hierarchy: Vec<String>,
    pub span: Span,
}

/// A function that an expression calls.
#[derive(Debug)]
pub struct EvalFunctionInfo {
    pub func: Value,
    pub args: Vec<Value>,
    pub span: Span,
}

} // verus!
