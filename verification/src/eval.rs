//! Variables and functions, as the expressions of the source see them.
use vstd::prelude::*;

use crate::bigint::{byte_bit, byte_bits, plain_integer, sized_integer, BigInt};
use crate::bits::low_bits;
use crate::bitvec::BitVec;
use crate::diagn::{error, messages, MessageView, Report, Span};
use crate::expr::{
    answer_view, EvalContext, EvalFunctionInfo, EvalOutcome, EvalVariableInfo, Expr, Value,
    ValueView,
};
use crate::host::{FileServer, Host, Outcome, Scope, ScopeView};
use crate::state::{Context, State};
use crate::text::texts;

verus! {

/// What a function call comes to. An error says whether it was reported already.
#[verifier::ext_equal]
pub struct Answer {
    pub result: Result<ValueView, bool>,
    pub messages: Seq<MessageView>,
}

/// Whether the name is that of the current address.
pub open spec fn names_address(level: usize, names: Seq<Seq<char>>) -> bool {
    &&& level == 0
    &&& names.len() == 1
    &&& (names[0] == "$"@ || names[0] == "pc"@)
}

/// Whether there is a built-in function of that name.
pub open spec fn is_function(name: Seq<char>) -> bool {
    ||| name == "assert"@
    ||| name == "incbin"@
    ||| name == "incbinstr"@
    ||| name == "inchexstr"@
}

/// Whether the name is that of a built-in function.
pub open spec fn names_function(level: usize, names: Seq<Seq<char>>) -> bool {
    &&& level == 0
    &&& names.len() == 1
    &&& is_function(names[0])
}

/// An error that was reported with one message.
pub open spec fn failed_answer(text: Seq<char>, span: Span) -> Answer {
    Answer { result: Err(true), messages: seq![error(text, span)] }
}

/// What `assert` comes to.
pub open spec fn assert_answer(args: Seq<ValueView>, span: Span) -> Answer {
    if args.len() != 1 {
        failed_answer("wrong number of arguments"@, span)
    } else {
        match args[0] {
            ValueView::Bool(true) => Answer { result: Ok(ValueView::Void), messages: Seq::empty() },
            ValueView::Bool(false) => failed_answer("assertion failed"@, span),
            _ => failed_answer("wrong argument type"@, span),
        }
    }
}

/// Characters that a file of digits may hold besides the digits: underscores, line
/// ends and white space. What counts as white space is this library's choice: space
/// and tab.
pub open spec fn is_spacing(c: char) -> bool {
    c == ' ' || c == '\t' || c == '_' || c == '\r' || c == '\n'
}

/// The digit that `c` stands for, if it is one of a base of that many bits.
pub open spec fn digit_value(c: char, bits_per_char: nat) -> Option<int> {
    let digit = if '0' <= c <= '9' {
        c as int - '0' as int
    } else if 'a' <= c <= 'f' {
        c as int - 'a' as int + 10
    } else if 'A' <= c <= 'F' {
        c as int - 'A' as int + 10
    } else {
        16
    };
    if digit < vstd::arithmetic::power2::pow2(bits_per_char) && digit < 16 {
        Some(digit)
    } else {
        None
    }
}

/// The bits of the digits in `chars`, unless something else is among them.
pub open spec fn digit_bits(chars: Seq<char>, bits_per_char: nat) -> Option<Seq<bool>>
    decreases chars.len(),
{
    if chars.len() == 0 {
        Some(Seq::empty())
    } else {
        match digit_bits(chars.drop_last(), bits_per_char) {
            None => None,
            Some(bits) => if is_spacing(chars.last()) {
                Some(bits)
            } else {
                match digit_value(chars.last(), bits_per_char) {
                    Some(digit) => Some(bits + low_bits(digit, bits_per_char)),
                    None => None,
                }
            },
        }
    }
}

/// How many bits a digit has in the files that the function reads.
pub open spec fn bits_per_char(function: Seq<char>) -> nat {
    if function == "incbinstr"@ {
        1
    } else {
        4
    }
}

/// What a file of bytes comes to.
pub open spec fn bytes_answer(bytes: Outcome<Vec<u8>>) -> Answer {
    Answer {
        result: match bytes.result {
            Ok(bytes) => Ok(ValueView::Integer(sized_integer(byte_bits(bytes@)))),
            Err(()) => Err(true),
        },
        messages: messages(bytes.messages@),
    }
}

/// What a file of digits comes to.
pub open spec fn chars_answer(
    chars: Outcome<Vec<char>>,
    bits_per_char: nat,
    span: Span,
) -> Answer {
    let reported = messages(chars.messages@);
    match chars.result {
        Ok(chars) => match digit_bits(chars@, bits_per_char) {
            Some(bits) => Answer {
                result: Ok(ValueView::Integer(sized_integer(bits))),
                messages: reported,
            },
            None => Answer {
                result: Err(true),
                messages: reported.push(error("invalid character in file contents"@, span)),
            },
        },
        Err(()) => Answer { result: Err(true), messages: reported },
    }
}

/// Whether a function that reads the file `file` may come to `answer`.
pub open spec fn reads_file<H: FileServer>(
    host: &H,
    function: Seq<char>,
    file: Outcome<String>,
    span: Span,
    answer: Answer,
) -> bool {
    match file.result {
        Err(()) => answer == (Answer { result: Err(true), messages: messages(file.messages@) }),
        Ok(filename) => if function == "incbin"@ {
            exists|bytes: Outcome<Vec<u8>>|
                {
                    &&& #[trigger] call_ensures(H::get_bytes, (host, &filename, span), bytes)
                    &&& answer == after(messages(file.messages@), bytes_answer(bytes))
                }
        } else {
            exists|chars: Outcome<Vec<char>>|
                {
                    &&& #[trigger] call_ensures(H::get_chars, (host, &filename, span), chars)
                    &&& answer == after(
                        messages(file.messages@),
                        chars_answer(chars, bits_per_char(function), span),
                    )
                }
        },
    }
}

/// An answer that further messages precede.
pub open spec fn after(before: Seq<MessageView>, answer: Answer) -> Answer {
    Answer { result: answer.result, messages: before + answer.messages }
}

/// Whether a call of a built-in function may come to `answer`.
pub open spec fn answers<H: FileServer>(
    host: &H,
    ctx: Context,
    function: Seq<char>,
    args: Seq<Value>,
    span: Span,
    answer: Answer,
) -> bool {
    if function == "assert"@ {
        answer == assert_answer(args.map_values(|v: Value| v@), span)
    } else if args.len() == 1 && args[0] is Integer {
        exists|filename: String, file: Outcome<String>|
            {
                &&& call_ensures(H::as_string, (host, &args[0]->Integer_0), filename)
                &&& #[trigger] call_ensures(
                    H::filename_navigate,
                    (host, &*ctx.cur_filename, &filename, span),
                    file,
                )
                &&& reads_file(host, function, file, span, answer)
            }
    } else {
        answer == failed_answer("wrong arguments"@, span)
    }
}

/// The bits of the digits in `chars`, unless something else is among them.
pub fn read_digits(chars: &Vec<char>, bits_per_char: usize) -> (r: Option<BitVec>)
    requires
        bits_per_char == 1 || bits_per_char == 4,
    ensures
        match r {
            Some(bitvec) => {
                &&& digit_bits(chars@, bits_per_char as nat) == Some(bitvec@.bits)
                &&& bitvec@.spans.len() == 0
            },
            None => digit_bits(chars@, bits_per_char as nat) is None,
        },
{
    let mut bitvec = BitVec::new();
    let mut k: usize = 0;
    while k < chars.len()
        invariant
            k <= chars@.len(),
            bits_per_char == 1 || bits_per_char == 4,
            bitvec@.spans.len() == 0,
            digit_bits(chars@.take(k as int), bits_per_char as nat) == Some(bitvec@.bits),
        decreases chars@.len() - k,
    {
        let c = chars[k];
        let ghost before = bitvec@.bits;
        proof {
            assert(chars@.take(k + 1).drop_last() =~= chars@.take(k as int));
        }
        k += 1;
        if c == ' ' || c == '\t' || c == '_' || c == '\r' || c == '\n' {
            continue ;
        }
        let digit = match digit_of(c, bits_per_char) {
            Some(digit) => digit,
            None => {
                proof {
                    lemma_no_digits(chars@, k as int, bits_per_char as nat);
                }
                return None;
            },
        };
        let ghost all = low_bits(digit as int, bits_per_char as nat);
        let mut i: usize = 0;
        while i < bits_per_char
            invariant
                i <= bits_per_char,
                bits_per_char <= 4,
                all == low_bits(digit as int, bits_per_char as nat),
                bitvec@.spans.len() == 0,
                bitvec@.bits =~= before + all.take(i as int),
            decreases bits_per_char - i,
        {
            bitvec.bits.push(byte_bit(digit, bits_per_char - 1 - i));
            i += 1;
        }
        assert(all.take(bits_per_char as int) =~= all);
    }
    assert(chars@.take(k as int) =~= chars@);
    Some(bitvec)
}

/// The digit that `c` stands for, if it is one of a base of that many bits.
fn digit_of(c: char, bits_per_char: usize) -> (r: Option<u8>)
    requires
        bits_per_char == 1 || bits_per_char == 4,
    ensures
        match r {
            Some(digit) => digit_value(c, bits_per_char as nat) == Some(digit as int),
            None => digit_value(c, bits_per_char as nat) is None,
        },
{
    proof {
        vstd::arithmetic::power2::lemma2_to64();
    }
    let base: u32 = if bits_per_char == 1 {
        2
    } else {
        16
    };
    let digit: u32 = if '0' <= c && c <= '9' {
        c as u32 - '0' as u32
    } else if 'a' <= c && c <= 'f' {
        c as u32 - 'a' as u32 + 10
    } else if 'A' <= c && c <= 'F' {
        c as u32 - 'A' as u32 + 10
    } else {
        16
    };
    if digit < base {
        Some(digit as u8)
    } else {
        None
    }
}

/// Where a first part of the characters holds no digits only, all of them do not.
proof fn lemma_no_digits(chars: Seq<char>, n: int, bits_per_char: nat)
    requires
        0 <= n <= chars.len(),
        digit_bits(chars.take(n), bits_per_char) is None,
    ensures
        digit_bits(chars, bits_per_char) is None,
    decreases chars.len(),
{
    if n == chars.len() {
        assert(chars.take(n) =~= chars);
    } else {
        assert(chars.drop_last().take(n) =~= chars.take(n));
        lemma_no_digits(chars.drop_last(), n, bits_per_char);
    }
}

impl State {
    /// What a variable stands for at `ctx`. An error says whether it was reported
    /// already. Before the final pass, a symbol that is not defined yet has the
    /// value that it had in the pass before, and is zero in the first pass.
    pub open spec fn variable(
        self,
        ctx: Context,
        level: usize,
        names: Seq<Seq<char>>,
        final_pass: bool,
    ) -> Result<ValueView, bool> {
        if names_address(level, names) {
            if self.excess_bits(ctx) != 0 {
                Err(true)
            } else {
                Ok(ValueView::Integer(self.addr_of(ctx)))
            }
        } else if names_function(level, names) {
            Ok(ValueView::Function(names[0]))
        } else {
            match self.symbols.lookup(ctx.symbol_ctx@, level, names) {
                Some(value) => Ok(value),
                None => if final_pass {
                    Err(false)
                } else {
                    match self.symbol_guesses.lookup(ctx.symbol_ctx@, level, names) {
                        Some(value) => Ok(value),
                        None => if self.is_first_pass {
                            Ok(ValueView::Integer(plain_integer(0)))
                        } else {
                            Err(false)
                        },
                    }
                },
            }
        }
    }

    /// The messages that reading a variable gives.
    pub open spec fn variable_messages(
        self,
        ctx: Context,
        level: usize,
        names: Seq<Seq<char>>,
        span: Span,
    ) -> Seq<MessageView> {
        if names_address(level, names) && self.excess_bits(ctx) != 0 {
            seq![self.unaligned_error(ctx, span)]
        } else {
            Seq::empty()
        }
    }

    /// Has the host evaluate an expression at `ctx`.
    pub fn eval_expr<H: Host>(
        &self,
        report: &mut Report,
        expr: &Expr,
        ctx: &Context,
        eval_ctx: &mut EvalContext,
        host: &H,
        final_pass: bool,
    ) -> (r: Result<Value, ()>)
        ensures
            exists|scope: Scope<'_, H>, outcome: EvalOutcome|
                {
                    &&& scope@ == (ScopeView { state: self, ctx, host, final_pass })
                    &&& #[trigger] call_ensures(
                        H::eval,
                        (host, expr, old(eval_ctx), &scope),
                        outcome,
                    )
                    &&& r == outcome.result
                    &&& *final(eval_ctx) == outcome.locals
                    &&& final(report)@ == old(report)@.with(outcome@.messages)
                },
    {
        let scope = Scope::new(self, ctx, host, final_pass);
        let outcome = host.eval(expr, &*eval_ctx, &scope);
        let ghost all = outcome;
        let EvalOutcome { result, locals, messages } = outcome;
        *eval_ctx = locals;
        report.absorb(messages);
        assert(call_ensures(H::eval, (host, expr, old(eval_ctx), &scope), all));
        result
    }

    /// What a variable stands for at `ctx`.
    pub fn eval_var(
        &self,
        report: &mut Report,
        ctx: &Context,
        info: &EvalVariableInfo,
        final_pass: bool,
    ) -> (r: Result<Value, bool>)
        requires
            names_address(info.hierarchy_level, texts(info.hierarchy@)) ==> self.has_place(*ctx),
        ensures
            answer_view(r) == self.variable(
                *ctx,
                info.hierarchy_level,
                texts(info.hierarchy@),
                final_pass,
            ),
            final(report)@ == old(report)@.with(
                self.variable_messages(
                    *ctx,
                    info.hierarchy_level,
                    texts(info.hierarchy@),
                    info.span,
                ),
            ),
    {
        proof {
            crate::diagn::lemma_with_nothing(report@);
        }
        if info.hierarchy_level == 0 && info.hierarchy.len() == 1 {
            let name = &info.hierarchy[0];
            assert(texts(info.hierarchy@)[0] == name@);
            if *name == "$".to_owned() || *name == "pc".to_owned() {
                return match self.get_addr(report, ctx, info.span) {
                    Err(()) => Err(true),
                    Ok(addr) => Ok(Value::make_integer(addr)),
                };
            }
            if *name == "assert".to_owned() || *name == "incbin".to_owned() || *name
                == "incbinstr".to_owned() || *name == "inchexstr".to_owned() {
                return Ok(Value::Function(name.clone()));
            }
        }
        if let Some(symbol) = self.symbols.get(
            &ctx.symbol_ctx,
            info.hierarchy_level,
            &info.hierarchy,
        ) {
            Ok(symbol.value.clone())
        } else if !final_pass {
            if let Some(symbol) = self.symbol_guesses.get(
                &ctx.symbol_ctx,
                info.hierarchy_level,
                &info.hierarchy,
            ) {
                Ok(symbol.value.clone())
            } else if self.is_first_pass {
                Ok(Value::make_integer(BigInt::from_usize(0)))
            } else {
                Err(false)
            }
        } else {
            Err(false)
        }
    }

    /// Calls a built-in function.
    pub fn eval_fn<H: FileServer>(
        &self,
        report: &mut Report,
        ctx: &Context,
        info: &EvalFunctionInfo,
        host: &H,
    ) -> (r: Result<Value, bool>)
        requires
            info.func matches Value::Function(name) && is_function(name@),
        ensures
            exists|answer: Answer|
                {
                    &&& #[trigger] answers(
                        host,
                        *ctx,
                        info.func->Function_0@,
                        info.args@,
                        info.span,
                        answer,
                    )
                    &&& answer_view(r) == answer.result
                    &&& final(report)@ == old(report)@.with(answer.messages)
                },
    {
        let name = match &info.func {
            Value::Function(name) => name,
            _ => vstd::pervasive::unreached(),
        };
        if *name == "assert".to_owned() {
            let ghost answer = assert_answer(info.args@.map_values(|v: Value| v@), info.span);
            assert(answers(host, *ctx, name@, info.args@, info.span, answer));
            State::eval_assert(report, &info.args, info.span)
        } else {
            self.eval_read(report, ctx, name, &info.args, info.span, host)
        }
    }

    /// Calls `assert`.
    pub fn eval_assert(report: &mut Report, args: &Vec<Value>, span: Span) -> (r: Result<
        Value,
        bool,
    >)
        ensures
            answer_view(r) == assert_answer(args@.map_values(|v: Value| v@), span).result,
            final(report)@ == old(report)@.with(
                assert_answer(args@.map_values(|v: Value| v@), span).messages,
            ),
    {
        proof {
            crate::diagn::lemma_with_nothing(report@);
        }
        if args.len() != 1 {
            report.error_span("wrong number of arguments", span);
            return Err(true);
        }
        assert(args@.map_values(|v: Value| v@)[0] == args@[0]@);
        match &args[0] {
            Value::Bool(value) => match *value {
                true => Ok(Value::Void),
                false => {
                    report.error_span("assertion failed", span);
                    Err(true)
                },
            },
            _ => {
                report.error_span("wrong argument type", span);
                Err(true)
            },
        }
    }

    /// Calls a function that reads a file.
    fn eval_read<H: FileServer>(
        &self,
        report: &mut Report,
        ctx: &Context,
        name: &String,
        args: &Vec<Value>,
        span: Span,
        host: &H,
    ) -> (r: Result<Value, bool>)
        requires
            name@ != "assert"@,
        ensures
            exists|answer: Answer|
                {
                    &&& #[trigger] answers(host, *ctx, name@, args@, span, answer)
                    &&& answer_view(r) == answer.result
                    &&& final(report)@ == old(report)@.with(answer.messages)
                },
    {
        if args.len() == 1 {
            if let Value::Integer(bigint) = &args[0] {
                let filename = host.as_string(bigint);
                let file = host.filename_navigate(&*ctx.cur_filename, &filename, span);
                let ghost all = file;
                let Outcome { result, messages } = file;
                let ghost reported = crate::diagn::messages(messages@);
                report.absorb(messages);
                let new_filename = match result {
                    Err(()) => {
                        assert(answers(
                            host,
                            *ctx,
                            name@,
                            args@,
                            span,
                            Answer { result: Err(true), messages: reported },
                        ));
                        return Err(true);
                    },
                    Ok(new_filename) => new_filename,
                };
                if *name == "incbin".to_owned() {
                    let outcome = host.get_bytes(&new_filename, span);
                    let ghost answer = after(reported, bytes_answer(outcome));
                    proof {
                        assert(reads_file(host, name@, all, span, answer));
                        assert(answers(host, *ctx, name@, args@, span, answer));
                        crate::diagn::lemma_with_with(
                            old(report)@,
                            reported,
                            bytes_answer(outcome).messages,
                        );
                    }
                    return State::file_bytes(report, outcome);
                } else {
                    let outcome = host.get_chars(&new_filename, span);
                    let bits_per_char = if *name == "incbinstr".to_owned() {
                        1
                    } else {
                        4
                    };
                    let ghost given = chars_answer(outcome, bits_per_char as nat, span);
                    let ghost answer = after(reported, given);
                    proof {
                        assert(reads_file(host, name@, all, span, answer));
                        assert(answers(host, *ctx, name@, args@, span, answer));
                        crate::diagn::lemma_with_with(old(report)@, reported, given.messages);
                    }
                    return State::file_digits(report, outcome, bits_per_char, span);
                }
            }
        }
        report.error_span("wrong arguments", span);
        assert(answers(host, *ctx, name@, args@, span, failed_answer("wrong arguments"@, span)));
        Err(true)
    }

    /// The number that the bytes of a file spell.
    pub fn file_bytes(report: &mut Report, bytes: Outcome<Vec<u8>>) -> (r: Result<Value, bool>)
        ensures
            answer_view(r) == bytes_answer(bytes).result,
            final(report)@ == old(report)@.with(bytes_answer(bytes).messages),
    {
        report.absorb(bytes.messages);
        match bytes.result {
            Ok(bytes) => Ok(Value::make_integer(BigInt::from_bytes_be(&bytes))),
            Err(()) => Err(true),
        }
    }

    /// The number that the digits in a file spell.
    pub fn file_digits(
        report: &mut Report,
        chars: Outcome<Vec<char>>,
        bits_per_char: usize,
        span: Span,
    ) -> (r: Result<Value, bool>)
        requires
            bits_per_char == 1 || bits_per_char == 4,
        ensures
            answer_view(r) == chars_answer(chars, bits_per_char as nat, span).result,
            final(report)@ == old(report)@.with(
                chars_answer(chars, bits_per_char as nat, span).messages,
            ),
    {
        let ghost reported = messages(chars.messages@);
        report.absorb(chars.messages);
        match chars.result {
            Ok(chars) => match read_digits(&chars, bits_per_char) {
                Some(bitvec) => Ok(Value::make_integer(bitvec.as_bigint())),
                None => {
                    report.error_span("invalid character in file contents", span);
                    proof {
                        let last = error("invalid character in file contents"@, span);
                        crate::diagn::lemma_with_with(old(report)@, reported, seq![last]);
                        assert(reported + seq![last] =~= reported.push(last));
                    }
                    Err(true)
                },
            },
            Err(()) => Err(true),
        }
    }
}

} // verus!
