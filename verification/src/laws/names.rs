//! What names stand for, and what functions come to.
use vstd::prelude::*;

use crate::bigint::BigInt;
use crate::bits::unsigned_value;
use crate::diagn::{messages, Span};
use crate::eval::{answers, digit_bits, Answer};
use crate::expr::{
    locals_map, EvalContext, EvalOutcome, Expr, Local, Resolution, Value, ValueView,
};
use crate::host::{FileServer, Host, Outcome, Scope, ScopeView};
use crate::laws::sizes::is_plain_message;
use crate::resolve::evaluates;
use crate::state::{Context, State};
use crate::symbol::SymbolManager;
use crate::text::{decimal, texts};

verus! {

/// Whether the name is one that the language reserves.
pub open spec fn is_reserved(level: usize, names: Seq<Seq<char>>) -> bool {
    &&& level == 0
    &&& names.len() == 1
    &&& is_address_name(names[0]) || is_function_name(names[0])
}

/// Whether the name is that of the current address.
pub open spec fn is_address_name(name: Seq<char>) -> bool {
    name == "$"@ || name == "pc"@
}

/// Whether the name is that of a built-in function.
pub open spec fn is_function_name(name: Seq<char>) -> bool {
    name == "assert"@ || name == "incbin"@ || name == "incbinstr"@ || name == "inchexstr"@
}

/// Whether symbol `i` is the one that the name stands for, `level` labels of the context
/// deep: no earlier one has the same full name.
pub open spec fn is_meant(
    manager: SymbolManager,
    ctx: Context,
    level: usize,
    names: Seq<Seq<char>>,
    i: int,
) -> bool {
    &&& level <= ctx.symbol_ctx.hierarchy@.len()
    &&& 0 <= i < manager.symbols@.len()
    &&& has_full_name(manager.symbols@[i].hierarchy@, ctx, level, names)
    &&& forall|j: int|
        0 <= j < i ==> !has_full_name(
            #[trigger] manager.symbols@[j].hierarchy@,
            ctx,
            level,
            names,
        )
}

/// Whether a symbol is called by the first `level` labels of the context and then by the
/// names, one for one.
pub open spec fn has_full_name(
    hierarchy: Seq<String>,
    ctx: Context,
    level: usize,
    names: Seq<Seq<char>>,
) -> bool {
    &&& hierarchy.len() == level + names.len()
    &&& forall|k: int|
        0 <= k < level ==> (#[trigger] hierarchy[k])@ == ctx.symbol_ctx.hierarchy@[k]@
    &&& forall|k: int| 0 <= k < names.len() ==> hierarchy[level + k]@ == #[trigger] names[k]
}

/// Whether the name stands for no symbol.
pub open spec fn means_nothing(
    manager: SymbolManager,
    ctx: Context,
    level: usize,
    names: Seq<Seq<char>>,
) -> bool {
    level > ctx.symbol_ctx.hierarchy@.len() || forall|j: int|
        0 <= j < manager.symbols@.len() ==> !has_full_name(
            #[trigger] manager.symbols@[j].hierarchy@,
            ctx,
            level,
            names,
        )
}

/// A symbol has a full name just when its texts are those of the name.
proof fn lemma_full_name(hierarchy: Seq<String>, ctx: Context, level: usize, names: Seq<Seq<char>>)
    requires
        level <= ctx.symbol_ctx.hierarchy@.len(),
    ensures
        has_full_name(hierarchy, ctx, level, names) == (texts(hierarchy)
            == crate::symbol::full_name(ctx.symbol_ctx@, level, names)),
{
    let full = crate::symbol::full_name(ctx.symbol_ctx@, level, names);
    assert(full.len() == level + names.len());
    if has_full_name(hierarchy, ctx, level, names) {
        assert forall|k: int| 0 <= k < full.len() implies texts(hierarchy)[k] == full[k] by {
            assert(texts(hierarchy)[k] == hierarchy[k]@);
            if k < level {
                assert(full[k] == ctx.symbol_ctx.hierarchy@[k]@);
            } else {
                assert(full[k] == names[k - level]);
                assert(hierarchy[level + (k - level)]@ == names[k - level]);
            }
        }
        assert(texts(hierarchy) =~= full);
    }
    if texts(hierarchy) == full {
        assert(texts(hierarchy).len() == hierarchy.len());
        assert forall|k: int| 0 <= k < level implies (#[trigger] hierarchy[k])@
            == ctx.symbol_ctx.hierarchy@[k]@ by {
            assert(texts(hierarchy)[k] == hierarchy[k]@);
            assert(full[k] == ctx.symbol_ctx.hierarchy@[k]@);
        }
        assert forall|k: int| 0 <= k < names.len() implies hierarchy[level + k]@
            == #[trigger] names[k] by {
            assert(texts(hierarchy)[level + k] == hierarchy[level + k]@);
            assert(full[level + k] == names[k]);
        }
    }
}

/// What looking up a name gives is the value of the first symbol of that name.
proof fn lemma_lookup(manager: SymbolManager, ctx: Context, level: usize, names: Seq<Seq<char>>)
    ensures
        forall|i: int| #[trigger]
            is_meant(manager, ctx, level, names, i) ==> manager.lookup(
                ctx.symbol_ctx@,
                level,
                names,
            ) == Some(manager.symbols@[i].value@),
        means_nothing(manager, ctx, level, names) ==> manager.lookup(
            ctx.symbol_ctx@,
            level,
            names,
        ) is None,
{
    let name = crate::symbol::full_name(ctx.symbol_ctx@, level, names);
    assert(ctx.symbol_ctx@.len() == ctx.symbol_ctx.hierarchy@.len());
    if level <= ctx.symbol_ctx.hierarchy@.len() {
        assert forall|j: int| 0 <= j < manager.symbols@.len() implies has_full_name(
            #[trigger] manager.symbols@[j].hierarchy@,
            ctx,
            level,
            names,
        ) == (texts(manager.symbols@[j].hierarchy@) == name) by {
            lemma_full_name(manager.symbols@[j].hierarchy@, ctx, level, names);
        }
        assert forall|i: int| #[trigger]
            is_meant(manager, ctx, level, names, i) implies manager.lookup(
            ctx.symbol_ctx@,
            level,
            names,
        ) == Some(manager.symbols@[i].value@) by {
            assert(manager.is_first(name, i));
            let k = choose|k: int| manager.is_first(name, k);
            assert(manager.is_first(name, k));
            if k < i {
                assert(!has_full_name(manager.symbols@[k].hierarchy@, ctx, level, names));
            }
            if i < k {
                assert(texts(manager.symbols@[i].hierarchy@) != name);
            }
        }
        if means_nothing(manager, ctx, level, names) && manager.defines(name) {
            let k = choose|k: int| manager.is_first(name, k);
            assert(manager.is_first(name, k));
            assert(!has_full_name(manager.symbols@[k].hierarchy@, ctx, level, names));
        }
    }
}

/// A name of a symbol that is defined stands for the value of that symbol, just as it
/// is, size included, in every pass.
pub proof fn law_symbol_gives_its_own_value(
    state: State,
    ctx: Context,
    level: usize,
    names: Seq<Seq<char>>,
    final_pass: bool,
    i: int,
)
    requires
        !is_reserved(level, names),
        is_meant(state.symbols, ctx, level, names, i),
    ensures
        state.variable(ctx, level, names, final_pass) == Ok::<ValueView, bool>(
            state.symbols.symbols@[i].value@,
        ),
{
    lemma_lookup(state.symbols, ctx, level, names);
}

/// A name that is not defined stands for nothing in the final pass. Before that it has the
/// value that it had in the pass before, or else is zero in the first pass.
pub proof fn law_undefined_name_is_guessed(
    state: State,
    ctx: Context,
    level: usize,
    names: Seq<Seq<char>>,
    i: int,
)
    requires
        !is_reserved(level, names),
        means_nothing(state.symbols, ctx, level, names),
    ensures
        state.variable(ctx, level, names, true) == Err::<ValueView, bool>(false),
        is_meant(state.symbol_guesses, ctx, level, names, i) ==> state.variable(
            ctx,
            level,
            names,
            false,
        ) == Ok::<ValueView, bool>(state.symbol_guesses.symbols@[i].value@),
        means_nothing(state.symbol_guesses, ctx, level, names) && !state.is_first_pass
            ==> state.variable(ctx, level, names, false) == Err::<ValueView, bool>(false),
        means_nothing(state.symbol_guesses, ctx, level, names) && state.is_first_pass ==> {
            &&& state.variable(ctx, level, names, false) matches Ok(ValueView::Integer(n))
            &&& n.value == 0
            &&& n.size is None
        },
{
    lemma_lookup(state.symbols, ctx, level, names);
    lemma_lookup(state.symbol_guesses, ctx, level, names);
}

/// The name of the address stands for the number of words before the position, from the
/// first address of the bank on, without a size. Between two addresses it is an error
/// that was reported.
pub proof fn law_address_is_the_number_of_words(
    state: State,
    ctx: Context,
    names: Seq<Seq<char>>,
    final_pass: bool,
)
    requires
        names.len() == 1,
        is_address_name(names[0]),
        ctx.bank_ref.index < state.banks@.len(),
        ctx.cur_wordsize > 0,
    ensures
        forall|words: int|
            ctx.bit_offset == #[trigger] (words * ctx.cur_wordsize) ==> {
                &&& state.variable(ctx, 0, names, final_pass) matches Ok(ValueView::Integer(n))
                &&& n.value == words + state.banks@[ctx.bank_ref.index as int].addr_start@.value
                &&& n.size is None
            },
        (forall|words: int| ctx.bit_offset != #[trigger] (words * ctx.cur_wordsize))
            ==> state.variable(ctx, 0, names, final_pass) == Err::<ValueView, bool>(true),
{
    let w = ctx.cur_wordsize as int;
    let o = ctx.bit_offset as int;
    vstd::arithmetic::div_mod::lemma_fundamental_div_mod(o, w);
    assert forall|words: int| o == #[trigger] (words * ctx.cur_wordsize) implies o % w == 0 && o / w
        == words by {
        vstd::arithmetic::div_mod::lemma_fundamental_div_mod_converse(o, w, words, 0);
    }
    if o % w == 0 {
        assert((o / w) * w == o) by (nonlinear_arith)
            requires
                o == w * (o / w) + o % w,
                o % w == 0,
        ;
    }
}

/// The address of any position is that of the word it lies in.
pub proof fn law_approximate_address_is_that_of_the_word(state: State, ctx: Context)
    requires
        ctx.bank_ref.index < state.banks@.len(),
        ctx.cur_wordsize > 0,
    ensures
        ({
            let words = state.addr_of(ctx).value - state.banks@[ctx.bank_ref.index as int].addr_start@.value;
            &&& words * ctx.cur_wordsize <= ctx.bit_offset < (words + 1) * ctx.cur_wordsize
            &&& state.addr_of(ctx).size is None
        }),
{
    let w = ctx.cur_wordsize as int;
    let o = ctx.bit_offset as int;
    vstd::arithmetic::div_mod::lemma_fundamental_div_mod(o, w);
    let q = o / w;
    let r = o % w;
    assert(q * w <= o < (q + 1) * w) by (nonlinear_arith)
        requires
            o == w * q + r,
            0 <= r < w,
    ;
}

/// The message on a position between two addresses says how many bits the next address
/// is away. No other variable gives a message.
pub proof fn law_unaligned_message_counts_to_the_next_address(
    state: State,
    ctx: Context,
    level: usize,
    names: Seq<Seq<char>>,
    span: Span,
    words: int,
    short: int,
)
    requires
        ctx.cur_wordsize > 0,
        ctx.bit_offset + short == words * ctx.cur_wordsize,
        0 <= short < ctx.cur_wordsize,
    ensures
        ({
            let all = state.variable_messages(ctx, level, names, span);
            if level == 0 && names.len() == 1 && is_address_name(names[0]) && short > 0 {
                &&& all.len() == 1
                &&& is_plain_message(
                    all[0],
                    "position is not aligned to an address boundary ("@ + decimal(short as nat)
                        + " "@ + (if short > 1 {
                        "bits"@
                    } else {
                        "bit"@
                    }) + " short)"@,
                    span,
                )
            } else {
                all.len() == 0
            }
        }),
{
    let w = ctx.cur_wordsize as int;
    let o = ctx.bit_offset as int;
    if short > 0 {
        assert(o == (words - 1) * w + (w - short)) by (nonlinear_arith)
            requires
                o + short == words * w,
        ;
        vstd::arithmetic::div_mod::lemma_fundamental_div_mod_converse(o, w, words - 1, w - short);
    } else {
        vstd::arithmetic::div_mod::lemma_fundamental_div_mod_converse(o, w, words, 0);
    }
}

/// The name of a built-in function stands for the function.
pub proof fn law_function_name_is_the_function(
    state: State,
    ctx: Context,
    names: Seq<Seq<char>>,
    final_pass: bool,
)
    requires
        names.len() == 1,
        is_function_name(names[0]),
    ensures
        state.variable(ctx, 0, names, final_pass) == Ok::<ValueView, bool>(
            ValueView::Function(names[0]),
        ),
{
    reveal_strlit("$");
    reveal_strlit("pc");
    reveal_strlit("assert");
    reveal_strlit("incbin");
    reveal_strlit("incbinstr");
    reveal_strlit("inchexstr");
    assert("$"@.len() == 1 && "pc"@.len() == 2);
    assert(names[0].len() > 2);
}

/// Whether entry `i` is the last one of that name.
pub open spec fn is_last_entry(locals: Seq<Local>, name: Seq<char>, i: int) -> bool {
    &&& 0 <= i < locals.len()
    &&& locals[i].name@ == name
    &&& forall|j: int| i < j < locals.len() ==> (#[trigger] locals[j]).name@ != name
}

/// A local name stands for the last value that was given to it, and a name that was
/// given none stands for nothing.
pub proof fn law_last_value_of_a_local_counts(locals: Seq<Local>, name: Seq<char>, i: int)
    ensures
        is_last_entry(locals, name, i) ==> locals_map(locals).contains_key(name) && locals_map(
            locals,
        )[name] == locals[i].value@,
        (forall|j: int| 0 <= j < locals.len() ==> (#[trigger] locals[j]).name@ != name)
            ==> !locals_map(locals).contains_key(name),
    decreases locals.len(),
{
    if locals.len() > 0 {
        let front = locals.drop_last();
        let k = locals.len() - 1;
        law_last_value_of_a_local_counts(front, name, i);
        if is_last_entry(locals, name, i) && i < k {
            assert(locals[k].name@ != name);
            assert(is_last_entry(front, name, i)) by {
                assert forall|j: int| i < j < front.len() implies (#[trigger] front[j]).name@
                    != name by {
                    assert(front[j] == locals[j]);
                }
            }
        }
        if forall|j: int| 0 <= j < locals.len() ==> (#[trigger] locals[j]).name@ != name {
            assert forall|j: int| 0 <= j < front.len() implies (#[trigger] front[j]).name@
                != name by {
                assert(front[j] == locals[j]);
            }
            assert(locals[k].name@ != name);
        }
    }
}

/// An expression comes to what the host says, when it is asked with just these local
/// names and in just this scope: the value or its absence, and all messages.
pub proof fn law_expression_is_left_to_the_host<H: Host>(
    scope: ScopeView<'_, H>,
    expr: Expr,
    locals: Map<Seq<char>, ValueView>,
    r: Resolution,
)
    requires
        evaluates(scope, expr, locals, r),
    ensures
        exists|eval_ctx: EvalContext, seen: Scope<'_, H>, outcome: EvalOutcome|
            {
                &&& #[trigger] call_ensures(
                    H::eval,
                    (scope.host, &expr, &eval_ctx, &seen),
                    outcome,
                )
                &&& seen@ == scope
                &&& locals_map(eval_ctx.locals@) == locals
                &&& match outcome.result {
                    Ok(value) => r.result == Ok::<ValueView, ()>(value@),
                    Err(_) => r.result is Err,
                }
                &&& r.messages == messages(outcome.messages@)
            },
{
    let (eval_ctx, seen, outcome) = choose|
        eval_ctx: EvalContext,
        seen: Scope<'_, H>,
        outcome: EvalOutcome,
    |
        {
            &&& eval_ctx@ == locals
            &&& seen@ == scope
            &&& #[trigger] call_ensures(H::eval, (scope.host, &expr, &eval_ctx, &seen), outcome)
            &&& r == outcome@
        };
    assert(call_ensures(H::eval, (scope.host, &expr, &eval_ctx, &seen), outcome));
}

/// `assert` accepts the one argument `true` in silence. Whatever else it gets is an error
/// with one message at the place of the call, which says what is wrong with it.
pub proof fn law_assert_accepts_true_only<H: FileServer>(
    host: &H,
    ctx: Context,
    args: Seq<Value>,
    span: Span,
    answer: Answer,
)
    requires
        answers(host, ctx, "assert"@, args, span, answer),
    ensures
        args.len() == 1 && args[0] == Value::Bool(true) ==> {
            &&& answer.result == Ok::<ValueView, bool>(ValueView::Void)
            &&& answer.messages.len() == 0
        },
        !(args.len() == 1 && args[0] == Value::Bool(true)) ==> {
            &&& answer.result == Err::<ValueView, bool>(true)
            &&& answer.messages.len() == 1
            &&& is_plain_message(
                answer.messages[0],
                if args.len() != 1 {
                    "wrong number of arguments"@
                } else if args[0] is Bool {
                    "assertion failed"@
                } else {
                    "wrong argument type"@
                },
                span,
            )
        },
{
    if args.len() == 1 {
        assert(args.map_values(|v: Value| v@)[0] == args[0]@);
    }
}

/// A function that reads files wants one number for an argument; whatever else it gets
/// is an error with one message.
pub proof fn law_file_functions_want_one_number<H: FileServer>(
    host: &H,
    ctx: Context,
    function: Seq<char>,
    args: Seq<Value>,
    span: Span,
    answer: Answer,
)
    requires
        answers(host, ctx, function, args, span, answer),
        is_function_name(function),
        function != "assert"@,
        !(args.len() == 1 && args[0] is Integer),
    ensures
        answer.result == Err::<ValueView, bool>(true),
        answer.messages.len() == 1,
        is_plain_message(answer.messages[0], "wrong arguments"@, span),
{
}

/// The file that a call names, as the host finds it from the current file.
pub open spec fn finds_file<H: FileServer>(
    host: &H,
    ctx: Context,
    bigint: BigInt,
    span: Span,
    filename: String,
    file: Outcome<String>,
) -> bool {
    &&& call_ensures(H::as_string, (host, &bigint), filename)
    &&& call_ensures(
        H::filename_navigate,
        (host, &*ctx.cur_filename, &filename, span),
        file,
    )
}

/// `incbin` gives all the bytes of the file that it names, as a number that is eight bits
/// long for each of them. Where the file cannot be named or read it is an error that the
/// host reported. All messages of the host are handed on, in order.
pub proof fn law_incbin_gives_all_bytes<H: FileServer>(
    host: &H,
    ctx: Context,
    bigint: BigInt,
    args: Seq<Value>,
    span: Span,
    answer: Answer,
)
    requires
        answers(host, ctx, "incbin"@, args, span, answer),
        args.len() == 1,
        args[0] == Value::Integer(bigint),
    ensures
        exists|filename: String, file: Outcome<String>|
            {
                &&& #[trigger] finds_file(host, ctx, bigint, span, filename, file)
                &&& match file.result {
                    Err(_) => {
                        &&& answer.result == Err::<ValueView, bool>(true)
                        &&& answer.messages == messages(file.messages@)
                    },
                    Ok(found) => exists|bytes: Outcome<Vec<u8>>|
                        {
                            &&& #[trigger] call_ensures(H::get_bytes, (host, &found, span), bytes)
                            &&& answer.messages == messages(file.messages@) + messages(
                                bytes.messages@,
                            )
                            &&& match bytes.result {
                                Err(_) => answer.result == Err::<ValueView, bool>(true),
                                Ok(bytes) => {
                                    &&& answer.result matches Ok(ValueView::Integer(n))
                                    &&& n.value == bytes_value(bytes@)
                                    &&& 8 * bytes@.len() <= usize::MAX ==> {
                                        &&& n.size matches Some(size)
                                        &&& size == 8 * bytes@.len()
                                    }
                                },
                            }
                        },
                }
            },
{
    reveal_strlit("assert");
    reveal_strlit("incbin");
    assert("assert"@[0] != "incbin"@[0]);
    let (filename, file) = choose|filename: String, file: Outcome<String>|
        {
            &&& call_ensures(H::as_string, (host, &args[0]->Integer_0), filename)
            &&& #[trigger] call_ensures(
                H::filename_navigate,
                (host, &*ctx.cur_filename, &filename, span),
                file,
            )
            &&& crate::eval::reads_file(host, "incbin"@, file, span, answer)
        };
    assert(finds_file(host, ctx, bigint, span, filename, file));
    if let Ok(found) = file.result {
        let bytes = choose|bytes: Outcome<Vec<u8>>|
            {
                &&& #[trigger] call_ensures(H::get_bytes, (host, &found, span), bytes)
                &&& answer == crate::eval::after(
                    messages(file.messages@),
                    crate::eval::bytes_answer(bytes),
                )
            };
        assert(call_ensures(H::get_bytes, (host, &found, span), bytes));
        if let Ok(all) = bytes.result {
            lemma_bytes_value(all@);
        }
    }
}

/// The number that bytes spell, most significant byte first.
pub open spec fn bytes_value(bytes: Seq<u8>) -> int
    decreases bytes.len(),
{
    if bytes.len() == 0 {
        0
    } else {
        256 * bytes_value(bytes.drop_last()) + bytes.last()
    }
}

/// The bits of bytes spell what the bytes do.
proof fn lemma_bytes_value(bytes: Seq<u8>)
    ensures
        crate::bigint::sized_integer(crate::bigint::byte_bits(bytes)).value == bytes_value(bytes),
        crate::bigint::byte_bits(bytes).len() == 8 * bytes.len(),
    decreases bytes.len(),
{
    if bytes.len() == 0 {
        crate::laws::numbers::law_bytes_are_base_256(bytes, 0);
        assert(bytes =~= Seq::empty());
    } else {
        lemma_bytes_value(bytes.drop_last());
        crate::laws::numbers::law_bytes_are_base_256(bytes.drop_last(), bytes.last());
        crate::laws::numbers::law_bytes_give_their_bits(bytes, 0, 0);
        assert(bytes.drop_last().push(bytes.last()) =~= bytes);
    }
}

/// `incbinstr` reads a file of binary digits and `inchexstr` one of hexadecimal digits:
/// one bit for each digit, or four. Something else in the file is an error with a message
/// at the place of the call. All messages of the host are handed on, in order.
pub proof fn law_digit_files_give_all_digits<H: FileServer>(
    host: &H,
    ctx: Context,
    function: Seq<char>,
    bigint: BigInt,
    args: Seq<Value>,
    span: Span,
    answer: Answer,
)
    requires
        answers(host, ctx, function, args, span, answer),
        function == "incbinstr"@ || function == "inchexstr"@,
        args.len() == 1,
        args[0] == Value::Integer(bigint),
    ensures
        exists|filename: String, file: Outcome<String>|
            {
                &&& #[trigger] finds_file(host, ctx, bigint, span, filename, file)
                &&& match file.result {
                    Err(_) => {
                        &&& answer.result == Err::<ValueView, bool>(true)
                        &&& answer.messages == messages(file.messages@)
                    },
                    Ok(found) => exists|chars: Outcome<Vec<char>>|
                        {
                            &&& #[trigger] call_ensures(H::get_chars, (host, &found, span), chars)
                            &&& gives_digits(
                                if function == "incbinstr"@ {
                                    1
                                } else {
                                    4
                                },
                                file,
                                chars,
                                span,
                                answer,
                            )
                        },
                }
            },
{
    reveal_strlit("assert");
    reveal_strlit("incbin");
    reveal_strlit("incbinstr");
    reveal_strlit("inchexstr");
    assert("incbin"@.len() == 6 && "assert"@.len() == 6);
    assert(function.len() == 9);
    let (filename, file) = choose|filename: String, file: Outcome<String>|
        {
            &&& call_ensures(H::as_string, (host, &args[0]->Integer_0), filename)
            &&& #[trigger] call_ensures(
                H::filename_navigate,
                (host, &*ctx.cur_filename, &filename, span),
                file,
            )
            &&& crate::eval::reads_file(host, function, file, span, answer)
        };
    assert(finds_file(host, ctx, bigint, span, filename, file));
    if let Ok(found) = file.result {
        let bits = crate::eval::bits_per_char(function);
        let chars = choose|chars: Outcome<Vec<char>>|
            {
                &&& #[trigger] call_ensures(H::get_chars, (host, &found, span), chars)
                &&& answer == crate::eval::after(
                    messages(file.messages@),
                    crate::eval::chars_answer(chars, bits, span),
                )
            };
        assert(call_ensures(H::get_chars, (host, &found, span), chars));
        let all = messages(file.messages@) + messages(chars.messages@);
        assert(answer.messages.take(all.len() as int) =~= all);
        assert(answer.messages.len() == all.len() ==> answer.messages =~= all);
    }
}

/// Whether `answer` is what the digits of a file come to.
pub open spec fn gives_digits(
    bits_per_char: nat,
    file: Outcome<String>,
    chars: Outcome<Vec<char>>,
    span: Span,
    answer: Answer,
) -> bool {
    let reported = messages(file.messages@) + messages(chars.messages@);
    match chars.result {
        Err(_) => answer.result == Err::<ValueView, bool>(true) && answer.messages == reported,
        Ok(text) => match digit_bits(text@, bits_per_char) {
            Some(bits) => {
                &&& answer.messages == reported
                &&& answer.result matches Ok(ValueView::Integer(n))
                &&& n.value == unsigned_value(bits)
                &&& bits.len() <= usize::MAX ==> {
                    &&& n.size matches Some(size)
                    &&& size == bits.len()
                }
            },
            None => {
                &&& answer.result == Err::<ValueView, bool>(true)
                &&& answer.messages.len() == reported.len() + 1
                &&& answer.messages.take(reported.len() as int) == reported
                &&& is_plain_message(
                    answer.messages.last(),
                    "invalid character in file contents"@,
                    span,
                )
            },
        },
    }
}

} // verus!
