//! What sizes do to arguments and data elements.
use vstd::arithmetic::power2::{lemma_pow2_pos, lemma_pow2_unfold, pow2};
use vstd::prelude::*;

use crate::bank::DataInvocation;
use crate::bigint::IntegerView;
use crate::bits::{lemma_low_bits_value, low_bits, min_size, unsigned_value};
use crate::constrain::{constrained, lemma_min_size};
use crate::diagn::MessageView;
use crate::expr::{Resolution, ValueView};
use crate::host::{Host, ScopeView};
use crate::resolve::{argument_resolves, data_resolves, evaluates};
use crate::ruleset::{PatternParameterType, RuleInvocationArgument};
use crate::text::decimal;

verus! {

/// Whether the value of an argument of that type is accepted.
pub open spec fn is_accepted(typ: PatternParameterType, value: ValueView) -> bool {
    constrained(typ, value) is Ok
}

/// A number is accepted as an unsigned argument just when its bits, read as a natural
/// number, are the number again. No bits hold nothing.
pub proof fn law_unsigned_argument_reads_back(n: IntegerView, size: usize)
    ensures
        is_accepted(PatternParameterType::Unsigned(size), ValueView::Integer(n)) <==> size > 0
            && unsigned_value(low_bits(n.value, size as nat)) == n.value,
{
    lemma_low_bits_value(n.value, size as nat);
    lemma_pow2_pos(size as nat);
    let p = pow2(size as nat) as int;
    let v = n.value;
    assert(v % p == v <==> 0 <= v < p) by (nonlinear_arith)
        requires
            p > 0,
    ;
}

/// A number is accepted as a signed argument just when its bits, read in two's
/// complement, are the number again. No bits hold nothing.
pub proof fn law_signed_argument_reads_back(n: IntegerView, size: usize)
    ensures
        is_accepted(PatternParameterType::Signed(size), ValueView::Integer(n)) <==> {
            let bits = low_bits(n.value, size as nat);
            &&& size > 0
            &&& n.value == unsigned_value(bits) - (if bits[0] {
                pow2(size as nat) as int
            } else {
                0
            })
        },
{
    if size > 0 {
        let m = (size - 1) as nat;
        let v = n.value;
        let bits = low_bits(v, size as nat);
        let h = pow2(m) as int;
        let p = pow2(size as nat) as int;
        lemma_pow2_unfold(size as nat);
        lemma_pow2_pos(m);
        lemma_low_bits_value(v, size as nat);
        assert(p == 2 * h);
        let q = v / h;
        let c = v % h;
        vstd::arithmetic::div_mod::lemma_fundamental_div_mod(v, h);
        assert(0 <= c < h) by (nonlinear_arith)
            requires
                h > 0,
                c == v % h,
        ;
        let r = v % p;
        vstd::arithmetic::div_mod::lemma_fundamental_div_mod(v, p);
        let t = v / p;
        assert(0 <= r < p) by (nonlinear_arith)
            requires
                p > 0,
                r == v % p,
        ;
        assert(bits[0] == (q % 2 == 1));
        if -h <= v < h {
            if v < 0 {
                assert(q == -1) by (nonlinear_arith)
                    requires
                        v == h * q + c,
                        0 <= c < h,
                        -h <= v < 0,
                ;
                assert(t == -1) by (nonlinear_arith)
                    requires
                        v == p * t + r,
                        0 <= r < p,
                        -p < v < 0,
                ;
                assert(p * (-1) == -p);
            } else {
                assert(q == 0) by (nonlinear_arith)
                    requires
                        v == h * q + c,
                        0 <= c < h,
                        0 <= v < h,
                ;
                assert(t == 0) by (nonlinear_arith)
                    requires
                        v == p * t + r,
                        0 <= r < p,
                        0 <= v < p,
                ;
                assert(p * 0 == 0);
            }
        } else if v == r - (if bits[0] {
            p
        } else {
            0
        }) {
            if bits[0] {
                // then `v` is below zero, but not below minus one half of the range
                assert(t == -1) by (nonlinear_arith)
                    requires
                        v == p * t + r,
                        v == r - p,
                        p > 0,
                ;
                assert(-p <= v < 0);
                assert(q == -1 || q == -2) by (nonlinear_arith)
                    requires
                        v == h * q + c,
                        0 <= c < h,
                        -2 * h <= v < 0,
                ;
                assert(h * (-1) == -h);
            } else {
                assert(0 <= v < p);
                assert(q == 0 || q == 1) by (nonlinear_arith)
                    requires
                        v == h * q + c,
                        0 <= c < h,
                        0 <= v < 2 * h,
                ;
                assert(h * 0 == 0);
            }
        }
    }
}

/// A number is accepted as an argument of a plain integer type just when it is accepted
/// as an unsigned or as a signed argument of that size.
pub proof fn law_integer_argument_is_either(n: IntegerView, size: usize)
    ensures
        is_accepted(PatternParameterType::Integer(size), ValueView::Integer(n)) <==> is_accepted(
            PatternParameterType::Unsigned(size),
            ValueView::Integer(n),
        ) || is_accepted(PatternParameterType::Signed(size), ValueView::Integer(n)),
{
    if size > 0 {
        lemma_pow2_unfold(size as nat);
        lemma_pow2_pos((size - 1) as nat);
    }
}

/// Whether the type is one of numbers of that size, with that letter for a name.
pub open spec fn is_sized(typ: PatternParameterType, size: usize, letter: Seq<char>) -> bool {
    ||| typ == PatternParameterType::Unsigned(size) && letter == "u"@
    ||| typ == PatternParameterType::Signed(size) && letter == "s"@
    ||| typ == PatternParameterType::Integer(size) && letter == "i"@
}

/// An accepted argument keeps its value and takes the size of its type. What is no number
/// is not accepted, and the message on what is not accepted names the type.
pub proof fn law_argument_takes_the_size_of_its_type(
    typ: PatternParameterType,
    size: usize,
    letter: Seq<char>,
    value: ValueView,
)
    requires
        is_sized(typ, size, letter),
    ensures
        match constrained(typ, value) {
            Ok(passed) => {
                &&& value matches ValueView::Integer(n)
                &&& passed matches ValueView::Integer(m)
                &&& m.value == n.value
                &&& m.size == Some(size)
            },
            Err(text) => text == (if value is Integer {
                "argument out of range for type `"@
            } else {
                "wrong argument for type `"@
            }) + (letter + decimal(size as nat)) + "`"@,
        },
{
}

/// A parameter without a type takes any value as it is.
pub proof fn law_untyped_argument_stays(value: ValueView)
    ensures
        constrained(PatternParameterType::Unspecified, value) == Ok::<ValueView, Seq<char>>(value),
{
}

/// An argument that is an expression is evaluated without any local names. It has a value
/// if the expression has one and it is accepted; the messages are those of the expression
/// and, if it is not accepted, one at the place of the expression.
pub proof fn law_expression_argument<H: Host>(
    scope: ScopeView<'_, H>,
    span: crate::diagn::Span,
    typ: PatternParameterType,
    expr: crate::expr::Expr,
    r: Resolution,
)
    requires
        argument_resolves(scope, span, typ, RuleInvocationArgument::Expression(expr), r),
    ensures
        exists|e: Resolution|
            {
                &&& #[trigger] evaluates(scope, expr, Map::empty(), e)
                &&& match e.result {
                    Err(_) => r.result is Err && r.messages == e.messages,
                    Ok(value) => match constrained(typ, value) {
                        Ok(passed) => r.result == Ok::<ValueView, ()>(passed) && r.messages
                            == e.messages,
                        Err(text) => {
                            &&& r.result is Err
                            &&& r.messages.len() == e.messages.len() + 1
                            &&& r.messages.take(e.messages.len() as int) == e.messages
                            &&& is_plain_message(r.messages.last(), text, expr.span)
                        },
                    },
                }
            },
{
    let e = choose|e: Resolution|
        {
            &&& #[trigger] evaluates(scope, expr, Map::empty(), e)
            &&& r == crate::resolve::as_argument(typ, expr.span, e)
        };
    assert(evaluates(scope, expr, Map::empty(), e));
    if let Ok(value) = e.result {
        if constrained(typ, value) is Err {
            assert(r.messages.take(e.messages.len() as int) =~= e.messages);
        }
    }
}

/// Whether the message has that text and place, and no note around it.
pub open spec fn is_plain_message(
    message: MessageView,
    text: Seq<char>,
    span: crate::diagn::Span,
) -> bool {
    &&& message.descr == text
    &&& message.span == span
    &&& message.parents.len() == 0
}

/// Whether a number is too large for that many bits: by its own size if it has one, and
/// otherwise by its value, with or without a sign bit.
pub open spec fn is_too_large(n: IntegerView, size: usize) -> bool {
    match n.size {
        Some(own) => own > size,
        None => size == 0 || n.value >= pow2(size as nat) || n.value < -pow2((size - 1) as nat),
    }
}

/// A data element of a directive with a size has exactly that size if it is a number,
/// whatever size its expression had, and keeps its value. A number that is too large for
/// it is reported, with both sizes. Anything else, and any value under a directive without
/// a size, is what the expression comes to.
pub proof fn law_data_element_has_the_size_of_its_directive<H: Host>(
    scope: ScopeView<'_, H>,
    data: DataInvocation,
    r: Resolution,
)
    requires
        data_resolves(scope, data, r),
    ensures
        exists|e: Resolution|
            {
                &&& #[trigger] evaluates(scope, data.expr, Map::empty(), e)
                &&& is_data_element(data, e, r)
            },
{
    let e = choose|e: Resolution|
        {
            &&& #[trigger] evaluates(scope, data.expr, Map::empty(), e)
            &&& r == crate::resolve::as_data(data, e)
        };
    assert(evaluates(scope, data.expr, Map::empty(), e));
    if let (Some(size), Ok(ValueView::Integer(n))) = (data.elem_size, e.result) {
        lemma_min_size(n.value, size as nat);
        lemma_pow2_pos(size as nat);
        if size > 0 {
            lemma_pow2_pos((size - 1) as nat);
        }
        assert(r.messages.take(e.messages.len() as int) =~= e.messages);
        assert(r.messages.len() == e.messages.len() ==> r.messages =~= e.messages);
    } else if e.result is Ok {
        assert(r.messages =~= e.messages);
    }
}

/// Whether `r` is the data element that an expression comes to with `e`.
pub open spec fn is_data_element(data: DataInvocation, e: Resolution, r: Resolution) -> bool {
    match (data.elem_size, e.result) {
        (Some(size), Ok(ValueView::Integer(n))) => {
            &&& r.result matches Ok(ValueView::Integer(m))
            &&& m.value == n.value
            &&& m.size == Some(size)
            &&& if is_too_large(n, size) {
                &&& r.messages.len() == e.messages.len() + 1
                &&& r.messages.take(e.messages.len() as int) == e.messages
                &&& is_plain_message(
                    r.messages.last(),
                    "value size (= "@ + decimal(
                        match n.size {
                            Some(own) => own as nat,
                            None => min_size(n.value),
                        },
                    ) + ") is larger than the directive size (= "@ + decimal(size as nat) + ")"@,
                    data.expr.span,
                )
            } else {
                r.messages == e.messages
            }
        },
        _ => r.result == e.result && r.messages == e.messages,
    }
}

} // verus!
