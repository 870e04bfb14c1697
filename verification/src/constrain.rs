//! The sizes of arguments and data elements.
use vstd::arithmetic::power2::{lemma_pow2_pos, pow2};
use vstd::prelude::*;

use crate::bigint::IntegerView;
use crate::bits::{bit_length, lemma_bit_length_bound, min_size};
use crate::diagn::{error, MessageView, Report, Span};
use crate::expr::{Value, ValueView};
use crate::ruleset::PatternParameterType;
use crate::state::State;
use crate::text::{append_decimal, decimal};

verus! {

/// Whether a number may be an argument of that type. Nothing fits into no bits.
pub open spec fn argument_fits(typ: PatternParameterType, value: int) -> bool {
    match typ {
        PatternParameterType::Unsigned(size) => size > 0 && 0 <= value < pow2(size as nat),
        PatternParameterType::Signed(size) => size > 0 && -pow2((size - 1) as nat) <= value < pow2(
            (size - 1) as nat,
        ),
        PatternParameterType::Integer(size) => size > 0 && -pow2((size - 1) as nat) <= value
            < pow2(size as nat),
        _ => true,
    }
}

/// The name of a type of sized numbers.
pub open spec fn type_text(typ: PatternParameterType) -> Seq<char> {
    match typ {
        PatternParameterType::Unsigned(size) => "u"@ + decimal(size as nat),
        PatternParameterType::Signed(size) => "s"@ + decimal(size as nat),
        PatternParameterType::Integer(size) => "i"@ + decimal(size as nat),
        _ => Seq::empty(),
    }
}

/// The message on a number that does not fit.
pub open spec fn out_of_range_text(typ: PatternParameterType) -> Seq<char> {
    "argument out of range for type `"@ + type_text(typ) + "`"@
}

/// The message on something that is no number.
pub open spec fn wrong_argument_text(typ: PatternParameterType) -> Seq<char> {
    "wrong argument for type `"@ + type_text(typ) + "`"@
}

/// What becomes of a value that is passed as an argument of that type, or the
/// message on why it cannot be.
pub open spec fn constrained(typ: PatternParameterType, value: ValueView) -> Result<
    ValueView,
    Seq<char>,
> {
    let sized = match typ {
        PatternParameterType::Unsigned(size) => Some(size),
        PatternParameterType::Signed(size) => Some(size),
        PatternParameterType::Integer(size) => Some(size),
        _ => None,
    };
    match (sized, value) {
        (None, _) => Ok(value),
        (Some(size), ValueView::Integer(n)) => if argument_fits(typ, n.value) {
            Ok(ValueView::Integer(IntegerView { value: n.value, size: Some(size) }))
        } else {
            Err(out_of_range_text(typ))
        },
        (Some(_), _) => Err(wrong_argument_text(typ)),
    }
}

/// The size that a number would take as a data element.
pub open spec fn data_size(n: IntegerView) -> nat {
    match n.size {
        Some(size) => size as nat,
        None => min_size(n.value),
    }
}

/// The message on a number that is larger than the directive allows.
pub open spec fn data_size_text(size: nat, elem_size: nat) -> Seq<char> {
    "value size (= "@ + decimal(size) + ") is larger than the directive size (= "@ + decimal(
        elem_size,
    ) + ")"@
}

/// A data element: a number takes the size that the directive gives to it.
pub open spec fn data_element(elem_size: Option<usize>, value: ValueView) -> ValueView {
    match (elem_size, value) {
        (Some(size), ValueView::Integer(n)) => ValueView::Integer(
            IntegerView { value: n.value, size: Some(size) },
        ),
        _ => value,
    }
}

/// The messages on a data element.
pub open spec fn data_element_messages(
    elem_size: Option<usize>,
    value: ValueView,
    span: Span,
) -> Seq<MessageView> {
    match (elem_size, value) {
        (Some(size), ValueView::Integer(n)) => if data_size(n) > size {
            seq![error(data_size_text(data_size(n), size as nat), span)]
        } else {
            Seq::empty()
        },
        _ => Seq::empty(),
    }
}

/// The smallest size of a number says which powers of two it lies between.
pub proof fn lemma_min_size(value: int, size: nat)
    ensures
        min_size(value) >= 1,
        value >= 0 && size > 0 ==> (min_size(value) <= size <==> value < pow2(size)),
        value > 0 && size == 0 ==> min_size(value) > size,
        value < 0 && size > 0 ==> (min_size(value) <= size <==> -pow2((size - 1) as nat) <= value),
{
    lemma_pow2_pos(size);
    if value < 0 {
        if size > 0 {
            lemma_bit_length_bound((-1 - value) as nat, (size - 1) as nat);
        }
    } else if value > 0 {
        lemma_bit_length_bound(value as nat, size);
        assert(bit_length(value as nat) >= 1);
    }
}

/// The message `before` with the name of a type in it.
fn type_message(before: &str, letter: &str, size: usize) -> (r: String)
    ensures
        r@ == before@ + (letter@ + decimal(size as nat)) + "`"@,
{
    let mut text = before.to_owned();
    text.append(letter);
    append_decimal(&mut text, size);
    text.append("`");
    assert(text@ =~= before@ + (letter@ + decimal(size as nat)) + "`"@);
    text
}

/// Gives a number that `fits` the size of its parameter.
fn constrain_sized(
    value: &mut Value,
    fits: bool,
    letter: &str,
    size: usize,
    report: &mut Report,
    span: Span,
) -> (r: Result<(), ()>)
    ensures
        match *old(value) {
            Value::Integer(n) => if fits {
                &&& r is Ok
                &&& final(value)@ == ValueView::Integer(
                    IntegerView { value: n@.value, size: Some(size) },
                )
                &&& final(report)@ == old(report)@
            } else {
                &&& r is Err
                &&& *final(value) == *old(value)
                &&& final(report)@ == old(report)@.with(
                    seq![error(
                        "argument out of range for type `"@ + (letter@ + decimal(size as nat))
                            + "`"@,
                        span,
                    )],
                )
            },
            _ => {
                &&& r is Err
                &&& *final(value) == *old(value)
                &&& final(report)@ == old(report)@.with(
                    seq![error(
                        "wrong argument for type `"@ + (letter@ + decimal(size as nat)) + "`"@,
                        span,
                    )],
                )
            },
        },
{
    if let Value::Integer(value_int) = value {
        if fits {
            value_int.size = Some(size);
            Ok(())
        } else {
            let text = type_message("argument out of range for type `", letter, size);
            report.error_span(text.as_str(), span);
            Err(())
        }
    } else {
        let text = type_message("wrong argument for type `", letter, size);
        report.error_span(text.as_str(), span);
        Err(())
    }
}

impl State {
    /// Passes a value as an argument of that type: a number that fits takes the
    /// size of the type.
    pub fn check_and_constrain_argument(
        value: &mut Value,
        typ: PatternParameterType,
        report: &mut Report,
        span: Span,
    ) -> (r: Result<(), ()>)
        requires
            !(typ is Ruleset),
        ensures
            match constrained(typ, old(value)@) {
                Ok(passed) => {
                    &&& r is Ok
                    &&& final(value)@ == passed
                    &&& final(report)@ == old(report)@
                },
                Err(text) => {
                    &&& r is Err
                    &&& *final(value) == *old(value)
                    &&& final(report)@ == old(report)@.with(seq![error(text, span)])
                },
            },
    {
        match typ {
            PatternParameterType::Unspecified | PatternParameterType::Ruleset(_) => Ok(()),
            PatternParameterType::Unsigned(size) => {
                let fits = match &*value {
                    Value::Integer(value_int) => {
                        proof {
                            lemma_min_size(value_int@.value, size as nat);
                        }
                        !(value_int.sign() == -1 || value_int.min_size() > size)
                    },
                    _ => false,
                };
                constrain_sized(value, fits, "u", size, report, span)
            },
            PatternParameterType::Signed(size) => {
                let fits = match &*value {
                    Value::Integer(value_int) => {
                        proof {
                            lemma_min_size(value_int@.value, size as nat);
                            if size > 0 {
                                lemma_pow2_pos((size - 1) as nat);
                                if value_int@.value > 0 {
                                    lemma_bit_length_bound(
                                        value_int@.value as nat,
                                        (size - 1) as nat,
                                    );
                                }
                            }
                        }
                        !((value_int.sign() == 0 && size == 0) || (value_int.sign() == 1
                            && value_int.min_size() >= size) || (value_int.sign() == -1
                            && value_int.min_size() > size))
                    },
                    _ => false,
                };
                constrain_sized(value, fits, "s", size, report, span)
            },
            PatternParameterType::Integer(size) => {
                let fits = match &*value {
                    Value::Integer(value_int) => {
                        proof {
                            lemma_min_size(value_int@.value, size as nat);
                            lemma_pow2_pos(size as nat);
                            if size > 0 {
                                lemma_pow2_pos((size - 1) as nat);
                            }
                        }
                        !(value_int.min_size() > size)
                    },
                    _ => false,
                };
                constrain_sized(value, fits, "i", size, report, span)
            },
        }
    }

    /// Gives a data element the size that its directive asks for. A value that is
    /// too large for it is an error, but is cut to the size all the same.
    pub fn constrain_data_element(
        value: &mut Value,
        elem_size: Option<usize>,
        report: &mut Report,
        span: Span,
    )
        ensures
            final(value)@ == data_element(elem_size, old(value)@),
            final(report)@ == old(report)@.with(
                data_element_messages(elem_size, old(value)@, span),
            ),
    {
        proof {
            crate::diagn::lemma_with_nothing(report@);
        }
        if let Some(elem_size) = elem_size {
            match value {
                Value::Integer(bigint) => {
                    let mut size = bigint.min_size();
                    if let Some(intrinsic_size) = bigint.size {
                        size = intrinsic_size;
                    }
                    if size > elem_size {
                        let mut text = "value size (= ".to_owned();
                        append_decimal(&mut text, size);
                        text.append(") is larger than the directive size (= ");
                        append_decimal(&mut text, elem_size);
                        text.append(")");
                        report.error_span(text.as_str(), span);
                    }
                    bigint.size = Some(elem_size);
                },
                _ => {},
            }
        }
    }
}

} // verus!
