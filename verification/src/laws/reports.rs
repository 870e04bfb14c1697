//! What reports and other records tell.
use vstd::prelude::*;

use crate::bitvec::{BitVec, BitVecView};
use crate::diagn::{error, messages, Message, MessageView, NoteView, Report, ReportView, Span};
use crate::expr::{answer_view, result_view, Value, ValueView};
use crate::text::texts;

verus! {

/// Reporting keeps all that was reported, and adds each message in order: with its text and
/// place, and inside the open notes, which stay open.
pub proof fn law_reporting_adds_messages_inside_the_open_notes(
    report: ReportView,
    new: Seq<MessageView>,
)
    ensures
        ({
            let after = report.with(new);
            let n = report.messages.len() as int;
            &&& after.messages.len() == n + new.len()
            &&& after.messages.take(n) == report.messages
            &&& forall|i: int|
                0 <= i < new.len() ==> {
                    let told = after.messages[n + i];
                    &&& told.descr == (#[trigger] new[i]).descr
                    &&& told.span == new[i].span
                    &&& told.parents.len() == report.parents.len() + new[i].parents.len()
                    &&& told.parents.take(report.parents.len() as int) == report.parents
                    &&& told.parents.skip(report.parents.len() as int) == new[i].parents
                }
            &&& after.parents == report.parents
        }),
{
    let after = report.with(new);
    let n = report.messages.len() as int;
    assert(after.messages.take(n) =~= report.messages);
    assert forall|i: int| 0 <= i < new.len() implies {
        let told = after.messages[n + i];
        &&& told.descr == (#[trigger] new[i]).descr
        &&& told.span == new[i].span
        &&& told.parents.len() == report.parents.len() + new[i].parents.len()
        &&& told.parents.take(report.parents.len() as int) == report.parents
        &&& told.parents.skip(report.parents.len() as int) == new[i].parents
    } by {
        let told = after.messages[n + i];
        assert(told.parents == report.parents + new[i].parents);
        assert(told.parents.take(report.parents.len() as int) =~= report.parents);
        assert(told.parents.skip(report.parents.len() as int) =~= new[i].parents);
    }
}

/// Opening a note says nothing yet, and puts it inside those that are open.
pub proof fn law_opening_a_note_is_silent(report: ReportView, note: NoteView)
    ensures
        report.opened(note).messages == report.messages,
        report.opened(note).parents.len() == report.parents.len() + 1,
        report.opened(note).parents.drop_last() == report.parents,
        report.opened(note).parents.last() == note,
        ReportView::empty().messages.len() == 0,
        ReportView::empty().parents.len() == 0,
{
    assert(report.opened(note).parents.drop_last() =~= report.parents);
}

/// An error has the text and the place that were given, and no notes of its own.
pub proof fn law_error_is_a_text_at_a_place(descr: Seq<char>, span: Span)
    ensures
        error(descr, span).descr == descr,
        error(descr, span).span == span,
        error(descr, span).parents.len() == 0,
{
}

/// Whether the message is told in full.
pub open spec fn tells(message: Message, told: MessageView) -> bool {
    &&& told.descr == message.descr@
    &&& told.span == message.span
    &&& told.parents.len() == message.parents@.len()
    &&& forall|i: int|
        0 <= i < message.parents@.len() ==> {
            &&& told.parents[i].descr == (#[trigger] message.parents@[i]).descr@
            &&& told.parents[i].span == message.parents@[i].span
        }
}

/// A report tells each of its messages in full, in order, with the notes that are open.
pub proof fn law_report_tells_all(report: Report)
    ensures
        report@.messages.len() == report.messages@.len(),
        forall|i: int|
            0 <= i < report.messages@.len() ==> tells(
                #[trigger] report.messages@[i],
                report@.messages[i],
            ),
        report@.parents.len() == report.parents@.len(),
        forall|i: int|
            0 <= i < report.parents@.len() ==> {
                &&& report@.parents[i].descr == (#[trigger] report.parents@[i]).descr@
                &&& report@.parents[i].span == report.parents@[i].span
            },
        report@.messages == messages(report.messages@),
{
}

/// A row of messages tells each of them in full, in order.
pub proof fn law_messages_are_told_in_order(row: Seq<Message>)
    ensures
        messages(row).len() == row.len(),
        forall|i: int| 0 <= i < row.len() ==> tells(#[trigger] row[i], messages(row)[i]),
{
}

/// Two values that read the same are the same: of the same kind, with the same number and
/// size, the same truth or the same name.
pub proof fn law_values_read_in_full(a: Value, b: Value)
    requires
        a@ == b@,
    ensures
        match (a, b) {
            (Value::Void, Value::Void) => true,
            (Value::Bool(x), Value::Bool(y)) => x == y,
            (Value::Integer(m), Value::Integer(n)) => m@.value == n@.value && m.size == n.size,
            (Value::Function(f), Value::Function(g)) => f@ == g@,
            _ => false,
        },
{
}

/// A value reads as what it is.
pub proof fn law_value_reads_as_it_is(value: Value)
    ensures
        match value {
            Value::Void => value@ == ValueView::Void,
            Value::Bool(b) => value@ == ValueView::Bool(b),
            Value::Integer(n) => value@ matches ValueView::Integer(m) && m.value == n@.value
                && m.size == n.size,
            Value::Function(name) => value@ == ValueView::Function(name@),
        },
{
}

/// A result reads as the value it has, or as the absence of one; an error that says whether
/// it was reported keeps what it says.
pub proof fn law_results_read_in_full(result: Result<Value, ()>, answer: Result<Value, bool>)
    ensures
        match result {
            Ok(value) => result_view(result) == Ok::<ValueView, ()>(value@),
            Err(_) => result_view(result) is Err,
        },
        match answer {
            Ok(value) => answer_view(answer) == Ok::<ValueView, bool>(value@),
            Err(reported) => answer_view(answer) == Err::<ValueView, bool>(reported),
        },
{
}

/// A row of bits reads bit for bit, and each of its marks in full.
pub proof fn law_bits_read_in_full(bits: BitVec)
    ensures
        bits@.bits == bits.bits@,
        bits@.spans.len() == bits.spans@.len(),
        forall|i: int|
            0 <= i < bits.spans@.len() ==> {
                &&& bits@.spans[i].offset == (#[trigger] bits.spans@[i]).offset
                &&& bits@.spans[i].size == bits.spans@[i].size
                &&& bits@.spans[i].addr == bits.spans@[i].addr@
                &&& bits@.spans[i].span == bits.spans@[i].span
            },
{
}

/// Writing bits puts them where they are to go, keeps the others and all marks, and fills
/// a gap with zeros. Writing no bits changes nothing.
pub proof fn law_writing_puts_bits_in_place(before: BitVecView, index: int, new: Seq<bool>)
    requires
        0 <= index,
    ensures
        ({
            let after = before.write(index, new);
            &&& after.spans == before.spans
            &&& after.bits.len() >= before.bits.len()
            &&& new.len() == 0 ==> after.bits == before.bits
            &&& new.len() > 0 && before.bits.len() <= index + new.len() ==> after.bits.len()
                == index + new.len()
            &&& before.bits.len() > index + new.len() ==> after.bits.len() == before.bits.len()
            &&& forall|i: int|
                0 <= i < new.len() ==> after.bits[index + i] == #[trigger] new[i]
            &&& forall|p: int|
                0 <= p < after.bits.len() && !(index <= p < index + new.len())
                    ==> #[trigger] after.bits[p] == (p < before.bits.len() && before.bits[p])
        }),
{
    let after = before.write(index, new);
    if new.len() == 0 {
        assert(after.bits =~= before.bits);
    }
}

/// The texts of strings are those of each of them, in order.
pub proof fn law_strings_are_read_in_order(row: Seq<String>)
    ensures
        texts(row).len() == row.len(),
        forall|i: int| 0 <= i < row.len() ==> (#[trigger] texts(row)[i]) == row[i]@,
{
}

} // verus!
