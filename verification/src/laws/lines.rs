//! What the lines of a bank come to.
use vstd::arithmetic::power2::pow2;
use vstd::prelude::*;

use crate::bank::{Bank, BankData, Invocation, InvocationKind};
use crate::bitvec::{BitSpanView, BitVecView};
use crate::diagn::MessageView;
use crate::expr::{Resolution, ValueView};
use crate::host::{Host, ScopeView};
use crate::laws::sizes::is_plain_message;
use crate::output::{
    bank_bits, bank_messages, bank_resolves, filled, lemma_lines, line_messages, line_resolves,
    placed, placement_error, BankResolution,
};
use crate::resolve::{candidates_resolve, data_resolves};
use crate::state::State;

verus! {

/// Whether the value is a number of just the expected size.
pub open spec fn is_as_expected(invoc: Invocation, value: ValueView) -> bool {
    value matches ValueView::Integer(n) && n.size == Some(invoc.size_guess)
}

/// Whether the bank has room for the line.
pub open spec fn has_room(bank: Bank, invoc: Invocation) -> bool {
    bank.addr_size matches Some(words) ==> invoc.ctx.bit_offset + invoc.size_guess <= words
        * bank.wordsize
}

/// A value is put in its place just when it is a number of the expected size that the bank
/// has room for. Otherwise the message says which of these does not hold.
pub proof fn law_value_is_placed_if_it_fits(bank: Bank, invoc: Invocation, value: ValueView)
    requires
        !(invoc.kind is Label),
    ensures
        ({
            let what = if invoc.kind is Rule {
                "instruction"@
            } else {
                "data element"@
            };
            let error = placement_error(bank, invoc, value);
            match value {
                ValueView::Integer(n) => if n.size is None {
                    error == Some("cannot infer size of "@ + what)
                } else if !is_as_expected(invoc, value) {
                    error == Some(what + " size did not converge after iterations"@)
                } else if !has_room(bank, invoc) {
                    error == Some(what + " is out of bank range"@)
                } else {
                    error is None
                },
                _ => error == Some("wrong type returned from "@ + what),
            }
        }),
{
}

/// Whether the line takes that position.
pub open spec fn takes(invoc: Invocation, position: int) -> bool {
    invoc.ctx.bit_offset <= position < invoc.ctx.bit_offset + invoc.size_guess
}

/// The bit that a number shows at that position of a line: its binary digits, the most
/// significant one first.
pub open spec fn shown(n: int, invoc: Invocation, position: int) -> bool {
    (n / (pow2((invoc.ctx.bit_offset + invoc.size_guess - 1 - position) as nat) as int)) % 2 == 1
}

/// Putting a value in its place writes its binary digits there, leaves all else as it was,
/// fills a gap with zeros, and adds one mark.
pub proof fn law_placing_writes_the_digits(
    state: State,
    bank: Bank,
    invoc: Invocation,
    n: crate::bigint::IntegerView,
    before: BitVecView,
)
    requires
        !(invoc.kind is Label),
        is_as_expected(invoc, ValueView::Integer(n)),
        has_room(bank, invoc),
    ensures
        ({
            let after = placed(state, bank, invoc, ValueView::Integer(n), before);
            let end = invoc.ctx.bit_offset + invoc.size_guess;
            &&& after.bits.len() == (if invoc.size_guess > 0 && end > before.bits.len() {
                end
            } else {
                before.bits.len() as int
            })
            &&& forall|p: int|
                0 <= p < after.bits.len() ==> #[trigger] after.bits[p] == (if takes(invoc, p) {
                    shown(n.value, invoc, p)
                } else {
                    p < before.bits.len() && before.bits[p]
                })
            &&& after.spans.len() == before.spans.len() + 1
            &&& after.spans.take(before.spans.len() as int) == before.spans
            &&& after.spans.last().offset == Some(invoc.ctx.bit_offset)
            &&& after.spans.last().size == invoc.size_guess
            &&& after.spans.last().addr == state.addr_of(invoc.ctx)
            &&& after.spans.last().span == invoc.span
        }),
{
    let after = placed(state, bank, invoc, ValueView::Integer(n), before);
    assert(after.spans.take(before.spans.len() as int) =~= before.spans);
}

/// A value that is not put in its place changes nothing.
pub proof fn law_what_does_not_fit_changes_nothing(
    state: State,
    bank: Bank,
    invoc: Invocation,
    value: ValueView,
    before: BitVecView,
)
    requires
        !is_as_expected(invoc, value) || !has_room(bank, invoc),
    ensures
        placed(state, bank, invoc, value, before) == before,
{
}

/// Whether line `i` was put in its place.
pub open spec fn is_in_place(
    bank: Bank,
    lines: Seq<Invocation>,
    values: Seq<Resolution>,
    i: int,
) -> bool {
    &&& 0 <= i < values.len()
    &&& !(lines[i].kind is Label)
    &&& values[i].result matches Ok(value)
    &&& is_as_expected(lines[i], value)
    &&& has_room(bank, lines[i])
}

/// Whether line `i` was put in a place that takes that position.
pub open spec fn fills(
    bank: Bank,
    lines: Seq<Invocation>,
    values: Seq<Resolution>,
    i: int,
    position: int,
) -> bool {
    is_in_place(bank, lines, values, i) && takes(lines[i], position)
}

/// Whether the bits are those of the lines: each position shows the last line that takes
/// it, or zero, and there are as many as the lines need.
pub open spec fn shows_lines(
    bank: Bank,
    lines: Seq<Invocation>,
    values: Seq<Resolution>,
    bits: Seq<bool>,
) -> bool {
    &&& forall|i: int, p: int| #[trigger]
        fills(bank, lines, values, i, p) ==> p < bits.len() && ((forall|j: int|
            i < j < values.len() ==> !#[trigger] fills(bank, lines, values, j, p)) ==> bits[p]
            == shown(values[i].result->Ok_0->Integer_0.value, lines[i], p))
    &&& forall|p: int|
        0 <= p < bits.len() && (forall|i: int| !#[trigger] fills(bank, lines, values, i, p))
            ==> !#[trigger] bits[p]
}

/// The bits of the first lines show these lines, and end with one of them.
proof fn lemma_bits_show_lines(
    state: State,
    bank: Bank,
    lines: Seq<Invocation>,
    values: Seq<Resolution>,
)
    requires
        values.len() <= lines.len(),
    ensures
        shows_lines(bank, lines, values, bank_bits(state, bank, lines, values).bits),
        ({
            let bits = bank_bits(state, bank, lines, values).bits;
            bits.len() > 0 ==> exists|i: int| #[trigger]
                fills(bank, lines, values, i, bits.len() - 1)
        }),
    decreases values.len(),
{
    let bits = bank_bits(state, bank, lines, values).bits;
    if values.len() > 0 {
        let front = values.drop_last();
        let k = values.len() - 1;
        let before = bank_bits(state, bank, lines, front);
        lemma_bits_show_lines(state, bank, lines, front);
        assert forall|i: int, p: int| i != k implies #[trigger] fills(bank, lines, values, i, p)
            == fills(bank, lines, front, i, p) by {
            if 0 <= i < k {
                assert(front[i] == values[i]);
            }
        }
        if is_in_place(bank, lines, values, k) {
            let n = values[k].result->Ok_0->Integer_0;
            law_placing_writes_the_digits(state, bank, lines[k], n, before);
            assert forall|p: int| #[trigger] fills(bank, lines, values, k, p) == takes(
                lines[k],
                p,
            ) by {}
        } else {
            assert(bits == before.bits) by {
                if !(lines[k].kind is Label) && values[k].result is Ok {
                    law_what_does_not_fit_changes_nothing(
                        state,
                        bank,
                        lines[k],
                        values[k].result->Ok_0,
                        before,
                    );
                }
            }
            assert forall|p: int| !#[trigger] fills(bank, lines, values, k, p) by {}
        }
        assert forall|i: int, p: int| #[trigger] fills(bank, lines, values, i, p) implies p
            < bits.len() && ((forall|j: int|
            i < j < values.len() ==> !#[trigger] fills(bank, lines, values, j, p)) ==> bits[p]
            == shown(values[i].result->Ok_0->Integer_0.value, lines[i], p)) by {
            if i < k {
                assert(fills(bank, lines, front, i, p));
                assert(front[i] == values[i]);
                if forall|j: int|
                    i < j < values.len() ==> !#[trigger] fills(bank, lines, values, j, p) {
                    assert(!fills(bank, lines, values, k, p));
                    assert forall|j: int| i < j < front.len() implies !#[trigger] fills(
                        bank,
                        lines,
                        front,
                        j,
                        p,
                    ) by {
                        assert(!fills(bank, lines, values, j, p));
                    }
                    assert(bits[p] == before.bits[p]);
                }
            }
        }
        assert forall|p: int|
            0 <= p < bits.len() && (forall|i: int| !#[trigger]
                fills(bank, lines, values, i, p)) implies !#[trigger] bits[p] by {
            assert(!fills(bank, lines, values, k, p));
            assert forall|i: int| !#[trigger] fills(bank, lines, front, i, p) by {
                assert(!fills(bank, lines, values, i, p));
                if i == k {
                    assert(!is_in_place(bank, lines, front, i));
                }
            }
            if p < before.bits.len() {
                assert(!before.bits[p]);
            }
        }
        if bits.len() > 0 {
            if bits.len() == before.bits.len() {
                let i = choose|i: int| #[trigger]
                    fills(bank, lines, front, i, before.bits.len() - 1);
                assert(i != k) by {
                    assert(is_in_place(bank, lines, front, i));
                }
                assert(fills(bank, lines, values, i, bits.len() - 1));
            } else {
                assert(fills(bank, lines, values, k, bits.len() - 1));
            }
        }
    }
}

/// Whether the mark is that of the line: where it starts, how long it is, its address and
/// its place in the source. A label is marked with no bits, and with no position where the
/// bank is not in the output.
pub open spec fn marks_line(
    state: State,
    bank: Bank,
    invoc: Invocation,
    mark: BitSpanView,
) -> bool {
    &&& mark.span == invoc.span
    &&& mark.addr == state.addr_of(invoc.ctx)
    &&& if invoc.kind is Label {
        &&& mark.size == 0
        &&& bank.output_offset is Some ==> mark.offset == Some(invoc.ctx.bit_offset)
        &&& bank.output_offset is None ==> mark.offset is None
    } else {
        &&& mark.size == invoc.size_guess
        &&& mark.offset == Some(invoc.ctx.bit_offset)
    }
}

/// Lines that are all in place are marked one for one.
proof fn lemma_lines_are_marked(
    state: State,
    bank: Bank,
    lines: Seq<Invocation>,
    values: Seq<Resolution>,
)
    requires
        values.len() <= lines.len(),
        forall|i: int|
            0 <= i < values.len() ==> (#[trigger] lines[i]).kind is Label || is_in_place(
                bank,
                lines,
                values,
                i,
            ),
    ensures
        ({
            let marks = bank_bits(state, bank, lines, values).spans;
            &&& marks.len() == values.len()
            &&& forall|i: int|
                0 <= i < values.len() ==> marks_line(
                    state,
                    bank,
                    #[trigger] lines[i],
                    marks[i],
                )
        }),
    decreases values.len(),
{
    if values.len() > 0 {
        let front = values.drop_last();
        let k = values.len() - 1;
        let before = bank_bits(state, bank, lines, front);
        let marks = bank_bits(state, bank, lines, values).spans;
        assert forall|i: int| 0 <= i < front.len() implies (#[trigger] lines[i]).kind is Label
            || is_in_place(bank, lines, front, i) by {
            assert(front[i] == values[i]);
            assert(lines[i].kind is Label || is_in_place(bank, lines, values, i));
        }
        lemma_lines_are_marked(state, bank, lines, front);
        assert(lines[k].kind is Label || is_in_place(bank, lines, values, k));
        if !(lines[k].kind is Label) {
            let n = values[k].result->Ok_0->Integer_0;
            law_placing_writes_the_digits(state, bank, lines[k], n, before);
        }
        assert(marks.len() == before.spans.len() + 1);
        assert(marks.take(before.spans.len() as int) =~= before.spans);
        assert forall|i: int| 0 <= i < values.len() implies marks_line(
            state,
            bank,
            #[trigger] lines[i],
            marks[i],
        ) by {
            if i < k {
                assert(marks.take(before.spans.len() as int)[i] == marks[i]);
            }
        }
    }
}

/// Whether the message tells what `own` does, inside a note on the line.
pub open spec fn is_enclosed(message: MessageView, own: MessageView, invoc: Invocation) -> bool {
    &&& message.descr == own.descr
    &&& message.span == own.span
    &&& message.parents.len() == own.parents.len() + 1
    &&& message.parents[0].descr == (if invoc.kind is Rule {
        "failed to resolve instruction"@
    } else {
        "failed to resolve data element"@
    })
    &&& message.parents[0].span == invoc.span
    &&& message.parents.skip(1) == own.parents
}

/// Whether the messages from `from` on, up to `to`, are those on line `i`: what came with
/// its value, inside a note on the line, and then what is wrong with its place.
pub open spec fn tells_line(
    bank: Bank,
    lines: Seq<Invocation>,
    values: Seq<Resolution>,
    i: int,
    told: Seq<MessageView>,
    from: int,
    to: int,
) -> bool {
    let own = values[i].messages;
    let misplaced = values[i].result is Ok && !is_in_place(bank, lines, values, i);
    if lines[i].kind is Label {
        from == to
    } else {
        &&& 0 <= from
        &&& to == from + own.len() + (if misplaced {
            1int
        } else {
            0
        })
        &&& to <= told.len()
        &&& forall|m: int|
            0 <= m < own.len() ==> is_enclosed(told[from + m], #[trigger] own[m], lines[i])
        &&& misplaced ==> is_plain_message(
            told[to - 1],
            placement_error(bank, lines[i], values[i].result->Ok_0)->Some_0,
            lines[i].span,
        )
    }
}

/// Whether the messages are those on the lines, one line after the other.
pub open spec fn tells_lines(
    bank: Bank,
    lines: Seq<Invocation>,
    values: Seq<Resolution>,
    told: Seq<MessageView>,
    cuts: Seq<int>,
) -> bool {
    &&& cuts.len() == values.len() + 1
    &&& cuts[0] == 0
    &&& cuts[values.len() as int] == told.len()
    &&& forall|i: int|
        #![trigger cuts[i]]
        0 <= i < values.len() ==> tells_line(
            bank,
            lines,
            values,
            i,
            told,
            cuts[i],
            cuts[i + 1],
        )
}

/// Where the messages on each line start.
proof fn lemma_messages_tell_lines(
    bank: Bank,
    lines: Seq<Invocation>,
    values: Seq<Resolution>,
) -> (cuts: Seq<int>)
    requires
        values.len() <= lines.len(),
    ensures
        tells_lines(bank, lines, values, bank_messages(bank, lines, values), cuts),
    decreases values.len(),
{
    let told = bank_messages(bank, lines, values);
    if values.len() == 0 {
        seq![0int]
    } else {
        let front = values.drop_last();
        let k = values.len() - 1;
        let before = bank_messages(bank, lines, front);
        let cuts = lemma_messages_tell_lines(bank, lines, front);
        let all = cuts.push(told.len() as int);
        let piece = line_messages(bank, lines[k], values[k]);
        assert(told == before + piece);
        assert forall|i: int| #![trigger all[i]] 0 <= i < values.len() implies tells_line(
            bank,
            lines,
            values,
            i,
            told,
            all[i],
            all[i + 1],
        ) by {
            if i < k {
                assert(front[i] == values[i]);
                assert(all[i] == cuts[i] && all[i + 1] == cuts[i + 1]);
                assert(tells_line(bank, lines, front, i, before, cuts[i], cuts[i + 1]));
                assert(is_in_place(bank, lines, front, i) == is_in_place(bank, lines, values, i));
            } else {
                assert(all[k] == before.len());
                lemma_piece_tells_line(bank, lines, values, k, before);
            }
        }
        all
    }
}

/// The messages on one line, after others.
proof fn lemma_piece_tells_line(
    bank: Bank,
    lines: Seq<Invocation>,
    values: Seq<Resolution>,
    k: int,
    before: Seq<MessageView>,
)
    requires
        0 <= k < values.len(),
    ensures
        ({
            let told = before + line_messages(bank, lines[k], values[k]);
            tells_line(bank, lines, values, k, told, before.len() as int, told.len() as int)
        }),
{
    let piece = line_messages(bank, lines[k], values[k]);
    let told = before + piece;
    if !(lines[k].kind is Label) {
        let own = values[k].messages;
        assert forall|m: int| 0 <= m < own.len() implies is_enclosed(
            told[before.len() + m],
            #[trigger] own[m],
            lines[k],
        ) by {
            assert(told[before.len() + m] == piece[m]);
            assert(piece[m].parents =~= seq![crate::output::kind_note(lines[k])] + own[m].parents);
            assert(piece[m].parents.skip(1) =~= own[m].parents);
        }
        if values[k].result is Ok {
            law_value_is_placed_if_it_fits(bank, lines[k], values[k].result->Ok_0);
            if !is_in_place(bank, lines, values, k) {
                assert(told[told.len() - 1] == piece[piece.len() - 1]);
            }
        }
    }
}

/// What a line may come to in the final pass: an instruction one of its candidates, a data
/// element its expression, each at its own place, and a label nothing.
pub open spec fn is_line_value<H: Host>(
    state: &State,
    host: &H,
    invoc: Invocation,
    value: Resolution,
) -> bool {
    let scope = ScopeView { state, ctx: &invoc.ctx, host, final_pass: true };
    match invoc.kind {
        InvocationKind::Rule(rule) => candidates_resolve(
            scope,
            invoc.span,
            rule.candidates@,
            value,
        ),
        InvocationKind::Data(data) => data_resolves(scope, data, value),
        InvocationKind::Label(_) => value.result is Ok && value.messages.len() == 0,
    }
}

/// Whether `r` is what the lines of a bank come to: `values` up to the first line without
/// a value, which ends it, with the messages on each line starting at `cuts`.
pub open spec fn accounts_for<H: Host>(
    state: &State,
    host: &H,
    bank: Bank,
    bankdata: BankData,
    r: BankResolution,
    values: Seq<Resolution>,
    cuts: Seq<int>,
) -> bool {
    let lines = bankdata.invocations@;
    &&& values.len() <= lines.len()
    &&& forall|i: int|
        0 <= i < values.len() ==> is_line_value(state, host, lines[i], #[trigger] values[i])
    &&& forall|i: int| 0 <= i < values.len() - 1 ==> (#[trigger] values[i]).result is Ok
    &&& tells_lines(bank, lines, values, r.messages, cuts)
    &&& match r.result {
        Err(_) => values.len() > 0 && values.last().result is Err,
        Ok(bits) => {
            &&& values.len() == lines.len()
            &&& values.len() > 0 ==> values.last().result is Ok
            &&& shows_lines(bank, lines, values, bits.bits)
            &&& bits.bits.len() > 0 && !(bank.fill && bank.addr_size is Some) ==> exists|i: int|
                #[trigger] fills(bank, lines, values, i, bits.bits.len() - 1)
            &&& bank.fill ==> (bank.addr_size matches Some(words) ==> bits.bits.len() == words
                * bank.wordsize)
            &&& r.messages.len() == 0 ==> {
                &&& bits.spans.len() == lines.len()
                &&& forall|i: int|
                    0 <= i < lines.len() ==> marks_line(
                        *state,
                        bank,
                        #[trigger] lines[i],
                        bits.spans[i],
                    )
            }
        },
    }
}

/// A bank is made of its lines: every bit, every mark and every message comes from one of
/// them, and nothing of a line is lost.
pub proof fn law_bank_is_made_of_its_lines<H: Host>(
    state: &State,
    host: &H,
    bank: Bank,
    bankdata: BankData,
    r: BankResolution,
)
    requires
        bank_resolves(state, host, bank, bankdata, r),
    ensures
        exists|values: Seq<Resolution>, cuts: Seq<int>| #[trigger]
            accounts_for(state, host, bank, bankdata, r, values, cuts),
{
    let lines = bankdata.invocations@;
    let values = lemma_lines(state, host, bank, bankdata, r);
    let cuts = lemma_messages_tell_lines(bank, lines, values);
    assert forall|i: int| 0 <= i < values.len() implies is_line_value(
        state,
        host,
        lines[i],
        #[trigger] values[i],
    ) by {
        assert(line_resolves(state, host, lines[i], values[i]));
    }
    if let Ok(bits) = r.result {
        let plain = bank_bits(*state, bank, lines, values);
        assert(bits == filled(bank, plain));
        assert(values.len() > 0 ==> values.last().result is Ok);
        assert(values.len() == lines.len());
        lemma_bits_show_lines(*state, bank, lines, values);
        if let Some(words) = bank.addr_size {
            let size = words * bank.wordsize;
            assert(size >= 0) by (nonlinear_arith)
                requires
                    size == words * bank.wordsize,
            ;
            assert(plain.bits.len() <= size) by {
                if plain.bits.len() > 0 {
                    let i = choose|i: int| #[trigger]
                        fills(bank, lines, values, i, plain.bits.len() - 1);
                    assert(fills(bank, lines, values, i, plain.bits.len() - 1));
                }
            }
        }
        assert(shows_lines(bank, lines, values, bits.bits)) by {
            assert forall|i: int, p: int| #[trigger] fills(bank, lines, values, i, p) implies p
                < bits.bits.len() && ((forall|j: int|
                i < j < values.len() ==> !#[trigger] fills(bank, lines, values, j, p))
                ==> bits.bits[p] == shown(
                values[i].result->Ok_0->Integer_0.value,
                lines[i],
                p,
            )) by {
                assert(p < plain.bits.len());
                assert(bits.bits[p] == plain.bits[p]);
            }
            assert forall|p: int|
                0 <= p < bits.bits.len() && (forall|i: int| !#[trigger]
                    fills(bank, lines, values, i, p)) implies !#[trigger] bits.bits[p] by {
                if p < plain.bits.len() {
                    assert(bits.bits[p] == plain.bits[p]);
                    assert(!plain.bits[p]);
                }
            }
        }
        if r.messages.len() == 0 {
            assert forall|i: int| 0 <= i < lines.len() implies (
            #[trigger] lines[i]).kind is Label || is_in_place(bank, lines, values, i) by {
                lemma_cuts_grow(bank, lines, values, r.messages, cuts, i, i + 1);
                assert(tells_line(bank, lines, values, i, r.messages, cuts[i], cuts[i + 1]));
                lemma_cuts_grow(bank, lines, values, r.messages, cuts, 0, i);
                lemma_cuts_grow(
                    bank,
                    lines,
                    values,
                    r.messages,
                    cuts,
                    i + 1,
                    values.len() as int,
                );
                assert(values[i].result is Ok) by {
                    if i == values.len() - 1 {
                        assert(values[i] == values.last());
                    }
                }
            }
            lemma_lines_are_marked(*state, bank, lines, values);
        }
    }
    assert(accounts_for(state, host, bank, bankdata, r, values, cuts));
}

/// The messages on a later line do not start before those on an earlier one.
proof fn lemma_cuts_grow(
    bank: Bank,
    lines: Seq<Invocation>,
    values: Seq<Resolution>,
    told: Seq<MessageView>,
    cuts: Seq<int>,
    i: int,
    j: int,
)
    requires
        tells_lines(bank, lines, values, told, cuts),
        0 <= i <= j <= values.len(),
    ensures
        cuts[i] <= cuts[j],
    decreases j - i,
{
    if i < j {
        lemma_cuts_grow(bank, lines, values, told, cuts, i + 1, j);
        assert(tells_line(bank, lines, values, i, told, cuts[i], cuts[i + 1]));
    }
}

} // verus!
