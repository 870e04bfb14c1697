//! The bits of a bank.
use vstd::prelude::*;

use crate::bank::{Bank, BankData, Invocation, InvocationKind};
use crate::bits::low_bits;
use crate::bitvec::{BitSpanView, BitVec, BitVecView};
use crate::diagn::{
    enclosed_in, error, lemma_with_nothing, lemma_with_opened, lemma_with_with, MessageView,
    NoteView, Report,
};
use crate::expr::{result_view, Resolution, Value, ValueView};
use crate::host::{Host, ScopeView};
use crate::resolve::{candidates_resolve, data_resolves};
use crate::state::State;
use crate::text::joined;

verus! {

/// What a bank comes to, and the messages that came with it.
#[verifier::ext_equal]
pub struct BankResolution {
    pub result: Result<BitVecView, ()>,
    pub messages: Seq<MessageView>,
}

/// What messages call an instruction or a data element.
pub open spec fn kind_text(kind: InvocationKind) -> Seq<char> {
    match kind {
        InvocationKind::Rule(_) => "instruction"@,
        _ => "data element"@,
    }
}

/// The note that encloses the messages on an instruction or a data element.
pub open spec fn kind_note(invoc: Invocation) -> NoteView {
    NoteView {
        descr: match invoc.kind {
            InvocationKind::Rule(_) => "failed to resolve instruction"@,
            _ => "failed to resolve data element"@,
        },
        span: invoc.span,
    }
}

/// The message on a size that is not the one that addresses rest on.
pub open spec fn not_converged_text(kind: InvocationKind) -> Seq<char> {
    kind_text(kind) + " size did not converge after iterations"@
}

/// The message on a number without a size.
pub open spec fn no_size_text(kind: InvocationKind) -> Seq<char> {
    "cannot infer size of "@ + kind_text(kind)
}

/// The message on a value that is no number.
pub open spec fn wrong_type_text(kind: InvocationKind) -> Seq<char> {
    "wrong type returned from "@ + kind_text(kind)
}

/// The message on bits beyond the bank.
pub open spec fn out_of_bank_text(kind: InvocationKind) -> Seq<char> {
    kind_text(kind) + " is out of bank range"@
}

/// Why the value of an instruction or a data element cannot go into the bank, if so.
pub open spec fn placement_error(bank: Bank, invoc: Invocation, value: ValueView) -> Option<
    Seq<char>,
> {
    match value {
        ValueView::Integer(n) => match n.size {
            Some(size) => if size != invoc.size_guess {
                Some(not_converged_text(invoc.kind))
            } else if bank.exceeded_by(invoc.ctx.bit_offset, size) {
                Some(out_of_bank_text(invoc.kind))
            } else {
                None
            },
            None => Some(no_size_text(invoc.kind)),
        },
        _ => Some(wrong_type_text(invoc.kind)),
    }
}

/// The run of bits that a value of that size takes.
pub open spec fn value_span(state: State, invoc: Invocation, size: usize) -> BitSpanView {
    BitSpanView {
        offset: Some(invoc.ctx.bit_offset),
        size,
        addr: state.addr_of(invoc.ctx),
        span: invoc.span,
    }
}

/// The empty run of bits at a label.
pub open spec fn label_span(state: State, bank: Bank, invoc: Invocation) -> BitSpanView {
    BitSpanView {
        offset: match bank.output_offset {
            Some(_) => Some(invoc.ctx.bit_offset),
            None => None,
        },
        size: 0,
        addr: state.addr_of(invoc.ctx),
        span: invoc.span,
    }
}

/// The bits with the value of an instruction or a data element put in its place.
/// A value that cannot go into the bank changes nothing.
pub open spec fn placed(
    state: State,
    bank: Bank,
    invoc: Invocation,
    value: ValueView,
    bitvec: BitVecView,
) -> BitVecView {
    match (placement_error(bank, invoc, value), value) {
        (None, ValueView::Integer(n)) => bitvec.write(
            invoc.ctx.bit_offset as int,
            low_bits(n.value, invoc.size_guess as nat),
        ).mark(value_span(state, invoc, invoc.size_guess)),
        _ => bitvec,
    }
}

/// The messages on the value of an instruction or a data element.
pub open spec fn placement_messages(bank: Bank, invoc: Invocation, value: ValueView) -> Seq<
    MessageView,
> {
    match placement_error(bank, invoc, value) {
        Some(text) => seq![error(text, invoc.span)],
        None => Seq::empty(),
    }
}

/// The bits of the first lines of a bank, given what each of them came to.
pub open spec fn bank_bits(
    state: State,
    bank: Bank,
    invocs: Seq<Invocation>,
    values: Seq<Resolution>,
) -> BitVecView
    decreases values.len(),
{
    if values.len() == 0 {
        BitVecView::empty()
    } else {
        let before = bank_bits(state, bank, invocs, values.drop_last());
        let invoc = invocs[values.len() - 1];
        match (invoc.kind, values.last().result) {
            (InvocationKind::Label(_), _) => before.mark(label_span(state, bank, invoc)),
            (_, Ok(value)) => placed(state, bank, invoc, value, before),
            (_, Err(())) => before,
        }
    }
}

/// The messages on one line of a bank that came to `r`.
pub open spec fn line_messages(bank: Bank, invoc: Invocation, r: Resolution) -> Seq<MessageView> {
    match (invoc.kind, r.result) {
        (InvocationKind::Label(_), _) => Seq::empty(),
        (_, Ok(value)) => enclosed_in(seq![kind_note(invoc)], r.messages) + placement_messages(
            bank,
            invoc,
            value,
        ),
        (_, Err(())) => enclosed_in(seq![kind_note(invoc)], r.messages),
    }
}

/// The messages on the first lines of a bank, given what each of them came to.
pub open spec fn bank_messages(bank: Bank, invocs: Seq<Invocation>, values: Seq<Resolution>) -> Seq<
    MessageView,
>
    decreases values.len(),
{
    if values.len() == 0 {
        Seq::empty()
    } else {
        bank_messages(bank, invocs, values.drop_last()) + line_messages(
            bank,
            invocs[values.len() - 1],
            values.last(),
        )
    }
}

/// The bits of a bank that is filled up with zeros if it asks for that.
pub open spec fn filled(bank: Bank, bitvec: BitVecView) -> BitVecView {
    match bank.bit_size() {
        Some(size) => if bank.fill && bitvec.bits.len() < size {
            BitVecView {
                bits: bitvec.bits + Seq::new((size - bitvec.bits.len()) as nat, |i: int| false),
                ..bitvec
            }
        } else {
            bitvec
        },
        None => bitvec,
    }
}

/// Whether a line of a bank may come to `r` in the final pass.
pub open spec fn line_resolves<H: Host>(
    state: &State,
    host: &H,
    invoc: Invocation,
    r: Resolution,
) -> bool {
    let scope = ScopeView { state, ctx: &invoc.ctx, host, final_pass: true };
    match invoc.kind {
        InvocationKind::Rule(rule) => candidates_resolve(
            scope,
            invoc.span,
            rule.candidates@,
            r,
        ),
        InvocationKind::Data(data) => data_resolves(scope, data, r),
        InvocationKind::Label(_) => r == (Resolution {
            result: Ok(ValueView::Void),
            messages: Seq::empty(),
        }),
    }
}

/// Whether the first lines of a bank may come to `values`, each of them but the
/// last one for certain with a value.
pub open spec fn lines_resolve<H: Host>(
    state: &State,
    host: &H,
    invocs: Seq<Invocation>,
    values: Seq<Resolution>,
) -> bool {
    &&& values.len() <= invocs.len()
    &&& forall|i: int|
        #![trigger values[i]]
        0 <= i < values.len() ==> line_resolves(state, host, invocs[i], values[i])
    &&& forall|i: int|
        #![trigger values[i]]
        0 <= i < values.len() - 1 ==> values[i].result is Ok
}

/// What a bank comes to, given what its lines came to.
pub open spec fn bank_resolution(
    state: State,
    bank: Bank,
    invocs: Seq<Invocation>,
    values: Seq<Resolution>,
) -> BankResolution {
    BankResolution {
        result: if values.len() > 0 && values.last().result is Err {
            Err(())
        } else {
            Ok(filled(bank, bank_bits(state, bank, invocs, values)))
        },
        messages: bank_messages(bank, invocs, values),
    }
}

/// Whether a bank may come to `r`. The first line without a value ends it.
pub open spec fn bank_resolves<H: Host>(
    state: &State,
    host: &H,
    bank: Bank,
    bankdata: BankData,
    r: BankResolution,
) -> bool {
    exists|values: Seq<Resolution>|
        {
            &&& lines_resolve(state, host, bankdata.invocations@, values)
            &&& values.len() == bankdata.invocations@.len() || (values.len() > 0
                && values.last().result is Err)
            &&& r == #[trigger] bank_resolution(*state, bank, bankdata.invocations@, values)
        }
}

impl State {
    /// Whether a line of a bank can be resolved: it is in a bank of the state, its
    /// rules are rules of the state, and a machine word holds where it ends.
    pub open spec fn invocation_ok(self, invoc: Invocation) -> bool {
        &&& self.has_place(invoc.ctx)
        &&& invoc.end() <= usize::MAX
        &&& invoc.kind matches InvocationKind::Rule(rule) ==> self.candidates_ok(rule.candidates@)
    }

    /// Whether a bank with that data can be resolved.
    pub open spec fn bankdata_ok(self, bank: Bank, bankdata: BankData) -> bool {
        &&& forall|i: int|
            0 <= i < bankdata.invocations@.len() ==> self.invocation_ok(
                #[trigger] bankdata.invocations@[i],
            )
        &&& bank.fill ==> (bank.bit_size() matches Some(size) ==> size <= usize::MAX)
    }

    /// The bits of a bank.
    pub fn resolve_bankdata<H: Host>(
        &self,
        report: &mut Report,
        bank: &Bank,
        bankdata: &BankData,
        host: &H,
    ) -> (r: Result<BitVec, ()>)
        requires
            self.bankdata_ok(*bank, *bankdata),
        ensures
            exists|b: BankResolution|
                {
                    &&& #[trigger] bank_resolves(self, host, *bank, *bankdata, b)
                    &&& b.result == (match r {
                        Ok(bitvec) => Ok(bitvec@),
                        Err(()) => Err(()),
                    })
                    &&& final(report)@ == old(report)@.with(b.messages)
                },
    {
        let mut bitvec = BitVec::new();
        let ghost invocs = bankdata.invocations@;
        let ghost mut values: Seq<Resolution> = Seq::empty();
        proof {
            lemma_with_nothing(report@);
        }
        let mut index: usize = 0;
        while index < bankdata.invocations.len()
            invariant
                index <= invocs.len(),
                invocs == bankdata.invocations@,
                self.bankdata_ok(*bank, *bankdata),
                values.len() == index,
                lines_resolve(self, host, invocs, values),
                values.len() > 0 ==> values.last().result is Ok,
                bitvec@ == bank_bits(*self, *bank, invocs, values),
                report@ == old(report)@.with(bank_messages(*bank, invocs, values)),
            decreases invocs.len() - index,
        {
            let invoc = &bankdata.invocations[index];
            let ghost before = values;
            let ghost entry = report@;
            assert(self.invocation_ok(invocs[index as int]));
            let resolved = match &invoc.kind {
                InvocationKind::Rule(_) => {
                    report.push_parent("failed to resolve instruction", invoc.span);
                    let resolved = self.resolve_rule_invocation(report, invoc, host, true);
                    proof {
                        let scope = ScopeView { state: self, ctx: &invoc.ctx, host, final_pass: true };
                        let c = choose|c: Resolution|
                            {
                                &&& #[trigger] candidates_resolve(
                                    scope,
                                    invoc.span,
                                    invoc.kind->Rule_0.candidates@,
                                    c,
                                )
                                &&& result_view(resolved) == c.result
                                &&& report@ == entry.opened(kind_note(*invoc)).with(c.messages)
                            };
                        assert(line_resolves(self, host, *invoc, c));
                        lemma_with_opened(entry, kind_note(*invoc), c.messages);
                        values = before.push(c);
                    }
                    report.pop_parent();
                    resolved
                },
                InvocationKind::Data(_) => {
                    report.push_parent("failed to resolve data element", invoc.span);
                    let resolved = self.resolve_data_invocation(report, invoc, host, true);
                    proof {
                        let scope = ScopeView { state: self, ctx: &invoc.ctx, host, final_pass: true };
                        let c = choose|c: Resolution|
                            {
                                &&& #[trigger] data_resolves(scope, invoc.kind->Data_0, c)
                                &&& result_view(resolved) == c.result
                                &&& report@ == entry.opened(kind_note(*invoc)).with(c.messages)
                            };
                        assert(line_resolves(self, host, *invoc, c));
                        lemma_with_opened(entry, kind_note(*invoc), c.messages);
                        values = before.push(c);
                    }
                    report.pop_parent();
                    resolved
                },
                InvocationKind::Label(_) => {
                    let offset = if bank.output_offset.is_some() {
                        Some(invoc.ctx.bit_offset)
                    } else {
                        None
                    };
                    bitvec.mark_span(offset, 0, self.get_addr_aprox(&invoc.ctx), invoc.span);
                    index += 1;
                    proof {
                        let c = Resolution {
                            result: Ok(ValueView::Void),
                            messages: Seq::empty(),
                        };
                        values = before.push(c);
                        assert(values.drop_last() =~= before);
                        lemma_lines_push(self, host, invocs, before, c);
                        lemma_with_with(
                            old(report)@,
                            bank_messages(*bank, invocs, before),
                            Seq::empty(),
                        );
                        lemma_with_nothing(report@);
                    }
                    continue ;
                },
            };
            index += 1;
            proof {
                assert(values.drop_last() =~= before);
                lemma_lines_push(self, host, invocs, before, values.last());
                assert(report@ =~= entry.with(
                    enclosed_in(seq![kind_note(*invoc)], values.last().messages),
                ));
                lemma_with_with(
                    old(report)@,
                    bank_messages(*bank, invocs, before),
                    enclosed_in(seq![kind_note(*invoc)], values.last().messages),
                );
            }
            let value = match resolved {
                Err(()) => {
                    proof {
                        assert(bank_resolves(
                            self,
                            host,
                            *bank,
                            *bankdata,
                            bank_resolution(*self, *bank, invocs, values),
                        ));
                    }
                    return Err(());
                },
                Ok(value) => value,
            };
            self.place_value(report, bank, invoc, &value, &mut bitvec);
            proof {
                lemma_with_with(
                    entry,
                    enclosed_in(seq![kind_note(*invoc)], values.last().messages),
                    placement_messages(*bank, *invoc, value@),
                );
                lemma_with_with(
                    old(report)@,
                    bank_messages(*bank, invocs, before),
                    line_messages(*bank, *invoc, values.last()),
                );
            }
        }
        let ghost unfilled = bitvec@;
        if bank.fill {
            if let Some(addr_size) = bank.addr_size {
                let size = addr_size * bank.wordsize;
                while bitvec.len() < size
                    invariant
                        bitvec@.spans == unfilled.spans,
                        bitvec@.bits.len() <= size || bitvec@.bits == unfilled.bits,
                        bitvec@.bits.len() >= unfilled.bits.len(),
                        bitvec@.bits =~= unfilled.bits + Seq::new(
                            (bitvec@.bits.len() - unfilled.bits.len()) as nat,
                            |i: int| false,
                        ),
                    decreases size - bitvec@.bits.len(),
                {
                    let end = bitvec.len();
                    bitvec.write(end, false);
                }
            }
        }
        proof {
            assert(bitvec@ =~= filled(*bank, unfilled));
            assert(bank_resolves(
                self,
                host,
                *bank,
                *bankdata,
                bank_resolution(*self, *bank, invocs, values),
            ));
        }
        Ok(bitvec)
    }

    /// Puts the value of an instruction or a data element in its place.
    pub fn place_value(
        &self,
        report: &mut Report,
        bank: &Bank,
        invoc: &Invocation,
        value: &Value,
        bitvec: &mut BitVec,
    )
        requires
            self.has_place(invoc.ctx),
            invoc.ctx.bit_offset + invoc.size_guess <= usize::MAX,
        ensures
            final(bitvec)@ == placed(*self, *bank, *invoc, value@, old(bitvec)@),
            final(report)@ == old(report)@.with(placement_messages(*bank, *invoc, value@)),
    {
        let expr_name = match &invoc.kind {
            InvocationKind::Rule(_) => "instruction",
            _ => "data element",
        };
        proof {
            lemma_with_nothing(report@);
        }
        let (bigint, size) = match value {
            Value::Integer(bigint) => {
                match bigint.size {
                    Some(size) => {
                        if size == invoc.size_guess {
                            (bigint, size)
                        } else {
                            let text = joined(
                                expr_name,
                                " size did not converge after iterations",
                            );
                            report.error_span(text.as_str(), invoc.span);
                            return ;
                        }
                    },
                    None => {
                        let text = joined("cannot infer size of ", expr_name);
                        report.error_span(text.as_str(), invoc.span);
                        return ;
                    },
                }
            },
            _ => {
                let text = joined("wrong type returned from ", expr_name);
                report.error_span(text.as_str(), invoc.span);
                return ;
            },
        };

        if bank.is_exceeded_by(invoc.ctx.bit_offset, size) {
            let text = joined(expr_name, " is out of bank range");
            report.error_span(text.as_str(), invoc.span);
            return ;
        }
        bitvec.write_bigint(invoc.ctx.bit_offset, bigint);
        bitvec.mark_span(
            Some(invoc.ctx.bit_offset),
            size,
            self.get_addr_aprox(&invoc.ctx),
            invoc.span,
        );
    }
}

/// What the lines came to behind what a bank comes to.
pub proof fn lemma_lines<H: Host>(
    state: &State,
    host: &H,
    bank: Bank,
    bankdata: BankData,
    r: BankResolution,
) -> (values: Seq<Resolution>)
    requires
        bank_resolves(state, host, bank, bankdata, r),
    ensures
        lines_resolve(state, host, bankdata.invocations@, values),
        values.len() == bankdata.invocations@.len() || (values.len() > 0
            && values.last().result is Err),
        r == bank_resolution(*state, bank, bankdata.invocations@, values),
{
    choose|values: Seq<Resolution>|
        {
            &&& lines_resolve(state, host, bankdata.invocations@, values)
            &&& values.len() == bankdata.invocations@.len() || (values.len() > 0
                && values.last().result is Err)
            &&& r == #[trigger] bank_resolution(*state, bank, bankdata.invocations@, values)
        }
}

/// One more line.
proof fn lemma_lines_push<H: Host>(
    state: &State,
    host: &H,
    invocs: Seq<Invocation>,
    values: Seq<Resolution>,
    value: Resolution,
)
    requires
        lines_resolve(state, host, invocs, values),
        values.len() > 0 ==> values.last().result is Ok,
        values.len() < invocs.len(),
        line_resolves(state, host, invocs[values.len() as int], value),
    ensures
        lines_resolve(state, host, invocs, values.push(value)),
{
    let all = values.push(value);
    assert forall|i: int|
        #![trigger all[i]]
        0 <= i < all.len() implies line_resolves(state, host, invocs[i], all[i]) by {
        if i < values.len() {
            assert(all[i] == values[i]);
        }
    }
    assert forall|i: int|
        #![trigger all[i]]
        0 <= i < all.len() - 1 implies all[i].result is Ok by {
        assert(all[i] == values[i]);
    }
}

} // verus!
