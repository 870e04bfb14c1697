//! How passes follow each other, and how banks make up the output.
use vstd::prelude::*;

use crate::assembler::{
    assembles, bank_fails, banks_end, combined, file_fails, files_parse, lemma_bank_bits,
    lemma_failed_pass, parse_ends, pass_ends, pass_starts, Assembly,
};
use crate::bank::Bank;
use crate::bitvec::{BitSpanView, BitVecView};
use crate::diagn::messages;
use crate::host::{Host, ParseOutcome};
use crate::laws::covers;
use crate::output::{bank_resolves, BankResolution};
use crate::state::State;
use crate::symbol::SymbolManager;

verus! {

/// Whether the outcome of a file is free of errors.
pub open spec fn has_no_error(outcome: ParseOutcome) -> bool {
    outcome.result is Ok && outcome.messages@.len() == 0
}

/// Whether the files were parsed one after the other, each in the state that the one
/// before left, all without an error.
pub open spec fn are_parsed<H: Host>(
    host: &H,
    files: Seq<String>,
    states: Seq<State>,
    outcomes: Seq<ParseOutcome>,
) -> bool {
    &&& states.len() == files.len() + 1
    &&& outcomes.len() == files.len()
    &&& forall|i: int|
        #![trigger outcomes[i]]
        0 <= i < files.len() ==> {
            &&& call_ensures(H::parse_file, (host, states[i], &files[i]), outcomes[i])
            &&& has_no_error(outcomes[i])
            &&& outcomes[i].state == states[i + 1]
        }
}

/// Every file is parsed once, in order, in the state that the one before it left.
pub proof fn law_files_are_parsed_in_order<H: Host>(
    host: &H,
    files: Seq<String>,
    start: State,
    end: State,
)
    requires
        files_parse(host, files, start, end),
    ensures
        exists|states: Seq<State>, outcomes: Seq<ParseOutcome>|
            {
                &&& #[trigger] are_parsed(host, files, states, outcomes)
                &&& states[0] == start
                &&& states[files.len() as int] == end
            },
    decreases files.len(),
{
    if files.len() == 0 {
        let states = seq![start];
        let outcomes = Seq::<ParseOutcome>::empty();
        assert(are_parsed(host, files, states, outcomes));
    } else {
        let front = files.drop_last();
        let k = files.len() - 1;
        let (before, outcome) = choose|before: State, outcome: ParseOutcome|
            {
                &&& files_parse(host, front, start, before)
                &&& #[trigger] call_ensures(H::parse_file, (host, before, &files.last()), outcome)
                &&& crate::assembler::is_clean(outcome)
                &&& outcome.state == end
            };
        law_files_are_parsed_in_order(host, front, start, before);
        let (first, parsed) = choose|states: Seq<State>, outcomes: Seq<ParseOutcome>|
            {
                &&& #[trigger] are_parsed(host, front, states, outcomes)
                &&& states[0] == start
                &&& states[front.len() as int] == before
            };
        let states = first.push(end);
        let outcomes = parsed.push(outcome);
        assert forall|i: int| #![trigger outcomes[i]] 0 <= i < files.len() implies {
            &&& call_ensures(H::parse_file, (host, states[i], &files[i]), outcomes[i])
            &&& has_no_error(outcomes[i])
            &&& outcomes[i].state == states[i + 1]
        } by {
            if i < k {
                assert(outcomes[i] == parsed[i]);
                assert(front[i] == files[i]);
                assert(states[i] == first[i] && states[i + 1] == first[i + 1]);
            } else {
                assert(states[k] == before && states[k + 1] == end);
                assert(files.last() == files[k]);
            }
        }
        assert(are_parsed(host, files, states, outcomes));
    }
}

/// Whether the first bank with an error comes to `failed`, and those before it to `bits`.
pub open spec fn stops_at_bank<H: Host>(
    parsed: State,
    host: &H,
    bits: Seq<BitVecView>,
    failed: BankResolution,
) -> bool {
    let k = bits.len() as int;
    &&& k < parsed.banks@.len()
    &&& forall|i: int|
        #![trigger bits[i]]
        0 <= i < k ==> resolves_silently(parsed, host, i, bits[i])
    &&& bank_resolves(&parsed, host, parsed.banks@[k], parsed.bankdata@[k], failed)
    &&& failed.result is Err || failed.messages.len() > 0
}

/// Whether bank `i` comes to these bits, without a message.
pub open spec fn resolves_silently<H: Host>(
    parsed: State,
    host: &H,
    i: int,
    bits: BitVecView,
) -> bool {
    bank_resolves(
        &parsed,
        host,
        parsed.banks@[i],
        parsed.bankdata@[i],
        BankResolution { result: Ok(bits), messages: Seq::empty() },
    )
}

/// A pass that was not the last one, or that was but failed.
pub struct FailedPass {
    pub start: State,
    pub parsed: State,
    pub bits: Seq<BitVecView>,
    pub failed: BankResolution,
}

/// Whether a pass starts from nothing but the values that the symbols had in the pass
/// before, as the first one or not.
pub open spec fn is_fresh(start: State, is_first: bool, guesses: SymbolManager) -> bool {
    &&& start.is_initial()
    &&& start.is_first_pass == is_first
    &&& start.symbol_guesses == guesses
}

/// The values of the symbols before pass `i`: those of the pass before.
pub open spec fn guesses_before(
    passes: Seq<FailedPass>,
    guesses: SymbolManager,
    i: int,
) -> SymbolManager {
    if i == 0 {
        guesses
    } else {
        passes[i - 1].parsed.symbols
    }
}

/// Whether another pass may start like that after these.
pub open spec fn is_next(
    start: State,
    first: nat,
    guesses: SymbolManager,
    passes: Seq<FailedPass>,
) -> bool {
    is_fresh(
        start,
        first + passes.len() == 0,
        guesses_before(passes, guesses, passes.len() as int),
    )
}

/// Whether these passes, counted from `first` on, all failed for a bank.
pub open spec fn all_failed<H: Host>(
    host: &H,
    files: Seq<String>,
    first: nat,
    guesses: SymbolManager,
    passes: Seq<FailedPass>,
) -> bool {
    forall|i: int|
        #![trigger passes[i]]
        0 <= i < passes.len() ==> {
            &&& is_fresh(passes[i].start, first + i == 0, guesses_before(passes, guesses, i))
            &&& files_parse(host, files, passes[i].start, passes[i].parsed)
            &&& stops_at_bank(passes[i].parsed, host, passes[i].bits, passes[i].failed)
        }
}

/// Whether a file with an error ends the assembly: with its messages, in its state, and
/// without an output.
pub open spec fn ends_at_file<H: Host>(
    host: &H,
    files: Seq<String>,
    start: State,
    end: Assembly,
) -> bool {
    exists|k: int, before: State, outcome: ParseOutcome|
        {
            &&& 0 <= k < files.len()
            &&& files_parse(host, files.take(k), start, before)
            &&& #[trigger] call_ensures(H::parse_file, (host, before, &files[k]), outcome)
            &&& !has_no_error(outcome)
            &&& end.state == outcome.state
            &&& end.output is None
            &&& end.messages == messages(outcome.messages@)
        }
}

/// Whether the assembly ends with an output: all banks together, and the symbols, which
/// are taken out of the state.
pub open spec fn ends_with_output<H: Host>(host: &H, parsed: State, end: Assembly) -> bool {
    &&& exists|bits: Seq<BitVecView>|
        {
            &&& bits.len() == parsed.banks@.len()
            &&& forall|i: int|
                #![trigger bits[i]]
                0 <= i < bits.len() ==> resolves_silently(parsed, host, i, bits[i])
            &&& end.output == Some((#[trigger] combined(parsed.banks@, bits), parsed.symbols))
        }
    &&& end.messages.len() == 0
    &&& end.state.symbols.symbols@.len() == 0
    &&& end.state.banks == parsed.banks
    &&& end.state.bankdata == parsed.bankdata
    &&& end.state.rulesets == parsed.rulesets
    &&& end.state.active_rulesets == parsed.active_rulesets
    &&& end.state.symbol_guesses == parsed.symbol_guesses
    &&& end.state.is_first_pass == parsed.is_first_pass
    &&& end.state.cur_bank == parsed.cur_bank
    &&& end.state.cur_wordsize == parsed.cur_wordsize
    &&& end.state.cur_labelalign == parsed.cur_labelalign
}

/// Whether the passes, counted from `first` on, lead to that end: after some that failed
/// there is one that ends it, or the limit is reached and the last one says why.
pub open spec fn lead_to<H: Host>(
    host: &H,
    files: Seq<String>,
    first: nat,
    max_iterations: nat,
    guesses: SymbolManager,
    passes: Seq<FailedPass>,
    end: Assembly,
) -> bool {
    let n = passes.len() as int;
    &&& all_failed(host, files, first, guesses, passes)
    &&& n <= 1 || first + n <= max_iterations
    &&& {
        ||| {
            &&& n > 0
            &&& first + n >= max_iterations
            &&& end.output is None
            &&& end.state == passes[n - 1].parsed
            &&& end.messages == passes[n - 1].failed.messages
        }
        ||| {
            &&& n == 0 || first + n < max_iterations
            &&& exists|start: State|
                {
                    &&& #[trigger] is_next(start, first, guesses, passes)
                    &&& {
                        ||| ends_at_file(host, files, start, end)
                        ||| exists|parsed: State|
                            #[trigger] files_parse(host, files, start, parsed)
                                && ends_with_output(host, parsed, end)
                    }
                }
        }
    }
}

/// Passes are made until one of them succeeds or has an error in a file, or until there
/// were as many as allowed, but one at least. Each one starts from nothing but the symbols
/// of the one before.
pub proof fn law_passes_follow_each_other<H: Host>(
    host: &H,
    files: Seq<String>,
    first: nat,
    max_iterations: nat,
    guesses: SymbolManager,
    end: Assembly,
)
    requires
        assembles(host, files, first, max_iterations, guesses, end),
    ensures
        exists|passes: Seq<FailedPass>| #[trigger]
            lead_to(host, files, first, max_iterations, guesses, passes, end),
    decreases max_iterations - first,
{
    if pass_ends(host, files, first, guesses, end) {
        let passes = Seq::<FailedPass>::empty();
        lemma_pass_ends(host, files, first, guesses, end);
        assert(lead_to(host, files, first, max_iterations, guesses, passes, end));
    } else {
        let (parsed, failed) = lemma_failed_pass(
            host,
            files,
            first,
            max_iterations,
            guesses,
            end,
        );
        let (start, bits) = choose|start: State, bits: Seq<BitVecView>|
            {
                &&& #[trigger] pass_starts(start, first, guesses)
                &&& files_parse(host, files, start, parsed)
                &&& #[trigger] bank_fails(&parsed, host, bits, failed)
            };
        let pass = FailedPass { start, parsed, bits, failed };
        assert(stops_at_bank(parsed, host, bits, failed));
        if first + 1 >= max_iterations {
            let passes = seq![pass];
            assert(lead_to(host, files, first, max_iterations, guesses, passes, end));
        } else {
            law_passes_follow_each_other(
                host,
                files,
                first + 1,
                max_iterations,
                parsed.symbols,
                end,
            );
            let rest = choose|passes: Seq<FailedPass>| #[trigger]
                lead_to(host, files, first + 1, max_iterations, parsed.symbols, passes, end);
            let passes = seq![pass] + rest;
            assert forall|i: int| 0 < i <= passes.len() implies #[trigger] guesses_before(
                passes,
                guesses,
                i,
            ) == guesses_before(rest, parsed.symbols, i - 1) by {
                assert(passes[i - 1] == if i == 1 {
                    pass
                } else {
                    rest[i - 2]
                });
            }
            assert forall|i: int| #![trigger passes[i]] 0 <= i < passes.len() implies {
                &&& is_fresh(passes[i].start, first + i == 0, guesses_before(passes, guesses, i))
                &&& files_parse(host, files, passes[i].start, passes[i].parsed)
                &&& stops_at_bank(passes[i].parsed, host, passes[i].bits, passes[i].failed)
            } by {
                if i > 0 {
                    assert(passes[i] == rest[i - 1]);
                }
            }
            let n = passes.len() as int;
            assert(guesses_before(passes, guesses, n) == guesses_before(
                rest,
                parsed.symbols,
                n - 1,
            ));
            assert forall|next: State| #[trigger]
                is_next(next, first + 1, parsed.symbols, rest) implies is_next(
                next,
                first,
                guesses,
                passes,
            ) by {}
            assert(rest.len() > 0 ==> passes[n - 1] == rest[rest.len() - 1]);
            assert(lead_to(host, files, first, max_iterations, guesses, passes, end));
        }
    }
}

/// How a pass ends an assembly.
proof fn lemma_pass_ends<H: Host>(
    host: &H,
    files: Seq<String>,
    first: nat,
    guesses: SymbolManager,
    end: Assembly,
)
    requires
        pass_ends(host, files, first, guesses, end),
    ensures
        exists|start: State|
            {
                &&& #[trigger] is_next(start, first, guesses, Seq::empty())
                &&& {
                    ||| ends_at_file(host, files, start, end)
                    ||| exists|parsed: State|
                        #[trigger] files_parse(host, files, start, parsed) && ends_with_output(
                            host,
                            parsed,
                            end,
                        )
                }
            },
{
    let start = choose|start: State|
        {
            &&& #[trigger] pass_starts(start, first, guesses)
            &&& {
                ||| parse_ends(host, files, start, end)
                ||| exists|parsed: State|
                    #[trigger] files_parse(host, files, start, parsed) && banks_end(
                        host,
                        parsed,
                        end,
                    )
            }
        };
    assert(is_next(start, first, guesses, Seq::empty()));
    if parse_ends(host, files, start, end) {
        let (k, before, outcome) = choose|k: int, before: State, outcome: ParseOutcome|
            {
                &&& #[trigger] file_fails(host, files, start, k, before, outcome)
                &&& end == (Assembly {
                    state: outcome.state,
                    output: None,
                    messages: messages(outcome.messages@),
                })
            };
        assert(call_ensures(H::parse_file, (host, before, &files[k]), outcome));
        assert(ends_at_file(host, files, start, end));
    } else {
        let parsed = choose|parsed: State|
            #[trigger] files_parse(host, files, start, parsed) && banks_end(host, parsed, end);
        let bits = lemma_bank_bits(host, parsed, end);
        assert(files_parse(host, files, start, parsed));
        assert(end.output == Some((combined(parsed.banks@, bits), parsed.symbols)));
        assert(ends_with_output(host, parsed, end));
    }
}

/// A limit of passes that is reached without a success was used up, and a success needed
/// no more: the number of passes is at most the limit, and at least one.
pub proof fn law_limit_is_the_number_of_passes<H: Host>(
    host: &H,
    files: Seq<String>,
    max_iterations: nat,
    guesses: SymbolManager,
    passes: Seq<FailedPass>,
    end: Assembly,
)
    requires
        lead_to(host, files, 0, max_iterations, guesses, passes, end),
    ensures
        passes.len() <= max_iterations || passes.len() <= 1,
        end.output is Some ==> passes.len() == 0 || passes.len() < max_iterations,
        passes.len() == max_iterations && max_iterations > 0 ==> end.output is None,
{
}

/// Whether the output shows the banks: each position the last bank that takes it, or zero,
/// with as many positions as the banks need.
pub open spec fn shows_banks(banks: Seq<Bank>, bits: Seq<BitVecView>, output: Seq<bool>) -> bool {
    &&& forall|i: int, p: int|
        #![trigger covers(banks[i], bits[i], p)]
        0 <= i < bits.len() && covers(banks[i], bits[i], p) ==> p < output.len() && ((forall|j: int|
            i < j < bits.len() ==> !covers(banks[j], #[trigger] bits[j], p)) ==> output[p]
            == bits[i].bits[p - banks[i].output_offset->Some_0])
    &&& forall|p: int|
        0 <= p < output.len() && (forall|i: int|
            0 <= i < bits.len() ==> !covers(banks[i], #[trigger] bits[i], p))
            ==> !#[trigger] output[p]
    &&& output.len() > 0 ==> exists|i: int|
        0 <= i < bits.len() && covers(banks[i], #[trigger] bits[i], output.len() - 1)
}

/// The output shows the banks: what a bank puts into it is found where the bank says, unless
/// a later bank is there too, and there is nothing else.
pub proof fn law_output_shows_the_banks(banks: Seq<Bank>, bits: Seq<BitVecView>)
    requires
        bits.len() <= banks.len(),
    ensures
        shows_banks(banks, bits, combined(banks, bits).bits),
    decreases bits.len(),
{
    if bits.len() > 0 {
        let front = bits.drop_last();
        let k = bits.len() - 1;
        law_output_shows_the_banks(banks, front);
        let before = combined(banks, front).bits;
        let output = combined(banks, bits).bits;
        assert forall|i: int, p: int|
            #![trigger covers(banks[i], bits[i], p)]
            0 <= i < bits.len() && covers(banks[i], bits[i], p) implies p < output.len() && ((
        forall|j: int| i < j < bits.len() ==> !covers(banks[j], #[trigger] bits[j], p))
            ==> output[p] == bits[i].bits[p - banks[i].output_offset->Some_0]) by {
            if i < k {
                assert(front[i] == bits[i]);
                assert(covers(banks[i], front[i], p));
                if forall|j: int| i < j < bits.len() ==> !covers(banks[j], #[trigger] bits[j], p) {
                    assert(!covers(banks[k], bits[k], p));
                    assert forall|j: int| i < j < front.len() implies !covers(
                        banks[j],
                        #[trigger] front[j],
                        p,
                    ) by {
                        assert(front[j] == bits[j]);
                    }
                    assert(output[p] == before[p]);
                }
            }
        }
        assert forall|p: int|
            0 <= p < output.len() && (forall|i: int|
                0 <= i < bits.len() ==> !covers(
                    banks[i],
                    #[trigger] bits[i],
                    p,
                )) implies !#[trigger] output[p] by {
            assert(!covers(banks[k], bits[k], p));
            assert forall|i: int| 0 <= i < front.len() implies !covers(
                banks[i],
                #[trigger] front[i],
                p,
            ) by {
                assert(front[i] == bits[i]);
            }
            if p < before.len() {
                assert(!before[p]);
            }
        }
        if output.len() > 0 {
            if output.len() == before.len() {
                let i = choose|i: int|
                    0 <= i < front.len() && covers(
                        banks[i],
                        #[trigger] front[i],
                        before.len() - 1,
                    );
                assert(front[i] == bits[i]);
            } else {
                assert(covers(banks[k], bits[k], output.len() - 1));
            }
        }
    }
}

/// Whether the mark is the same, moved by the place of the bank in the output.
pub open spec fn is_moved(bank: Bank, own: BitSpanView, mark: BitSpanView) -> bool {
    &&& mark.size == own.size
    &&& mark.addr == own.addr
    &&& mark.span == own.span
    &&& match own.offset {
        None => mark.offset is None,
        Some(at) => {
            let to = at + (match bank.output_offset {
                Some(offset) => offset as int,
                None => 0,
            });
            to <= usize::MAX ==> (mark.offset matches Some(moved) && moved == to)
        },
    }
}

/// Whether the marks from `from` on, up to `to`, are those of a bank.
pub open spec fn are_marks_of(
    bank: Bank,
    own: Seq<BitSpanView>,
    marks: Seq<BitSpanView>,
    from: int,
    to: int,
) -> bool {
    &&& 0 <= from
    &&& to == from + own.len()
    &&& to <= marks.len()
    &&& forall|m: int|
        0 <= m < own.len() ==> is_moved(bank, #[trigger] own[m], marks[from + m])
}

/// Whether the marks are those of the banks, one bank after the other, starting at `cuts`.
pub open spec fn are_marks(
    banks: Seq<Bank>,
    bits: Seq<BitVecView>,
    marks: Seq<BitSpanView>,
    cuts: Seq<int>,
) -> bool {
    &&& cuts.len() == bits.len() + 1
    &&& cuts[0] == 0
    &&& cuts[bits.len() as int] == marks.len()
    &&& forall|i: int|
        #![trigger bits[i]]
        0 <= i < bits.len() ==> are_marks_of(
            banks[i],
            bits[i].spans,
            marks,
            cuts[i],
            cuts[i + 1],
        )
}

/// Every mark of every bank is in the output, moved to where the bank is, and there are no
/// others.
pub proof fn law_output_keeps_all_marks(banks: Seq<Bank>, bits: Seq<BitVecView>)
    requires
        bits.len() <= banks.len(),
    ensures
        exists|cuts: Seq<int>| #[trigger]
            are_marks(banks, bits, combined(banks, bits).spans, cuts),
    decreases bits.len(),
{
    let marks = combined(banks, bits).spans;
    if bits.len() == 0 {
        let cuts = seq![0int];
        assert(are_marks(banks, bits, marks, cuts));
    } else {
        let front = bits.drop_last();
        let k = bits.len() - 1;
        law_output_keeps_all_marks(banks, front);
        let before = combined(banks, front).spans;
        let first = choose|cuts: Seq<int>| #[trigger] are_marks(banks, front, before, cuts);
        let cuts = first.push(marks.len() as int);
        assert(marks.len() == before.len() + bits[k].spans.len());
        assert forall|i: int| #![trigger bits[i]] 0 <= i < bits.len() implies are_marks_of(
            banks[i],
            bits[i].spans,
            marks,
            cuts[i],
            cuts[i + 1],
        ) by {
            let own = bits[i].spans;
            if i < k {
                assert(front[i] == bits[i]);
                assert(cuts[i] == first[i] && cuts[i + 1] == first[i + 1]);
                assert(are_marks_of(banks[i], front[i].spans, before, first[i], first[i + 1]));
                assert forall|m: int| 0 <= m < own.len() implies is_moved(
                    banks[i],
                    #[trigger] own[m],
                    marks[cuts[i] + m],
                ) by {
                    assert(marks[cuts[i] + m] == before[first[i] + m]);
                }
            } else {
                assert(cuts[k] == before.len());
                assert(cuts[k + 1] == marks.len());
                assert forall|m: int| 0 <= m < own.len() implies is_moved(
                    banks[i],
                    #[trigger] own[m],
                    marks[cuts[i] + m],
                ) by {
                    assert(bits.last() == bits[k]);
                }
            }
        }
        assert(cuts[0] == first[0]);
        assert(cuts[bits.len() as int] == marks.len());
        assert(are_marks(banks, bits, marks, cuts));
    }
}

} // verus!
