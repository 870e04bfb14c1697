//! Assembling: passes over the source until all sizes agree.
use vstd::prelude::*;

use crate::bank::{Bank, BankData, Invocation};
use crate::bitvec::{BitSpanView, BitVec, BitVecView};
use crate::diagn::{enclosed_in, lemma_with_nothing, messages, MessageView, Report, ReportView};
use crate::expr::Resolution;
use crate::host::{Host, ParseOutcome};
use crate::output::{
    bank_bits, bank_resolves, filled, lemma_lines, BankResolution,
};
use crate::state::State;
use crate::symbol::SymbolManager;

verus! {

/// The files to assemble, and what they have defined.
pub struct Assembler {
    pub root_files: Vec<String>,
    pub state: State,
}

/// The assembled bits, and the symbols of the source.
pub struct AssemblyOutput {
    pub binary: BitVec,
    pub symbols: SymbolManager,
}

/// How an assembly ends: the state it leaves behind, the output if there is one,
/// and the messages.
pub struct Assembly {
    pub state: State,
    pub output: Option<(BitVecView, SymbolManager)>,
    pub messages: Seq<MessageView>,
}

/// Whether a file was parsed without an error.
pub open spec fn is_clean(outcome: ParseOutcome) -> bool {
    outcome.result is Ok && outcome.messages@.len() == 0
}

/// Whether parsing `files` one after the other, all without an error, may lead from
/// `start` to `end`.
pub open spec fn files_parse<H: Host>(
    host: &H,
    files: Seq<String>,
    start: State,
    end: State,
) -> bool
    decreases files.len(),
{
    if files.len() == 0 {
        end == start
    } else {
        exists|before: State, outcome: ParseOutcome|
            {
                &&& files_parse(host, files.drop_last(), start, before)
                &&& #[trigger] call_ensures(H::parse_file, (host, before, &files.last()), outcome)
                &&& is_clean(outcome)
                &&& outcome.state == end
            }
    }
}

/// Whether parsing `files` may end at file `k`, the first one with an error, which had
/// that outcome in the state `before`.
pub open spec fn file_fails<H: Host>(
    host: &H,
    files: Seq<String>,
    start: State,
    k: int,
    before: State,
    outcome: ParseOutcome,
) -> bool {
    &&& 0 <= k < files.len()
    &&& files_parse(host, files.take(k), start, before)
    &&& call_ensures(H::parse_file, (host, before, &files[k]), outcome)
    &&& !is_clean(outcome)
}

/// The output after one more bank: its bits go where the bank says, marks included.
/// A bank that is not part of the output has marks only.
pub open spec fn with_bank(output: BitVecView, bank: Bank, bits: BitVecView) -> BitVecView {
    match bank.output_offset {
        Some(offset) => output.write(offset as int, bits.bits).mark_from(offset, bits),
        None => output.mark_from(0, bits),
    }
}

/// The output that the first banks come to.
pub open spec fn combined(banks: Seq<Bank>, bits: Seq<BitVecView>) -> BitVecView
    decreases bits.len(),
{
    if bits.len() == 0 {
        BitVecView::empty()
    } else {
        with_bank(combined(banks, bits.drop_last()), banks[bits.len() - 1], bits.last())
    }
}

/// Whether the first banks of `state` may come to `bits`, without an error.
pub open spec fn banks_resolve<H: Host>(state: &State, host: &H, bits: Seq<BitVecView>) -> bool {
    &&& bits.len() <= state.banks@.len()
    &&& forall|i: int|
        #![trigger bits[i]]
        0 <= i < bits.len() ==> bank_resolves(
            state,
            host,
            state.banks@[i],
            state.bankdata@[i],
            BankResolution { result: Ok(bits[i]), messages: Seq::empty() },
        )
}

/// Whether the first bank of `state` with an error may come to `failed`.
pub open spec fn bank_fails<H: Host>(
    state: &State,
    host: &H,
    bits: Seq<BitVecView>,
    failed: BankResolution,
) -> bool {
    &&& banks_resolve(state, host, bits)
    &&& bits.len() < state.banks@.len()
    &&& bank_resolves(
        state,
        host,
        state.banks@[bits.len() as int],
        state.bankdata@[bits.len() as int],
        failed,
    )
    &&& failed.result is Err || failed.messages.len() > 0
}

/// Whether a pass starts from `start`: nothing is defined, and the symbols may have
/// the values that they had in the pass before.
pub open spec fn pass_starts(start: State, iteration: nat, guesses: SymbolManager) -> bool {
    &&& start.is_initial()
    &&& start.is_first_pass == (iteration == 0)
    &&& start.symbol_guesses == guesses
}

/// Whether a pass may end the assembly with `end`: a file has an error, or all banks
/// are resolved.
pub open spec fn pass_ends<H: Host>(
    host: &H,
    files: Seq<String>,
    iteration: nat,
    guesses: SymbolManager,
    end: Assembly,
) -> bool {
    exists|start: State|
        {
            &&& #[trigger] pass_starts(start, iteration, guesses)
            &&& {
                ||| parse_ends(host, files, start, end)
                ||| exists|parsed: State|
                    #[trigger] files_parse(host, files, start, parsed) && banks_end(
                        host,
                        parsed,
                        end,
                    )
            }
        }
}

/// Whether a pass may lead to the state `parsed`, in which a bank has an error.
pub open spec fn pass_fails<H: Host>(
    host: &H,
    files: Seq<String>,
    iteration: nat,
    guesses: SymbolManager,
    parsed: State,
    failed: BankResolution,
) -> bool {
    exists|start: State, bits: Seq<BitVecView>|
        {
            &&& #[trigger] pass_starts(start, iteration, guesses)
            &&& files_parse(host, files, start, parsed)
            &&& #[trigger] bank_fails(&parsed, host, bits, failed)
        }
}

/// Whether assembling `files` may end with `end`, when `iteration` passes were made
/// before and left `guesses` as the values of the symbols. A pass in which a bank has
/// an error is followed by another one, up to the limit.
pub open spec fn assembles<H: Host>(
    host: &H,
    files: Seq<String>,
    iteration: nat,
    max_iterations: nat,
    guesses: SymbolManager,
    end: Assembly,
) -> bool
    decreases max_iterations - iteration,
{
    ||| pass_ends(host, files, iteration, guesses, end)
    ||| exists|parsed: State, failed: BankResolution|
        {
            &&& #[trigger] pass_fails(host, files, iteration, guesses, parsed, failed)
            &&& if iteration + 1 >= max_iterations {
                end == (Assembly { state: parsed, output: None, messages: failed.messages })
            } else {
                assembles(host, files, iteration + 1, max_iterations, parsed.symbols, end)
            }
        }
}

/// Whether an assembly may end with `end` because a file has an error.
pub open spec fn parse_ends<H: Host>(
    host: &H,
    files: Seq<String>,
    start: State,
    end: Assembly,
) -> bool {
    exists|k: int, before: State, outcome: ParseOutcome|
        {
            &&& #[trigger] file_fails(host, files, start, k, before, outcome)
            &&& end == (Assembly {
                state: outcome.state,
                output: None,
                messages: messages(outcome.messages@),
            })
        }
}

/// Whether an assembly may end with `end` because all banks are resolved.
pub open spec fn banks_end<H: Host>(host: &H, parsed: State, end: Assembly) -> bool {
    exists|bits: Seq<BitVecView>|
        {
            &&& #[trigger] banks_resolve(&parsed, host, bits)
            &&& bits.len() == parsed.banks@.len()
            &&& end.output == Some((combined(parsed.banks@, bits), parsed.symbols))
            &&& end.messages.len() == 0
            &&& end.state.symbols.is_empty()
            &&& end.state == (State { symbols: end.state.symbols, ..parsed })
        }
}

impl State {
    /// Whether all banks can be resolved and put into the output.
    pub open spec fn can_resolve(self) -> bool {
        &&& self.banks@.len() <= self.bankdata@.len()
        &&& forall|i: int|
            #![trigger self.banks@[i]]
            0 <= i < self.banks@.len() ==> self.bankdata_ok(self.banks@[i], self.bankdata@[i])
                && State::output_fits(self.banks@[i], self.bankdata@[i])
    }

    /// Whether a machine word holds where each line of the bank ends in the output.
    pub open spec fn output_fits(bank: Bank, bankdata: BankData) -> bool {
        bank.output_offset matches Some(offset) ==> {
            &&& forall|i: int|
                #![trigger bankdata.invocations@[i]]
                0 <= i < bankdata.invocations@.len() ==> offset + bankdata.invocations@[i].end()
                    <= usize::MAX
            &&& bank.fill ==> (bank.bit_size() matches Some(size) ==> offset + size <= usize::MAX)
        }
    }
}

/// Whether `files`, if `host` parses all of them without an error, give a state that
/// can be resolved.
pub open spec fn parses_well<H: Host>(host: &H, files: Seq<String>) -> bool {
    forall|start: State, parsed: State|
        start.is_initial() && #[trigger] files_parse(host, files, start, parsed)
            ==> parsed.can_resolve()
}

/// Files parse well with a host that keeps every state such that it can be resolved.
pub proof fn lemma_parses_well<H: Host>(host: &H, files: Seq<String>)
    requires
        forall|state: State, filename: &String, outcome: ParseOutcome|
            state.can_resolve() && #[trigger] call_ensures(
                H::parse_file,
                (host, state, filename),
                outcome,
            ) && is_clean(outcome) ==> outcome.state.can_resolve(),
    ensures
        parses_well(host, files),
    decreases files.len(),
{
    if files.len() > 0 {
        lemma_parses_well(host, files.drop_last());
        assert forall|start: State, parsed: State|
            start.is_initial() && #[trigger] files_parse(
                host,
                files,
                start,
                parsed,
            ) implies parsed.can_resolve() by {
            let (before, outcome) = choose|before: State, outcome: ParseOutcome|
                {
                    &&& files_parse(host, files.drop_last(), start, before)
                    &&& #[trigger] call_ensures(
                        H::parse_file,
                        (host, before, &files.last()),
                        outcome,
                    )
                    &&& is_clean(outcome)
                    &&& outcome.state == parsed
                };
            assert(files_parse(host, files.drop_last(), start, before));
        }
    }
}

/// The bits and the marks of a bank lie where its lines do.
pub proof fn lemma_bank_bits_within(
    state: State,
    bank: Bank,
    invocs: Seq<Invocation>,
    values: Seq<Resolution>,
    limit: int,
)
    requires
        0 <= limit,
        values.len() <= invocs.len(),
        forall|i: int|
            #![trigger invocs[i]]
            0 <= i < values.len() ==> invocs[i].end() <= limit,
    ensures
        bank_bits(state, bank, invocs, values).bits.len() <= limit,
        spans_within(bank_bits(state, bank, invocs, values).spans, limit),
    decreases values.len(),
{
    if values.len() > 0 {
        let before = bank_bits(state, bank, invocs, values.drop_last());
        let after = bank_bits(state, bank, invocs, values);
        let invoc = invocs[values.len() - 1];
        lemma_bank_bits_within(state, bank, invocs, values.drop_last(), limit);
        assert(invoc.end() <= limit);
        assert forall|i: int| #![trigger after.spans[i]] 0 <= i < after.spans.len() implies (
        after.spans[i].offset matches Some(o) ==> o <= limit) by {
            if i < before.spans.len() {
                assert(after.spans[i] == before.spans[i]);
            }
        }
    }
}

/// Whether no marked run starts after `limit`.
pub open spec fn spans_within(spans: Seq<BitSpanView>, limit: int) -> bool {
    forall|i: int|
        #![trigger spans[i]]
        0 <= i < spans.len() ==> (spans[i].offset matches Some(o) ==> o <= limit)
}

/// What a bank comes to can be put into the output.
proof fn lemma_output_fits<H: Host>(
    state: &State,
    host: &H,
    bank: Bank,
    bankdata: BankData,
    bits: BitVecView,
)
    requires
        State::output_fits(bank, bankdata),
        bank_resolves(
            state,
            host,
            bank,
            bankdata,
            BankResolution { result: Ok(bits), messages: Seq::empty() },
        ),
    ensures
        bank.output_offset matches Some(offset) ==> offset + bits.bits.len() <= usize::MAX
            && bits.can_shift(offset),
{
    if let Some(offset) = bank.output_offset {
        let r = BankResolution { result: Ok(bits), messages: Seq::empty() };
        let invocs = bankdata.invocations@;
        let values = lemma_lines(state, host, bank, bankdata, r);
        lemma_bank_bits_within(*state, bank, invocs, values, usize::MAX - offset);
        assert(bits == filled(bank, bank_bits(*state, bank, invocs, values)));
        assert(bits.spans == bank_bits(*state, bank, invocs, values).spans);
    }
}

impl State {
    /// The output, if all banks can be resolved without an error. It is asked of a
    /// report without errors.
    pub fn resolve_banks<H: Host>(&self, report: &mut Report, host: &H) -> (r: Option<BitVec>)
        requires
            self.can_resolve(),
            old(report)@.messages.len() == 0,
        ensures
            match r {
                Some(output) => {
                    &&& exists|bits: Seq<BitVecView>|
                        {
                            &&& #[trigger] banks_resolve(self, host, bits)
                            &&& bits.len() == self.banks@.len()
                            &&& output@ == combined(self.banks@, bits)
                        }
                    &&& final(report)@ == old(report)@
                },
                None => exists|bits: Seq<BitVecView>, failed: BankResolution|
                    {
                        &&& #[trigger] bank_fails(self, host, bits, failed)
                        &&& final(report)@ == old(report)@.with(failed.messages)
                    },
            },
    {
        let mut full_output = BitVec::new();
        let ghost mut bits: Seq<BitVecView> = Seq::empty();

        let mut bank_index: usize = 0;
        while bank_index < self.banks.len()
            invariant
                bank_index <= self.banks@.len(),
                self.can_resolve(),
                old(report)@.messages.len() == 0,
                report@ == old(report)@,
                bits.len() == bank_index,
                banks_resolve(self, host, bits),
                full_output@ == combined(self.banks@, bits),
            decreases self.banks@.len() - bank_index,
        {
            let bank = &self.banks[bank_index];
            let bankdata = &self.bankdata[bank_index];
            assert(self.bankdata_ok(
                self.banks@[bank_index as int],
                self.bankdata@[bank_index as int],
            ));

            let bank_output = self.resolve_bankdata(report, bank, bankdata, host);
            let ghost b = choose|b: BankResolution|
                {
                    &&& #[trigger] bank_resolves(self, host, *bank, *bankdata, b)
                    &&& b.result == (match bank_output {
                        Ok(bitvec) => Ok(bitvec@),
                        Err(()) => Err(()),
                    })
                    &&& report@ == old(report)@.with(b.messages)
                };

            if report.has_errors() {
                assert(bank_fails(self, host, bits, b));
                return None;
            }
            assert(b.messages =~= Seq::empty());
            match bank_output {
                Ok(bank_output) => {
                    let ghost next = bits.push(bank_output@);
                    proof {
                        lemma_output_fits(self, host, *bank, *bankdata, bank_output@);
                        assert(next.drop_last() =~= bits);
                        assert forall|j: int|
                            #![trigger next[j]]
                            0 <= j < next.len() implies bank_resolves(
                            self,
                            host,
                            self.banks@[j],
                            self.bankdata@[j],
                            BankResolution { result: Ok(next[j]), messages: Seq::empty() },
                        ) by {
                            if j < bits.len() {
                                assert(next[j] == bits[j]);
                            }
                        }
                        bits = next;
                        lemma_with_nothing(old(report)@);
                    }
                    if let Some(output_offset) = bank.output_offset {
                        full_output.write_bitvec(output_offset, &bank_output);
                    } else {
                        full_output.mark_spans_from(0, &bank_output);
                    }
                },
                Err(()) => {
                    assert(bank_fails(self, host, bits, b));
                    return None;
                },
            }
            bank_index += 1;
        }
        Some(full_output)
    }
}

impl Assembler {
    /// An assembler without files.
    pub fn new() -> (r: Assembler)
        ensures
            r.root_files@.len() == 0,
            r.state.is_initial(),
            !r.state.is_first_pass,
            r.state.symbol_guesses.is_empty(),
    {
        Assembler { root_files: Vec::new(), state: State::new() }
    }

    /// Adds a file to assemble.
    pub fn register_file<S: Into<String>>(&mut self, filename: S)
        ensures
            exists|name: String|
                {
                    &&& #[trigger] call_ensures(<S as Into<String>>::into, (filename,), name)
                    &&& final(self).root_files@ == old(self).root_files@.push(name)
                },
            final(self).state == old(self).state,
    {
        let name: String = filename.into();
        self.root_files.push(name);
    }

    /// Assembles the files, in at most `max_iterations` passes, but at least one.
    pub fn assemble<H: Host>(
        &mut self,
        report: &mut Report,
        host: &H,
        max_iterations: usize,
    ) -> (r: Result<AssemblyOutput, ()>)
        requires
            parses_well(host, old(self).root_files@),
        ensures
            exists|guesses: SymbolManager, end: Assembly|
                {
                    &&& guesses.is_empty()
                    &&& #[trigger] assembles(
                        host,
                        old(self).root_files@,
                        0,
                        max_iterations as nat,
                        guesses,
                        end,
                    )
                    &&& end.output == (match r {
                        Ok(output) => Some((output.binary@, output.symbols)),
                        Err(()) => None,
                    })
                    &&& final(self).state == end.state
                    &&& final(report)@ == old(report)@.with(end.messages)
                },
            final(self).root_files == old(self).root_files,
    {
        let mut symbol_guesses = SymbolManager::new();
        let ghost files = self.root_files@;
        let ghost max = max_iterations as nat;
        let ghost none = symbol_guesses;

        let mut iteration: usize = 0;
        loop
            invariant
                parses_well(host, files),
                none.is_empty(),
                max == max_iterations,
                self.root_files == old(self).root_files,
                files == self.root_files@,
                report@ == old(report)@,
                iteration == 0 || iteration < max_iterations,
                forall|end: Assembly| #[trigger]
                    assembles(host, files, iteration as nat, max, symbol_guesses, end)
                        ==> assembles(host, files, 0, max, none, end),
            decreases max_iterations - iteration,
        {
            let ghost guesses = symbol_guesses;
            let ghost pass = iteration as nat;
            let mut state = State::new();
            state.is_first_pass = iteration == 0;
            std::mem::swap(&mut state.symbol_guesses, &mut symbol_guesses);
            let ghost start = state;
            assert(pass_starts(start, pass, guesses));

            iteration += 1;

            let mut pass_report = Report::new();

            let mut i: usize = 0;
            assert(files.take(0) =~= Seq::empty());
            while i < self.root_files.len()
                invariant
                    i <= files.len(),
                    files == self.root_files@,
                    files_parse(host, files.take(i as int), start, state),
                    pass_report@ == ReportView::empty(),
                    pass_starts(start, pass, guesses),
                    none.is_empty(),
                    max == max_iterations,
                    self.root_files == old(self).root_files,
                    report@ == old(report)@,
                    forall|end: Assembly| #[trigger]
                        assembles(host, files, pass, max, guesses, end) ==> assembles(
                            host,
                            files,
                            0,
                            max,
                            none,
                            end,
                        ),
                decreases files.len() - i,
            {
                let ghost before = state;
                let outcome = host.parse_file(state, &self.root_files[i]);
                let ghost all = outcome;
                let ParseOutcome { state: parsed, result, messages } = outcome;
                state = parsed;
                pass_report.absorb(messages);
                proof {
                    lemma_fresh_report(all);
                }
                if pass_report.has_errors() || result.is_err() {
                    proof {
                        let end = Assembly {
                            state,
                            output: None,
                            messages: crate::diagn::messages(all.messages@),
                        };
                        assert(file_fails(host, files, start, i as int, before, all));
                        assert(parse_ends(host, files, start, end));
                        assert(pass_ends(host, files, pass, guesses, end));
                        assert(assembles(host, files, pass, max, guesses, end));
                    }
                    self.state = state;
                    pass_report.transfer_to(report);
                    return Err(());
                }
                proof {
                    let next = files.take(i + 1);
                    assert(next.drop_last() =~= files.take(i as int));
                    assert(next.last() == files[i as int]);
                    assert(files_parse(host, next, start, state));
                }
                i += 1;
            }
            assert(files.take(i as int) =~= files);

            let resolved = state.resolve_banks(&mut pass_report, host);

            if let Some(full_output) = resolved {
                let ghost parsed = state;
                let mut symbols = SymbolManager::new();
                std::mem::swap(&mut state.symbols, &mut symbols);
                proof {
                    let end = Assembly {
                        state,
                        output: Some((full_output@, symbols)),
                        messages: Seq::empty(),
                    };
                    let bits = choose|bits: Seq<BitVecView>|
                        {
                            &&& #[trigger] banks_resolve(&parsed, host, bits)
                            &&& bits.len() == parsed.banks@.len()
                            &&& full_output@ == combined(parsed.banks@, bits)
                        };
                    assert(banks_resolve(&parsed, host, bits));
                    assert(banks_end(host, parsed, end));
                    assert(files_parse(host, files, start, parsed));
                    assert(pass_ends(host, files, pass, guesses, end));
                    assert(assembles(host, files, pass, max, guesses, end));
                    lemma_with_nothing(report@);
                    assert(assembles(host, files, 0, max, none, end));
                }
                self.state = state;
                pass_report.transfer_to(report);
                return Ok(AssemblyOutput { binary: full_output, symbols });
            }
            let ghost (bits, failed) = choose|bits: Seq<BitVecView>, failed: BankResolution|
                {
                    &&& #[trigger] bank_fails(&state, host, bits, failed)
                    &&& pass_report@ == ReportView::empty().with(failed.messages)
                };
            assert(pass_fails(host, files, pass, guesses, state, failed));
            if iteration >= max_iterations {
                proof {
                    let end = Assembly { state, output: None, messages: failed.messages };
                    assert(assembles(host, files, pass, max, guesses, end));
                    lemma_own_messages(failed.messages);
                    assert(assembles(host, files, 0, max, none, end));
                }
                self.state = state;
                pass_report.transfer_to(report);
                return Err(());
            }
            let ghost parsed = state;
            std::mem::swap(&mut symbol_guesses, &mut state.symbols);
            proof {
                assert forall|end: Assembly| #[trigger]
                    assembles(
                        host,
                        files,
                        iteration as nat,
                        max,
                        symbol_guesses,
                        end,
                    ) implies assembles(host, files, 0, max, none, end) by {
                    assert(pass_fails(host, files, pass, guesses, parsed, failed));
                    assert(assembles(host, files, pass, max, guesses, end));
                }
            }
        }
    }
}

/// The pass that failed, where an assembly does not end with the first one.
pub proof fn lemma_failed_pass<H: Host>(
    host: &H,
    files: Seq<String>,
    iteration: nat,
    max_iterations: nat,
    guesses: SymbolManager,
    end: Assembly,
) -> (pass: (State, BankResolution))
    requires
        assembles(host, files, iteration, max_iterations, guesses, end),
        !pass_ends(host, files, iteration, guesses, end),
    ensures
        pass_fails(host, files, iteration, guesses, pass.0, pass.1),
        iteration + 1 >= max_iterations ==> end == (Assembly {
            state: pass.0,
            output: None,
            messages: pass.1.messages,
        }),
        iteration + 1 < max_iterations ==> assembles(
            host,
            files,
            iteration + 1,
            max_iterations,
            pass.0.symbols,
            end,
        ),
{
    choose|parsed: State, failed: BankResolution|
        {
            &&& #[trigger] pass_fails(host, files, iteration, guesses, parsed, failed)
            &&& if iteration + 1 >= max_iterations {
                end == (Assembly { state: parsed, output: None, messages: failed.messages })
            } else {
                assembles(host, files, iteration + 1, max_iterations, parsed.symbols, end)
            }
        }
}

/// The bits of the banks behind the output of a successful assembly.
pub proof fn lemma_bank_bits<H: Host>(host: &H, parsed: State, end: Assembly) -> (bits: Seq<
    BitVecView,
>)
    requires
        banks_end(host, parsed, end),
    ensures
        banks_resolve(&parsed, host, bits),
        bits.len() == parsed.banks@.len(),
        end.output == Some((combined(parsed.banks@, bits), parsed.symbols)),
{
    choose|bits: Seq<BitVecView>|
        {
            &&& #[trigger] banks_resolve(&parsed, host, bits)
            &&& bits.len() == parsed.banks@.len()
            &&& end.output == Some((combined(parsed.banks@, bits), parsed.symbols))
            &&& end.messages.len() == 0
            &&& end.state.symbols.is_empty()
            &&& end.state == (State { symbols: end.state.symbols, ..parsed })
        }
}

/// A report without notes holds messages as they are.
proof fn lemma_own_messages(all: Seq<MessageView>)
    ensures
        ReportView::empty().with(all).messages == all,
{
    assert forall|i: int| 0 <= i < all.len() implies #[trigger] enclosed_in(
        Seq::empty(),
        all,
    )[i] == all[i] by {
        assert(Seq::empty() + all[i].parents =~= all[i].parents);
    }
    assert(ReportView::empty().with(all).messages =~= all);
}

/// What a report holds after a file was parsed.
proof fn lemma_fresh_report(outcome: ParseOutcome)
    ensures
        ReportView::empty().with(messages(outcome.messages@)).messages == messages(
            outcome.messages@,
        ),
        outcome.messages@.len() == 0 ==> ReportView::empty().with(messages(outcome.messages@))
            == ReportView::empty(),
{
    lemma_own_messages(messages(outcome.messages@));
    if outcome.messages@.len() == 0 {
        assert(messages(outcome.messages@) =~= Seq::empty());
        lemma_with_nothing(ReportView::empty());
    }
}

} // verus!
