//! What holds of an assembly as a whole.
use vstd::arithmetic::power2::{lemma_pow2_pos, lemma_pow2_unfold, pow2};
use vstd::prelude::*;

use crate::assembler::{
    assembles, banks_end, banks_resolve, combined, files_parse, lemma_bank_bits,
    lemma_failed_pass, pass_ends, pass_starts, Assembly,
};
use crate::bank::{Bank, BankData, Invocation};
use crate::bigint::{byte_bits, sized_integer};
use crate::bits::{lemma_bit_of_step, lemma_low_bits_value, low_bits, unsigned_value};
use crate::bitvec::BitVecView;
use crate::constrain::argument_fits;
use crate::diagn::{error, Span};
use crate::eval::{digit_bits, is_spacing, names_address};
use crate::expr::{Resolution, ValueView};
use crate::host::{Host, ScopeView};
use crate::output::{
    bank_bits, bank_messages, bank_resolves, filled, lemma_lines, line_messages, lines_resolve,
    placed, placement_error, BankResolution,
};
use crate::repeat::{evaluates_one_way, law_candidate_resolves_one_way, lemma_only_success};
use crate::resolve::{
    candidate_resolves, candidates_resolve, is_only_success, lemma_tries, no_success,
    several_successes,
};
use crate::ruleset::{PatternParameterType, RuleInvocationCandidate};
use crate::state::{is_first_named, Context, State};
use crate::symbol::SymbolManager;

pub mod lines;
pub mod matching;
pub mod names;
pub mod numbers;
pub mod passes;
pub mod regions;
pub mod reports;
pub mod sizes;
pub mod validity;

verus! {

/// Whether the bank may put a bit at that position of the output.
pub open spec fn claims(bank: Bank, position: int) -> bool {
    bank.output_offset matches Some(offset) && offset <= position && (
    bank.addr_size matches Some(words) ==> position < offset + words * bank.wordsize)
}

/// Overlapping is mutual.
pub proof fn law_overlap_is_mutual(a: Bank, b: Bank)
    ensures
        a.overlaps(b) == b.overlaps(a),
{
}

/// Banks that do not overlap share no position of the output.
pub proof fn law_apart_banks_share_no_bit(a: Bank, b: Bank, position: int)
    requires
        !a.overlaps(b),
    ensures
        !(claims(a, position) && claims(b, position)),
{
}

/// A bank that was created under a new name is found under it.
pub proof fn law_created_bank_is_found(state: State, after: State, bank: Bank)
    requires
        after.banks@ == state.banks@.push(bank),
        !state.bank_names().contains(bank.name@),
    ensures
        is_first_named(after.bank_names(), bank.name@, state.banks@.len() as int),
{
    let names = after.bank_names();
    assert(names[state.banks@.len() as int] == bank.name@);
    assert forall|j: int| 0 <= j < state.banks@.len() implies names[j] != bank.name@ by {
        assert(names[j] == state.bank_names()[j]);
    }
}

/// The words before a position that is at an address are the bits before it.
pub proof fn law_address_counts_words(state: State, ctx: Context)
    requires
        state.has_place(ctx),
        state.excess_bits(ctx) == 0,
    ensures
        (state.addr_of(ctx).value - state.banks@[ctx.bank_ref.index as int].addr_start@.value)
            * ctx.cur_wordsize == ctx.bit_offset,
{
    let w = ctx.cur_wordsize as int;
    let o = ctx.bit_offset as int;
    vstd::arithmetic::div_mod::lemma_fundamental_div_mod(o, w);
    assert((o / w) * w == o) by (nonlinear_arith)
        requires
            o == w * (o / w) + o % w,
            o % w == 0,
    ;
}

/// In the final pass, what a variable stands for does not depend on earlier passes.
pub proof fn law_final_pass_needs_no_guess(
    a: State,
    b: State,
    ctx: Context,
    level: usize,
    names: Seq<Seq<char>>,
)
    requires
        a.banks == b.banks,
        a.symbols == b.symbols,
    ensures
        a.variable(ctx, level, names, true) == b.variable(ctx, level, names, true),
{
}

/// A symbol that is defined has the same value in every pass.
pub proof fn law_defined_symbol_is_fixed(
    state: State,
    ctx: Context,
    level: usize,
    names: Seq<Seq<char>>,
)
    requires
        state.symbols.lookup(ctx.symbol_ctx@, level, names) is Some,
    ensures
        state.variable(ctx, level, names, false) == state.variable(ctx, level, names, true),
{
}

/// In the first pass every variable stands for something, unless it is the address
/// of a position between two addresses.
pub proof fn law_first_pass_knows_all_names(
    state: State,
    ctx: Context,
    level: usize,
    names: Seq<Seq<char>>,
)
    requires
        state.is_first_pass,
        names_address(level, names) ==> state.excess_bits(ctx) == 0,
    ensures
        state.variable(ctx, level, names, false) is Ok,
{
}

/// The low bits of the number that some bits spell are those bits.
pub proof fn law_bits_come_back(bits: Seq<bool>)
    ensures
        low_bits(unsigned_value(bits) as int, bits.len()) == bits,
    decreases bits.len(),
{
    let n = bits.len();
    let value = unsigned_value(bits) as int;
    if n > 0 {
        let front = bits.drop_last();
        law_bits_come_back(front);
        assert(value / 2 == unsigned_value(front));
        assert forall|i: int| 0 <= i < n implies low_bits(value, n)[i] == bits[i] by {
            if i < n - 1 {
                lemma_bit_of_step(value, (n - 2 - i) as nat);
                assert((n - 1 - i) as nat == (n - 2 - i) as nat + 1);
                assert(low_bits(unsigned_value(front) as int, front.len())[i] == front[i]);
            } else {
                lemma_bit_of_step(value, 0);
            }
        }
    }
    assert(low_bits(value, n) =~= bits);
}

/// Two numbers that both fit an unsigned or a signed type have different bits.
pub proof fn law_argument_bits_differ(typ: PatternParameterType, size: usize, a: int, b: int)
    requires
        typ == PatternParameterType::Unsigned(size) || typ == PatternParameterType::Signed(size),
        argument_fits(typ, a),
        argument_fits(typ, b),
        a != b,
    ensures
        low_bits(a, size as nat) != low_bits(b, size as nat),
{
    let p = pow2(size as nat) as int;
    lemma_pow2_unfold(size as nat);
    lemma_pow2_pos((size - 1) as nat);
    lemma_low_bits_value(a, size as nat);
    lemma_low_bits_value(b, size as nat);
    if a % p == b % p {
        vstd::arithmetic::div_mod::lemma_fundamental_div_mod(a, p);
        vstd::arithmetic::div_mod::lemma_fundamental_div_mod(b, p);
        assert(a - b == p * (a / p - b / p)) by (nonlinear_arith)
            requires
                a == p * (a / p) + a % p,
                b == p * (b / p) + b % p,
                a % p == b % p,
        ;
        assert(a == b) by (nonlinear_arith)
            requires
                a - b == p * (a / p - b / p),
                -p < a - b < p,
        ;
    }
}

/// A value that is put in its place is read back from there, and all other bits stay
/// what they were.
pub proof fn law_placed_value_reads_back(
    state: State,
    bank: Bank,
    invoc: Invocation,
    value: ValueView,
    before: BitVecView,
    position: int,
)
    requires
        placement_error(bank, invoc, value) is None,
        0 <= position,
    ensures
        value is Integer,
        ({
            let after = placed(state, bank, invoc, value, before);
            let start = invoc.ctx.bit_offset as int;
            &&& after.bits.len() >= before.bits.len()
            &&& start <= position < start + invoc.size_guess ==> {
                &&& position < after.bits.len()
                &&& after.bits[position] == low_bits(
                    value->Integer_0.value,
                    invoc.size_guess as nat,
                )[position - start]
            }
            &&& !(start <= position < start + invoc.size_guess) && position < before.bits.len()
                ==> after.bits[position] == before.bits[position]
        }),
{
}

/// A file of bytes that is put in its place is found there bit for bit.
pub proof fn law_file_bytes_are_kept(
    state: State,
    bank: Bank,
    invoc: Invocation,
    bytes: Seq<u8>,
    before: BitVecView,
    i: int,
)
    requires
        byte_bits(bytes).len() <= usize::MAX,
        placement_error(bank, invoc, ValueView::Integer(sized_integer(byte_bits(bytes)))) is None,
        0 <= i < byte_bits(bytes).len(),
    ensures
        placed(
            state,
            bank,
            invoc,
            ValueView::Integer(sized_integer(byte_bits(bytes))),
            before,
        ).bits[invoc.ctx.bit_offset + i] == byte_bits(bytes)[i],
{
    law_bits_come_back(byte_bits(bytes));
}

/// A bank with a limit holds no more bits than that, and exactly as many if it is
/// filled.
pub proof fn law_bank_stays_within_its_size<H: Host>(
    state: &State,
    host: &H,
    bank: Bank,
    bankdata: BankData,
    r: BankResolution,
    size: int,
)
    requires
        bank_resolves(state, host, bank, bankdata, r),
        bank.bit_size() == Some(size),
    ensures
        r.result matches Ok(bits) ==> bits.bits.len() <= size && (bank.fill ==> bits.bits.len()
            == size),
{
    let invocs = bankdata.invocations@;
    let values = lemma_lines(state, host, bank, bankdata, r);
    assert(size >= 0) by (nonlinear_arith)
        requires
            size == bank.addr_size->Some_0 * bank.wordsize,
    ;
    lemma_bits_within_size(*state, bank, invocs, values, size);
}

/// The bits of the first lines of a bank are not beyond its limit.
proof fn lemma_bits_within_size(
    state: State,
    bank: Bank,
    invocs: Seq<Invocation>,
    values: Seq<Resolution>,
    size: int,
)
    requires
        0 <= size,
        bank.bit_size() == Some(size),
    ensures
        bank_bits(state, bank, invocs, values).bits.len() <= size,
    decreases values.len(),
{
    if values.len() > 0 {
        lemma_bits_within_size(state, bank, invocs, values.drop_last(), size);
    }
}

/// Whether the bits of a bank take that position of the output.
pub open spec fn covers(bank: Bank, bits: BitVecView, position: int) -> bool {
    bank.output_offset matches Some(offset) && offset <= position < offset + bits.bits.len()
}

/// Whether the banks keep to their sizes and out of each other's way. Of the default
/// bank, which may be declared to overlap others, this is asked of its bits.
pub open spec fn banks_apart(banks: Seq<Bank>, bits: Seq<BitVecView>) -> bool {
    &&& bits.len() <= banks.len()
    &&& forall|i: int|
        #![trigger bits[i]]
        0 <= i < bits.len() ==> (banks[i].bit_size() matches Some(size) ==> bits[i].bits.len()
            <= size)
    &&& forall|i: int, j: int|
        1 <= i < j < bits.len() ==> !(#[trigger] banks[i]).overlaps(#[trigger] banks[j])
    &&& default_apart(banks, bits)
}

/// Whether the bits of the default bank are at no position that another bank takes.
pub open spec fn default_apart(banks: Seq<Bank>, bits: Seq<BitVecView>) -> bool {
    forall|j: int, position: int|
        1 <= j < bits.len() && covers(banks[0], bits[0], position) ==> !(#[trigger] covers(
            banks[j],
            bits[j],
            position,
        ))
}

/// Every bank is found in the output where it belongs, bit for bit, and what no bank
/// takes is zero.
pub proof fn law_output_holds_every_bank(
    banks: Seq<Bank>,
    bits: Seq<BitVecView>,
    position: int,
)
    requires
        banks_apart(banks, bits),
        0 <= position,
    ensures
        forall|i: int|
            0 <= i < bits.len() && covers(#[trigger] banks[i], bits[i], position) ==> {
                &&& position < combined(banks, bits).bits.len()
                &&& combined(banks, bits).bits[position] == bits[i].bits[position
                    - banks[i].output_offset->Some_0]
            },
        position < combined(banks, bits).bits.len() && is_free(banks, bits, position)
            ==> !combined(banks, bits).bits[position],
    decreases bits.len(),
{
    if bits.len() > 0 {
        let front = bits.drop_last();
        let k = bits.len() - 1;
        assert(banks_apart(banks, front)) by {
            assert forall|i: int|
                #![trigger front[i]]
                0 <= i < front.len() implies (banks[i].bit_size() matches Some(size)
                ==> front[i].bits.len() <= size) by {
                assert(front[i] == bits[i]);
            }
        }
        law_output_holds_every_bank(banks, front, position);
        let before = combined(banks, front);
        let after = combined(banks, bits);
        assert forall|i: int|
            0 <= i < bits.len() && covers(#[trigger] banks[i], bits[i], position) implies {
            &&& position < after.bits.len()
            &&& after.bits[position] == bits[i].bits[position - banks[i].output_offset->Some_0]
        } by {
            if i < k {
                assert(front[i] == bits[i]);
                assert(covers(banks[i], front[i], position));
                if covers(banks[k], bits[k], position) {
                    if i > 0 {
                        assert(!banks[i].overlaps(banks[k]));
                        law_apart_banks_share_no_bit(banks[i], banks[k], position);
                        assert(claims(banks[i], position)) by {
                            assert(bits[i].bits.len() >= 0);
                        }
                        assert(claims(banks[k], position));
                    }
                }
            }
        }
        if position < after.bits.len() && is_free(banks, bits, position) {
            assert(!covers(banks[k], bits[k], position));
            assert forall|i: int| 0 <= i < front.len() implies !covers(
                #[trigger] banks[i],
                front[i],
                position,
            ) by {
                assert(front[i] == bits[i]);
                assert(!covers(banks[i], bits[i], position));
            }
        }
    }
}

/// The output of a successful assembly holds every bank where it belongs, and zeros in
/// between, provided that the banks do not overlap and that the default bank is out of
/// the way of others.
pub proof fn law_assembled_output_holds_every_bank<H: Host>(
    host: &H,
    parsed: State,
    end: Assembly,
)
    requires
        banks_end(host, parsed, end),
        parsed.outputs_disjoint(),
    ensures
        exists|bits: Seq<BitVecView>|
            {
                &&& #[trigger] banks_resolve(&parsed, host, bits)
                &&& bits.len() == parsed.banks@.len()
                &&& end.output == Some((combined(parsed.banks@, bits), parsed.symbols))
                &&& default_apart(parsed.banks@, bits) ==> holds_banks(
                    end.output->Some_0.0,
                    parsed.banks@,
                    bits,
                )
            },
{
    let bits = lemma_bank_bits(host, parsed, end);
    let output = combined(parsed.banks@, bits);
    assert forall|i: int| #![trigger bits[i]] 0 <= i < bits.len() implies (
    parsed.banks@[i].bit_size() matches Some(size) ==> bits[i].bits.len() <= size) by {
        if let Some(size) = parsed.banks@[i].bit_size() {
            law_bank_stays_within_its_size(
                &parsed,
                host,
                parsed.banks@[i],
                parsed.bankdata@[i],
                BankResolution { result: Ok(bits[i]), messages: Seq::empty() },
                size,
            );
        }
    }
    if default_apart(parsed.banks@, bits) {
        assert(banks_apart(parsed.banks@, bits));
        assert forall|i: int, position: int|
            0 <= i < bits.len() && #[trigger] covers(parsed.banks@[i], bits[i], position) implies {
            &&& position < output.bits.len()
            &&& output.bits[position] == bits[i].bits[position
                - parsed.banks@[i].output_offset->Some_0]
        } by {
            law_output_holds_every_bank(parsed.banks@, bits, position);
        }
        assert forall|position: int|
            0 <= position < output.bits.len() && is_free(
                parsed.banks@,
                bits,
                position,
            ) implies !#[trigger] output.bits[position] by {
            law_output_holds_every_bank(parsed.banks@, bits, position);
        }
    }
}

/// Whether the bits of no bank take that position of the output.
pub open spec fn is_free(banks: Seq<Bank>, bits: Seq<BitVecView>, position: int) -> bool {
    forall|i: int| 0 <= i < bits.len() ==> !covers(#[trigger] banks[i], bits[i], position)
}

/// Whether the bits of every bank are in the output where the bank says, with zeros
/// in between.
pub open spec fn holds_banks(
    output: BitVecView,
    banks: Seq<Bank>,
    bits: Seq<BitVecView>,
) -> bool {
    &&& forall|i: int, position: int|
        0 <= i < bits.len() && #[trigger] covers(banks[i], bits[i], position) ==> {
            &&& position < output.bits.len()
            &&& output.bits[position] == bits[i].bits[position - banks[i].output_offset->Some_0]
        }
    &&& forall|position: int|
        0 <= position < output.bits.len() && is_free(banks, bits, position)
            ==> !#[trigger] output.bits[position]
}

/// A successful assembly has no messages.
pub proof fn law_success_is_silent<H: Host>(
    host: &H,
    files: Seq<String>,
    iteration: nat,
    max_iterations: nat,
    guesses: SymbolManager,
    end: Assembly,
)
    requires
        assembles(host, files, iteration, max_iterations, guesses, end),
        end.output is Some,
    ensures
        end.messages.len() == 0,
    decreases max_iterations - iteration,
{
    if !pass_ends(host, files, iteration, guesses, end) {
        let (parsed, failed) = lemma_failed_pass(
            host,
            files,
            iteration,
            max_iterations,
            guesses,
            end,
        );
        law_success_is_silent(
            host,
            files,
            iteration + 1,
            max_iterations,
            parsed.symbols,
            end,
        );
    }
}

/// What succeeds within some number of passes succeeds if more are allowed.
pub proof fn law_more_passes_do_no_harm<H: Host>(
    host: &H,
    files: Seq<String>,
    iteration: nat,
    max_iterations: nat,
    more: nat,
    guesses: SymbolManager,
    end: Assembly,
)
    requires
        assembles(host, files, iteration, max_iterations, guesses, end),
        end.output is Some,
        max_iterations <= more,
    ensures
        assembles(host, files, iteration, more, guesses, end),
    decreases max_iterations - iteration,
{
    if !pass_ends(host, files, iteration, guesses, end) {
        let (parsed, failed) = lemma_failed_pass(
            host,
            files,
            iteration,
            max_iterations,
            guesses,
            end,
        );
        law_more_passes_do_no_harm(
            host,
            files,
            iteration + 1,
            max_iterations,
            more,
            parsed.symbols,
            end,
        );
    }
}

/// Whether every instruction and every data element is a number of the expected size,
/// inside the bank.
pub open spec fn has_converged(
    bank: Bank,
    invocs: Seq<Invocation>,
    values: Seq<Resolution>,
) -> bool {
    forall|i: int|
        #![trigger values[i]]
        0 <= i < values.len() && !(invocs[i].kind is Label) ==> {
            &&& values[i].result matches Ok(ValueView::Integer(n))
            &&& n.size == Some(invocs[i].size_guess)
            &&& !bank.exceeded_by(invocs[i].ctx.bit_offset, invocs[i].size_guess)
        }
}

/// Whether a bank may come to `bits` with every instruction and every data element a
/// number of the expected size, inside the bank.
pub open spec fn converges<H: Host>(
    state: &State,
    host: &H,
    bank: Bank,
    bankdata: BankData,
    bits: BitVecView,
) -> bool {
    exists|values: Seq<Resolution>|
        {
            &&& #[trigger] lines_resolve(state, host, bankdata.invocations@, values)
            &&& values.len() == bankdata.invocations@.len()
            &&& bits == filled(bank, bank_bits(*state, bank, bankdata.invocations@, values))
            &&& has_converged(bank, bankdata.invocations@, values)
        }
}

/// A bank without messages has converged: every instruction and every data element is
/// a number of just the size that the addresses after it rest on, inside the bank.
pub proof fn law_silent_bank_has_converged<H: Host>(
    state: &State,
    host: &H,
    bank: Bank,
    bankdata: BankData,
    bits: BitVecView,
)
    requires
        bank_resolves(
            state,
            host,
            bank,
            bankdata,
            BankResolution { result: Ok(bits), messages: Seq::empty() },
        ),
    ensures
        converges(state, host, bank, bankdata, bits),
{
    let invocs = bankdata.invocations@;
    let r = BankResolution { result: Ok(bits), messages: Seq::empty() };
    let values = lemma_lines(state, host, bank, bankdata, r);
    assert forall|i: int| #![trigger values[i]] 0 <= i < values.len() implies values[i].result is Ok by {
        if i == values.len() - 1 {
            assert(values[i] == values.last());
        }
    }
    lemma_silent_lines(bank, invocs, values);
}

/// Lines with a value but without messages have the expected sizes.
proof fn lemma_silent_lines(bank: Bank, invocs: Seq<Invocation>, values: Seq<Resolution>)
    requires
        bank_messages(bank, invocs, values).len() == 0,
        forall|i: int| #![trigger values[i]] 0 <= i < values.len() ==> values[i].result is Ok,
    ensures
        has_converged(bank, invocs, values),
    decreases values.len(),
{
    if values.len() > 0 {
        let front = values.drop_last();
        let k = values.len() - 1;
        assert(line_messages(bank, invocs[k], values[k]).len() == 0);
        assert forall|i: int| #![trigger front[i]] 0 <= i < front.len() implies front[i].result is Ok by {
            assert(front[i] == values[i]);
        }
        lemma_silent_lines(bank, invocs, front);
        assert forall|i: int|
            #![trigger values[i]]
            0 <= i < values.len() && !(invocs[i].kind is Label) implies {
            &&& values[i].result matches Ok(ValueView::Integer(n))
            &&& n.size == Some(invocs[i].size_guess)
            &&& !bank.exceeded_by(invocs[i].ctx.bit_offset, invocs[i].size_guess)
        } by {
            if i < k {
                assert(front[i] == values[i]);
            } else {
                assert(placement_error(bank, invocs[k], values[k].result->Ok_0) is None);
            }
        }
    }
}

/// In the final pass, an instruction that has a value has it from one candidate, while
/// every other one came to no value when it was tried. Where expressions always come to
/// the same, no other one ever matches.
pub proof fn law_final_match_is_unique<H: Host>(
    scope: ScopeView<'_, H>,
    span: Span,
    candidates: Seq<RuleInvocationCandidate>,
    r: Resolution,
)
    requires
        scope.final_pass,
        candidates_resolve(scope, span, candidates, r),
        r.result is Ok,
    ensures
        exists|k: int|
            {
                &&& 0 <= k < candidates.len()
                &&& candidate_resolves(scope, span, #[trigger] candidates[k], r)
                &&& forall|i: int|
                    0 <= i < candidates.len() && i != k ==> {
                        &&& may_fail(scope, span, #[trigger] candidates[i])
                        &&& evaluates_one_way(scope) ==> never_matches(scope, span, candidates[i])
                    }
            },
{
    if candidates.len() == 1 {
        assert(candidate_resolves(scope, span, candidates[0], r));
    } else {
        let (tries, again) = lemma_tries(scope, span, candidates, r);
        let k = lemma_only_success(tries);
        assert(candidate_resolves(scope, span, candidates[k], r));
        assert forall|i: int| 0 <= i < candidates.len() && i != k implies {
            &&& may_fail(scope, span, #[trigger] candidates[i])
            &&& evaluates_one_way(scope) ==> never_matches(scope, span, candidates[i])
        } by {
            assert(tries[i].result is Err);
            assert(candidate_resolves(scope, span, candidates[i], tries[i]));
            if evaluates_one_way(scope) {
                assert forall|other: Resolution| #[trigger]
                    candidate_resolves(
                        scope,
                        span,
                        candidates[i],
                        other,
                    ) implies other.result is Err by {
                    law_candidate_resolves_one_way(scope, span, candidates[i], tries[i], other);
                }
            }
        }
    }
}

/// Whether trying the candidate may come to no value.
pub open spec fn may_fail<H: Host>(
    scope: ScopeView<'_, H>,
    span: Span,
    candidate: RuleInvocationCandidate,
) -> bool {
    exists|r: Resolution| #[trigger]
        candidate_resolves(scope, span, candidate, r) && r.result is Err
}

/// Whether trying the candidate always comes to no value.
pub open spec fn never_matches<H: Host>(
    scope: ScopeView<'_, H>,
    span: Span,
    candidate: RuleInvocationCandidate,
) -> bool {
    forall|r: Resolution| #[trigger]
        candidate_resolves(scope, span, candidate, r) ==> r.result is Err
}

/// Whether no candidate may match.
spec fn no_match<H: Host>(
    scope: ScopeView<'_, H>,
    span: Span,
    candidates: Seq<RuleInvocationCandidate>,
) -> bool {
    forall|i: int|
        0 <= i < candidates.len() ==> never_matches(scope, span, #[trigger] candidates[i])
}

/// Whether candidate `k` may match, and no other one may.
spec fn only_match<H: Host>(
    scope: ScopeView<'_, H>,
    span: Span,
    candidates: Seq<RuleInvocationCandidate>,
    k: int,
) -> bool {
    &&& 0 <= k < candidates.len()
    &&& !never_matches(scope, span, candidates[k])
    &&& forall|i: int|
        0 <= i < candidates.len() && i != k ==> never_matches(
            scope,
            span,
            #[trigger] candidates[i],
        )
}

/// What an instruction comes to in the final pass, by how many candidates match.
proof fn lemma_final_outcome<H: Host>(
    scope: ScopeView<'_, H>,
    span: Span,
    candidates: Seq<RuleInvocationCandidate>,
    r: Resolution,
)
    requires
        scope.final_pass,
        evaluates_one_way(scope),
        candidates_resolve(scope, span, candidates, r),
    ensures
        no_match(scope, span, candidates) ==> {
            &&& r.result == Err::<ValueView, ()>(())
            &&& candidates.len() != 1 ==> r.messages.len() == 0
        },
        forall|k: int|
            only_match(scope, span, candidates, k) ==> candidate_resolves(
                scope,
                span,
                #[trigger] candidates[k],
                r,
            ),
        !no_match(scope, span, candidates) && !(exists|k: int|
            only_match(scope, span, candidates, k)) ==> r == (Resolution {
            result: Err(()),
            messages: seq![error("multiple matches for instruction"@, span)],
        }),
{
    if candidates.len() == 1 {
        assert(candidate_resolves(scope, span, candidates[0], r));
        if !no_match(scope, span, candidates) {
            assert(only_match(scope, span, candidates, 0));
        } else {
            assert(never_matches(scope, span, candidates[0]));
        }
    } else {
        let (tries, again) = lemma_tries(scope, span, candidates, r);
        assert forall|i: int| 0 <= i < candidates.len() implies (
        #[trigger] tries[i]).result is Err == never_matches(scope, span, candidates[i]) by {
            assert forall|other: Resolution| #[trigger]
                candidate_resolves(scope, span, candidates[i], other) implies other == tries[i] by {
                law_candidate_resolves_one_way(scope, span, candidates[i], tries[i], other);
            }
        }
        if no_match(scope, span, candidates) {
            assert(no_success(tries)) by {
                assert forall|i: int| 0 <= i < tries.len() implies (
                #[trigger] tries[i]).result is Err by {
                    assert(never_matches(scope, span, candidates[i]));
                }
            }
        } else {
            assert(!no_success(tries)) by {
                let i = choose|i: int|
                    0 <= i < candidates.len() && !never_matches(
                        scope,
                        span,
                        #[trigger] candidates[i],
                    );
                assert(tries[i].result is Ok);
            }
            if !several_successes(tries) {
                let k = lemma_only_success(tries);
                assert forall|i: int| 0 <= i < candidates.len() && i != k implies never_matches(
                    scope,
                    span,
                    #[trigger] candidates[i],
                ) by {
                    assert(tries[i].result is Err);
                }
                assert(only_match(scope, span, candidates, k));
            }
        }
        assert forall|k: int|
            only_match(scope, span, candidates, k) implies candidate_resolves(
            scope,
            span,
            #[trigger] candidates[k],
            r,
        ) by {
            assert(tries[k].result is Ok);
            assert(is_only_success(tries, k)) by {
                assert forall|i: int| 0 <= i < tries.len() && i != k implies (
                #[trigger] tries[i]).result is Err by {
                    assert(never_matches(scope, span, candidates[i]));
                }
            }
        }
    }
}

/// How often an item occurs that is in the row once, or twice.
proof fn lemma_count<A>(row: Seq<A>, k: int)
    requires
        0 <= k < row.len(),
    ensures
        (forall|i: int| 0 <= i < row.len() && i != k ==> row[i] != row[k])
            ==> row.to_multiset().count(row[k]) == 1,
        (exists|i: int| 0 <= i < row.len() && i != k && row[i] == row[k])
            ==> row.to_multiset().count(row[k]) > 1,
{
    let rest = row.remove(k);
    row.to_multiset_ensures();
    rest.to_multiset_ensures();
    assert(row.contains(row[k]));
    assert(rest.to_multiset() == row.to_multiset().remove(row[k]));
    assert(rest.to_multiset().count(row[k]) == row.to_multiset().count(row[k]) - 1);
    if exists|i: int| 0 <= i < row.len() && i != k && row[i] == row[k] {
        let i = choose|i: int| 0 <= i < row.len() && i != k && row[i] == row[k];
        let j = if i < k {
            i
        } else {
            i - 1
        };
        assert(rest[j] == row[k]);
        assert(rest.contains(row[k]));
    } else {
        assert(!rest.contains(row[k])) by {
            if rest.contains(row[k]) {
                let j = choose|j: int| 0 <= j < rest.len() && rest[j] == row[k];
                let i = if j < k {
                    j
                } else {
                    j + 1
                };
                assert(row[i] == row[k]);
            }
        }
    }
}

/// Whether the candidates that may match are the same in both rows, in any order.
pub open spec fn same_matches<H: Host>(
    scope: ScopeView<'_, H>,
    span: Span,
    a: Seq<RuleInvocationCandidate>,
    b: Seq<RuleInvocationCandidate>,
) -> bool {
    forall|c: RuleInvocationCandidate|
        #![trigger a.to_multiset().count(c)]
        #![trigger b.to_multiset().count(c)]
        !never_matches(scope, span, c) ==> a.to_multiset().count(c) == b.to_multiset().count(c)
}

/// As many candidates of the one row match as of the other, if it is none or one.
proof fn lemma_same_matches<H: Host>(
    scope: ScopeView<'_, H>,
    span: Span,
    a: Seq<RuleInvocationCandidate>,
    b: Seq<RuleInvocationCandidate>,
)
    requires
        same_matches(scope, span, a, b),
    ensures
        no_match(scope, span, a) ==> no_match(scope, span, b),
        forall|k: int| #[trigger]
            only_match(scope, span, a, k) ==> exists|j: int| #[trigger]
                only_match(scope, span, b, j) && b[j] == a[k],
{
    a.to_multiset_ensures();
    b.to_multiset_ensures();
    assert forall|j: int|
        0 <= j < b.len() && !never_matches(scope, span, #[trigger] b[j]) implies a.contains(
        b[j],
    ) by {
        assert(b.contains(b[j]));
        assert(b.to_multiset().count(b[j]) > 0);
    }
    if no_match(scope, span, a) {
        assert forall|j: int| 0 <= j < b.len() implies never_matches(
            scope,
            span,
            #[trigger] b[j],
        ) by {
            if !never_matches(scope, span, b[j]) {
                let i = choose|i: int| 0 <= i < a.len() && a[i] == b[j];
                assert(never_matches(scope, span, a[i]));
            }
        }
    }
    assert forall|k: int| #[trigger] only_match(scope, span, a, k) implies exists|j: int|
        #[trigger] only_match(scope, span, b, j) && b[j] == a[k] by {
        lemma_count(a, k);
        assert(b.to_multiset().count(a[k]) == 1);
        assert(b.contains(a[k]));
        let j = choose|j: int| 0 <= j < b.len() && b[j] == a[k];
        lemma_count(b, j);
        assert forall|i: int| 0 <= i < b.len() && i != j implies never_matches(
            scope,
            span,
            #[trigger] b[i],
        ) by {
            if !never_matches(scope, span, b[i]) {
                let m = choose|m: int| 0 <= m < a.len() && a[m] == b[i];
                assert(m == k);
            }
        }
        assert(only_match(scope, span, b, j));
    }
}

/// In the final pass, candidates that do not match make no difference to the result,
/// and neither does the order of the candidates. Where one matches, the messages are
/// the same, too. Expressions are to come to the same always.
pub proof fn law_only_matches_count<H: Host>(
    scope: ScopeView<'_, H>,
    span: Span,
    a: Seq<RuleInvocationCandidate>,
    b: Seq<RuleInvocationCandidate>,
    x: Resolution,
    y: Resolution,
)
    requires
        scope.final_pass,
        evaluates_one_way(scope),
        same_matches(scope, span, a, b),
        candidates_resolve(scope, span, a, x),
        candidates_resolve(scope, span, b, y),
    ensures
        x.result == y.result,
        (exists|i: int| 0 <= i < a.len() && !never_matches(scope, span, #[trigger] a[i]))
            ==> x == y,
{
    lemma_final_outcome(scope, span, a, x);
    lemma_final_outcome(scope, span, b, y);
    lemma_same_matches(scope, span, a, b);
    lemma_same_matches(scope, span, b, a);
    if exists|k: int| only_match(scope, span, a, k) {
        let k = choose|k: int| only_match(scope, span, a, k);
        let j = choose|j: int| #[trigger] only_match(scope, span, b, j) && b[j] == a[k];
        assert(candidate_resolves(scope, span, a[k], x));
        assert(candidate_resolves(scope, span, b[j], y));
        law_candidate_resolves_one_way(scope, span, a[k], x, y);
    } else if !no_match(scope, span, a) {
        assert(!(exists|j: int| only_match(scope, span, b, j)));
    }
}

/// In the final pass, the order of the candidates makes no difference, neither to the
/// result nor to the messages, if expressions always come to the same.
pub proof fn law_order_of_candidates_is_free<H: Host>(
    scope: ScopeView<'_, H>,
    span: Span,
    a: Seq<RuleInvocationCandidate>,
    b: Seq<RuleInvocationCandidate>,
    x: Resolution,
    y: Resolution,
)
    requires
        scope.final_pass,
        evaluates_one_way(scope),
        a.to_multiset() == b.to_multiset(),
        candidates_resolve(scope, span, a, x),
        candidates_resolve(scope, span, b, y),
    ensures
        x == y,
{
    a.to_multiset_ensures();
    b.to_multiset_ensures();
    assert(a.len() == b.len());
    if a.len() == 1 {
        assert(a.contains(a[0]));
        assert(b.to_multiset().count(a[0]) > 0);
        assert(b.contains(a[0]));
        law_candidate_resolves_one_way(scope, span, a[0], x, y);
    } else {
        lemma_final_outcome(scope, span, a, x);
        lemma_final_outcome(scope, span, b, y);
        law_only_matches_count(scope, span, a, b, x, y);
        if no_match(scope, span, a) {
            lemma_same_matches(scope, span, a, b);
            assert(x.messages =~= y.messages);
        }
    }
}

/// A successful assembly is the work of one last pass, within the limit of passes, that
/// parsed all files and in which all banks are resolved.
pub proof fn law_success_is_of_one_pass<H: Host>(
    host: &H,
    files: Seq<String>,
    iteration: nat,
    max_iterations: nat,
    guesses: SymbolManager,
    end: Assembly,
)
    requires
        assembles(host, files, iteration, max_iterations, guesses, end),
        end.output is Some,
    ensures
        exists|n: nat, last_guesses: SymbolManager, start: State, parsed: State|
            {
                &&& n == iteration || iteration < n < max_iterations
                &&& #[trigger] pass_starts(start, n, last_guesses)
                &&& #[trigger] files_parse(host, files, start, parsed)
                &&& banks_end(host, parsed, end)
            },
    decreases max_iterations - iteration,
{
    if pass_ends(host, files, iteration, guesses, end) {
        let start = choose|start: State|
            {
                &&& #[trigger] pass_starts(start, iteration, guesses)
                &&& exists|parsed: State| #[trigger]
                    files_parse(host, files, start, parsed) && banks_end(host, parsed, end)
            };
        let parsed = choose|parsed: State| #[trigger]
            files_parse(host, files, start, parsed) && banks_end(host, parsed, end);
        assert(pass_starts(start, iteration, guesses));
        assert(files_parse(host, files, start, parsed));
    } else {
        let (parsed, failed) = lemma_failed_pass(
            host,
            files,
            iteration,
            max_iterations,
            guesses,
            end,
        );
        law_success_is_of_one_pass(
            host,
            files,
            iteration + 1,
            max_iterations,
            parsed.symbols,
            end,
        );
    }
}

/// In a successful assembly every bank has converged: the sizes that the addresses of
/// the last pass rest on are the sizes of what is in the output.
pub proof fn law_assembled_banks_have_converged<H: Host>(host: &H, parsed: State, end: Assembly)
    requires
        banks_end(host, parsed, end),
    ensures
        exists|bits: Seq<BitVecView>|
            {
                &&& bits.len() == parsed.banks@.len()
                &&& end.output == Some((#[trigger] combined(parsed.banks@, bits), parsed.symbols))
                &&& forall|i: int|
                    #![trigger bits[i]]
                    0 <= i < bits.len() ==> converges(
                        &parsed,
                        host,
                        parsed.banks@[i],
                        parsed.bankdata@[i],
                        bits[i],
                    )
            },
{
    let bits = lemma_bank_bits(host, parsed, end);
    assert forall|i: int| #![trigger bits[i]] 0 <= i < bits.len() implies converges(
        &parsed,
        host,
        parsed.banks@[i],
        parsed.bankdata@[i],
        bits[i],
    ) by {
        law_silent_bank_has_converged(
            &parsed,
            host,
            parsed.banks@[i],
            parsed.bankdata@[i],
            bits[i],
        );
    }
    assert(end.output == Some((combined(parsed.banks@, bits), parsed.symbols)));
}

/// The bits of two files of digits in a row are those of the first one and then those
/// of the second one.
pub proof fn law_digits_join(a: Seq<char>, b: Seq<char>, bits_per_char: nat)
    ensures
        digit_bits(a + b, bits_per_char) == (match (
            digit_bits(a, bits_per_char),
            digit_bits(b, bits_per_char),
        ) {
            (Some(x), Some(y)) => Some(x + y),
            _ => None,
        }),
    decreases b.len(),
{
    if b.len() == 0 {
        assert(a + b =~= a);
        if let Some(x) = digit_bits(a, bits_per_char) {
            assert(x + Seq::<bool>::empty() =~= x);
        }
    } else {
        assert((a + b).drop_last() =~= a + b.drop_last());
        law_digits_join(a, b.drop_last(), bits_per_char);
        if let (Some(x), Some(y)) = (
            digit_bits(a, bits_per_char),
            digit_bits(b.drop_last(), bits_per_char),
        ) {
            let z = low_bits(
                crate::eval::digit_value(b.last(), bits_per_char)->Some_0,
                bits_per_char,
            );
            assert((x + y) + z =~= x + (y + z));
        }
    }
}

/// Spaces, line ends and underscores in a file of digits do not matter.
pub proof fn law_spacing_is_ignored(a: Seq<char>, c: char, b: Seq<char>, bits_per_char: nat)
    requires
        is_spacing(c),
    ensures
        digit_bits(a.push(c) + b, bits_per_char) == digit_bits(a + b, bits_per_char),
{
    law_digits_join(a.push(c), b, bits_per_char);
    law_digits_join(a, b, bits_per_char);
    assert(a.push(c).drop_last() =~= a);
}

} // verus!
